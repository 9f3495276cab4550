//! Append-only spill file for in-memory layers.
//!
//! An [`EphemeralFile`] is a tenant/timeline-scoped append-only byte stream.
//! Each blob written to it is prefixed by a length header: one byte when the
//! length is below `0x80`, otherwise four big-endian bytes with the top bit
//! of the first byte set (31-bit capacity). Reads go through fixed-size
//! pages of [`PAGE_SZ`] bytes, the unit served by the block cache; the last
//! page is zero-padded.
//!
//! The file holds a [`GateGuard`] taken from its tenant's gate, so tenant
//! teardown cannot complete while the file is alive.

use vstd::prelude::*;
use vstd::arithmetic::div_mod::lemma_fundamental_div_mod;
use vstd::string::StringSliceAdditionalSpecFns;
use crate::errors::EngineError;
use crate::gate::GateGuard;
use crate::keys::PAGE_SZ;

verus! {

/// Largest blob length the header format can carry (31-bit lengths).
pub const MAX_BLOB_LEN: usize = 0x7fffffff;

/// The length header that precedes a blob of `len` bytes.
pub open spec fn blob_header_view(len: nat) -> Seq<u8> {
    if len < 0x80 {
        seq![len as u8]
    } else {
        seq![
            (0x80 + len / 0x1000000) as u8,
            ((len / 0x10000) % 0x100) as u8,
            ((len / 0x100) % 0x100) as u8,
            (len % 0x100) as u8,
        ]
    }
}

/// The on-disk form of a blob: length header, then payload.
pub open spec fn blob_encoding(b: Seq<u8>) -> Seq<u8> {
    blob_header_view(b.len()) + b
}

/// Decode the length header found at `off`: the payload length and the
/// header size, or `None` when no well-formed header starts there.
pub open spec fn header_at(data: Seq<u8>, off: int) -> Option<(int, int)> {
    if 0 <= off < data.len() {
        if data[off] < 0x80 {
            Some((data[off] as int, 1))
        } else if off + 4 <= data.len() {
            Some((
                (data[off] - 0x80) * 0x1000000 + data[off + 1] * 0x10000 + data[off + 2] * 0x100
                    + data[off + 3],
                4,
            ))
        } else {
            None
        }
    } else {
        None
    }
}

/// The payload of the blob whose encoding starts at `off`, or `None` when
/// no complete blob starts there.
pub open spec fn blob_at(data: Seq<u8>, off: int) -> Option<Seq<u8>> {
    match header_at(data, off) {
        Some((len, hsz)) => {
            if off + hsz + len <= data.len() {
                Some(data.subrange(off + hsz, off + hsz + len))
            } else {
                None
            }
        }
        None => None,
    }
}

/// Big-endian byte decomposition of a 31-bit value.
proof fn lemma_u32_be_bytes(n: u32)
    by (bit_vector)
    requires
        n < 0x80000000,
    ensures
        n / 0x1000000 < 0x80,
        (n / 0x10000) % 0x100 < 0x100,
        (n / 0x100) % 0x100 < 0x100,
        n % 0x100 < 0x100,
        (n / 0x1000000) * 0x1000000 + ((n / 0x10000) % 0x100) * 0x10000 + ((n / 0x100) % 0x100)
            * 0x100 + n % 0x100 == n,
{
}

/// Blob round-trip: the encoding of `b` appended after `data` decodes back
/// to `b` at offset `data.len()`, whatever bytes follow it later.
///
/// With [`EphemeralFile::write_blob`]'s contract this gives: for any
/// sequence of writes, reading at each returned offset yields the bytes
/// written there, with `suffix` standing for everything appended since.
pub proof fn lemma_blob_round_trip(data: Seq<u8>, b: Seq<u8>, suffix: Seq<u8>)
    requires
        b.len() <= MAX_BLOB_LEN,
    ensures
        blob_at(data + blob_encoding(b) + suffix, data.len() as int) == Some(b),
{
    let whole = data + blob_encoding(b) + suffix;
    let off = data.len() as int;
    assert forall|i: int| 0 <= i < blob_encoding(b).len() implies whole[off + i] == blob_encoding(
        b,
    )[i] by {}
    if b.len() < 0x80 {
        assert(whole[off] == b.len() as u8);
        assert(header_at(whole, off) == Some((b.len() as int, 1int)));
        assert(whole.subrange(off + 1, off + 1 + b.len()) =~= b);
    } else {
        let n = b.len() as u32;
        lemma_u32_be_bytes(n);
        assert(whole[off] == (0x80 + b.len() / 0x1000000) as u8);
        assert(whole[off] >= 0x80);
        assert(whole[off + 1] == ((b.len() / 0x10000) % 0x100) as u8);
        assert(whole[off + 2] == ((b.len() / 0x100) % 0x100) as u8);
        assert(whole[off + 3] == (b.len() % 0x100) as u8);
        assert((whole[off] - 0x80) * 0x1000000 + whole[off + 1] * 0x10000 + whole[off + 2] * 0x100
            + whole[off + 3] == b.len());
        assert(header_at(whole, off) == Some((b.len() as int, 4int)));
        assert(whole.subrange(off + 4, off + 4 + b.len()) =~= b);
    }
}

/// A decoded blob is unaffected by later appends to the file: the file is
/// append-only, so offsets returned by a write stay valid.
pub proof fn lemma_blob_at_extend(data: Seq<u8>, suffix: Seq<u8>, off: int)
    requires
        blob_at(data, off) is Some,
    ensures
        blob_at(data + suffix, off) == blob_at(data, off),
{
    let whole = data + suffix;
    assert(header_at(whole, off) == header_at(data, off));
    let (len, hsz) = header_at(data, off).unwrap();
    assert(whole.subrange(off + hsz, off + hsz + len) =~= data.subrange(off + hsz, off + hsz + len));
}

/// A blob encoded inside `suffix` decodes the same after `suffix` is
/// appended to `data`, at the offset translated by `data.len()`.
pub proof fn lemma_blob_at_shift(data: Seq<u8>, suffix: Seq<u8>, off: int)
    requires
        blob_at(suffix, off) is Some,
    ensures
        blob_at(data + suffix, data.len() + off) == blob_at(suffix, off),
{
    let whole = data + suffix;
    let at = data.len() + off;
    assert(whole[at] == suffix[off]);
    if suffix[off] >= 0x80 {
        assert(whole[at + 1] == suffix[off + 1]);
        assert(whole[at + 2] == suffix[off + 2]);
        assert(whole[at + 3] == suffix[off + 3]);
    }
    assert(header_at(whole, at) == header_at(suffix, off));
    let (len, hsz) = header_at(suffix, off).unwrap();
    assert(whole.subrange(at + hsz, at + hsz + len) =~= suffix.subrange(off + hsz, off + hsz + len));
}

/// Append the length header for a blob of `len` bytes.
///
/// This is the engine's native blob-length format, shared by spill files
/// and the value areas of delta layers.
pub fn write_blob_length(len: usize, out: &mut Vec<u8>)
    requires
        len <= MAX_BLOB_LEN,
    ensures
        final(out)@ == old(out)@ + blob_header_view(len as nat),
{
    if len < 0x80 {
        out.push(len as u8);
        proof {
            assert(out@ =~= old(out)@ + blob_header_view(len as nat));
        }
    } else {
        let n: u32 = len as u32;
        proof {
            lemma_u32_be_bytes(n);
        }
        out.push((0x80 + n / 0x1000000) as u8);
        out.push(((n / 0x10000) % 0x100) as u8);
        out.push(((n / 0x100) % 0x100) as u8);
        out.push((n % 0x100) as u8);
        proof {
            assert(out@ =~= old(out)@ + blob_header_view(len as nat));
        }
    }
}

/// A tenant/timeline-scoped append-only blob file.
pub struct EphemeralFile {
    data: Vec<u8>,
    guard: GateGuard,
}

impl View for EphemeralFile {
    type V = Seq<u8>;

    closed spec fn view(&self) -> Seq<u8> {
        self.data@
    }
}

impl EphemeralFile {
    /// Create a new, empty file. The guard is held until the file is
    /// released, so the tenant's teardown waits for it meanwhile.
    pub fn create(guard: GateGuard) -> (f: EphemeralFile)
        ensures
            f@ == Seq::<u8>::empty(),
    {
        let f = EphemeralFile { data: Vec::new(), guard };
        proof {
            assert(f@ =~= Seq::<u8>::empty());
        }
        f
    }

    /// Give the file up, handing back the guard it was created with so the
    /// caller can return it to the tenant's gate.
    pub fn release(self) -> GateGuard {
        self.guard
    }

    /// Total bytes written so far.
    pub fn len(&self) -> (r: u64)
        ensures
            r == self@.len(),
    {
        self.data.len() as u64
    }

    /// Append raw, pre-encoded bytes; returns the offset at which the first
    /// byte was written. The file is only ever extended.
    pub fn write_raw(&mut self, srcbuf: &Vec<u8>) -> (pos: u64)
        ensures
            pos == old(self)@.len(),
            final(self)@ == old(self)@ + srcbuf@,
    {
        let pos = self.len();
        crate::value::append_bytes(&mut self.data, srcbuf);
        pos
    }

    /// Append one blob in encoded form (length header, then payload);
    /// returns the offset of the blob's header.
    pub fn write_blob(&mut self, srcbuf: &Vec<u8>) -> (pos: u64)
        requires
            srcbuf@.len() <= MAX_BLOB_LEN,
        ensures
            pos == old(self)@.len(),
            final(self)@ == old(self)@ + blob_encoding(srcbuf@),
            blob_at(final(self)@, pos as int) == Some(srcbuf@),
    {
        let pos = self.len();
        let mut enc: Vec<u8> = Vec::new();
        write_blob_length(srcbuf.len(), &mut enc);
        crate::value::append_bytes(&mut enc, srcbuf);
        crate::value::append_bytes(&mut self.data, &enc);
        proof {
            assert(enc@ =~= blob_encoding(srcbuf@));
            assert(self@ =~= old(self)@ + blob_encoding(srcbuf@) + Seq::<u8>::empty());
            lemma_blob_round_trip(old(self)@, srcbuf@, Seq::<u8>::empty());
        }
        pos
    }

    /// The contents of page `blknum`: file bytes where the page lies within
    /// the file, zeroes past its end.
    pub open spec fn spec_page(data: Seq<u8>, blknum: int) -> Seq<u8> {
        Seq::new(PAGE_SZ as nat, |i: int| if blknum * PAGE_SZ + i < data.len() {
            data[blknum * PAGE_SZ + i]
        } else {
            0u8
        })
    }

    /// Read one page. Pages already flushed to disk come from the block
    /// cache; the buffered tail page is served from the write buffer.
    pub fn read_blk(&self, blknum: u64) -> (r: Vec<u8>)
        requires
            blknum * PAGE_SZ < self@.len(),
        ensures
            r@ == Self::spec_page(self@, blknum as int),
    {
        let dlen: usize = self.data.len();
        proof {
            assert(blknum <= blknum * PAGE_SZ);
        }
        let start: usize = (blknum as usize) * PAGE_SZ;
        let mut out: Vec<u8> = Vec::new();
        let mut i: usize = 0;
        while i < PAGE_SZ
            invariant
                i <= PAGE_SZ,
                start == blknum * PAGE_SZ,
                start < self@.len(),
                out@.len() == i,
                forall|j: int| 0 <= j < i ==> out@[j] == Self::spec_page(self@, blknum as int)[j],
            decreases PAGE_SZ - i,
        {
            if start + i < self.data.len() {
                out.push(self.data[start + i]);
            } else {
                out.push(0u8);
            }
            i = i + 1;
        }
        proof {
            assert(out@ =~= Self::spec_page(self@, blknum as int));
        }
        out
    }

    /// Read `count` bytes starting at `off`, assembling them page by page
    /// through [`EphemeralFile::read_blk`].
    pub fn read_bytes(&self, off: u64, count: usize) -> (r: Vec<u8>)
        requires
            off + count <= self@.len(),
        ensures
            r@ == self@.subrange(off as int, off as int + count as int),
    {
        let flen: u64 = self.len();
        let mut out: Vec<u8> = Vec::new();
        let mut read: usize = 0;
        while read < count
            invariant
                read <= count,
                off + count <= self@.len(),
                self@.len() == flen,
                out@ == self@.subrange(off as int, off as int + read as int),
            decreases count - read,
        {
            let pos: u64 = off + read as u64;
            let blknum: u64 = pos / (PAGE_SZ as u64);
            let in_page: usize = (pos % (PAGE_SZ as u64)) as usize;
            proof {
                lemma_fundamental_div_mod(pos as int, PAGE_SZ as int);
            }
            let page = self.read_blk(blknum);
            let take: usize = if PAGE_SZ - in_page < count - read {
                PAGE_SZ - in_page
            } else {
                count - read
            };
            let mut j: usize = 0;
            while j < take
                invariant
                    j <= take,
                    take >= 1,
                    read + take <= count,
                    off + count <= self@.len(),
                    pos == off + read,
                    in_page + take <= PAGE_SZ,
                    blknum * PAGE_SZ + in_page == pos,
                    page@ == Self::spec_page(self@, blknum as int),
                    out@ == self@.subrange(off as int, off as int + read as int + j as int),
                decreases take - j,
            {
                proof {
                    assert(blknum * PAGE_SZ + (in_page + j) == pos + j);
                    assert(pos + j < self@.len());
                    assert(page@[in_page + j] == self@[pos as int + j]);
                }
                out.push(page[in_page + j]);
                proof {
                    assert(out@ =~= self@.subrange(off as int, off as int + read as int + j + 1));
                }
                j = j + 1;
            }
            read = read + take;
        }
        out
    }

    /// Read back the blob whose encoding starts at `off`, as written by
    /// [`EphemeralFile::write_blob`]. Fails when no complete blob starts
    /// there (a read past the end of the file).
    pub fn read_blob(&self, off: u64) -> (r: Result<Vec<u8>, EngineError>)
        ensures
            match r {
                Ok(b) => blob_at(self@, off as int) == Some(b@),
                Err(e) => blob_at(self@, off as int) is None && e == EngineError::Io,
            },
    {
        let flen = self.len();
        if off >= flen {
            return Err(EngineError::Io);
        }
        let hdr0 = self.read_bytes(off, 1);
        let b0 = hdr0[0];
        if b0 < 0x80 {
            let blen: u64 = b0 as u64;
            if blen <= flen - (off + 1) {
                Ok(self.read_bytes(off + 1, blen as usize))
            } else {
                Err(EngineError::Io)
            }
        } else {
            if flen - off < 4 {
                return Err(EngineError::Io);
            }
            let hdr = self.read_bytes(off, 4);
            let blen: u64 = ((hdr[0] - 0x80) as u64) * 0x1000000 + (hdr[1] as u64) * 0x10000 + (
            hdr[2] as u64) * 0x100 + hdr[3] as u64;
            if blen <= flen - (off + 4) {
                Ok(self.read_bytes(off + 4, blen as usize))
            } else {
                Err(EngineError::Io)
            }
        }
    }

    /// Length of the file rounded up to a whole number of pages.
    pub open spec fn spec_padded_len(n: int) -> int {
        if n % (PAGE_SZ as int) == 0 {
            n
        } else {
            n + (PAGE_SZ - n % (PAGE_SZ as int))
        }
    }

    /// The entire file contents, zero-padded to a page multiple, for bulk
    /// flush paths.
    pub fn load_to_vec(&self) -> (r: Vec<u8>)
        ensures
            r@.len() == Self::spec_padded_len(self@.len() as int),
            r@.len() as int % (PAGE_SZ as int) == 0,
            r@.subrange(0, self@.len() as int) == self@,
            forall|i: int| self@.len() <= i < r@.len() ==> r@[i] == 0u8,
    {
        let mut out: Vec<u8> = Vec::new();
        crate::value::append_bytes(&mut out, &self.data);
        proof {
            assert(out@ =~= self@);
        }
        while out.len() % PAGE_SZ != 0
            invariant
                out@.len() >= self@.len(),
                out@.subrange(0, self@.len() as int) =~= self@,
                forall|i: int| self@.len() <= i < out@.len() ==> out@[i] == 0u8,
                out@.len() < Self::spec_padded_len(self@.len() as int) || out@.len() as int % (
                PAGE_SZ as int) == 0,
                out@.len() <= Self::spec_padded_len(self@.len() as int),
            decreases Self::spec_padded_len(self@.len() as int) - out@.len(),
        {
            out.push(0u8);
            proof {
                assert(out@.subrange(0, self@.len() as int) =~= self@);
            }
        }
        proof {
            assert(out@.subrange(0, self@.len() as int) == self@);
        }
        out
    }
}

/// Whether `s[i..]` holds only decimal digits.
pub open spec fn all_digits(s: Seq<u8>) -> bool {
    forall|i: int| 0 <= i < s.len() ==> 48 <= #[trigger] s[i] <= 57
}

/// Value of a sequence of decimal digit bytes.
pub open spec fn dec_value(s: Seq<u8>) -> nat
    decreases s.len(),
{
    if s.len() == 0 {
        0
    } else {
        dec_value(s.drop_last()) * 10 + (s.last() - 48) as nat
    }
}

/// What follows the `ephemeral-` prefix.
pub open spec fn spec_numeral_part(bytes: Seq<u8>) -> Seq<u8> {
    bytes.subrange(10, bytes.len() as int)
}

/// Whether `bytes` names an ephemeral file: the prefix `ephemeral-`
/// followed by a decimal numeral — at least one digit — whose value fits
/// in 64 bits, the monotonic counter the names are minted from.
pub open spec fn spec_is_ephemeral_file(bytes: Seq<u8>) -> bool {
    let prefix = seq![101u8, 112u8, 104u8, 101u8, 109u8, 101u8, 114u8, 97u8, 108u8, 45u8];
    &&& bytes.len() > 10
    &&& bytes.subrange(0, 10) == prefix
    &&& all_digits(spec_numeral_part(bytes))
    &&& dec_value(spec_numeral_part(bytes)) <= u64::MAX
}

/// Does the given filename look like an ephemeral file?
pub fn is_ephemeral_file(filename: &str) -> (r: bool)
    ensures
        r == spec_is_ephemeral_file(filename.spec_bytes()),
{
    let bytes = filename.as_bytes();
    let n = bytes.len();
    if n <= 10 {
        return false;
    }
    let prefix: [u8; 10] = [101u8, 112u8, 104u8, 101u8, 109u8, 101u8, 114u8, 97u8, 108u8, 45u8];
    let mut i: usize = 0;
    while i < 10
        invariant
            i <= 10,
            n == bytes@.len(),
            n > 10,
            bytes@ == filename.spec_bytes(),
            prefix@ == seq![101u8, 112u8, 104u8, 101u8, 109u8, 101u8, 114u8, 97u8, 108u8, 45u8],
            forall|j: int| 0 <= j < i ==> bytes@[j] == prefix@[j],
        decreases 10 - i,
    {
        if bytes[i] != prefix[i] {
            assert(bytes@.subrange(0, 10) != prefix@) by {
                assert(bytes@.subrange(0, 10)[i as int] != prefix@[i as int]);
            }
            return false;
        }
        i = i + 1;
    }
    proof {
        assert(bytes@.subrange(0, 10) =~= prefix@);
    }
    let ghost digits = spec_numeral_part(bytes@);
    let mut value: u128 = 0;
    let mut k: usize = 10;
    while k < n
        invariant
            10 <= k <= n,
            n == bytes@.len(),
            bytes@ == filename.spec_bytes(),
            digits == spec_numeral_part(bytes@),
            digits =~= bytes@.subrange(10, n as int),
            all_digits(digits.subrange(0, k - 10)),
            dec_value(digits.subrange(0, k - 10)) <= u64::MAX ==> value == dec_value(
                digits.subrange(0, k - 10),
            ),
            dec_value(digits.subrange(0, k - 10)) > u64::MAX ==> value == 0x10000000000000000u128,
            value <= 0x10000000000000000u128,
        decreases n - k,
    {
        let c = bytes[k];
        if c < 48 || c > 57 {
            assert(!all_digits(digits)) by {
                assert(digits[k - 10] == c);
            }
            return false;
        }
        let ghost prev = digits.subrange(0, k - 10);
        let ghost cur = digits.subrange(0, k + 1 - 10);
        proof {
            assert(cur.drop_last() =~= prev);
            assert(cur.last() == c);
            assert(dec_value(cur) == dec_value(prev) * 10 + (c - 48));
        }
        if value > 0xffffffffffffffffu128 {
            // already over 64 bits; appending digits cannot bring it back
            proof {
                assert(dec_value(prev) > u64::MAX);
                assert(dec_value(cur) >= dec_value(prev) * 10);
            }
        } else {
            value = value * 10 + ((c - 48) as u128);
            if value > 0xffffffffffffffffu128 {
                value = 0x10000000000000000u128;
            }
        }
        k = k + 1;
    }
    proof {
        assert(digits.subrange(0, n - 10) =~= digits);
    }
    value <= 0xffffffffffffffffu128
}

} // verus!
