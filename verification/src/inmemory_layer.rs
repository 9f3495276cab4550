//! The open in-memory layer: recently received page versions.
//!
//! The page versions themselves sit in an append-only spill file
//! ([`EphemeralFile`]); what is held in memory is the index mapping each key
//! to an ordered list of `(lsn, file offset)` pairs. Writes arrive as
//! pre-serialized batches ([`SerializedBatch`]) and are applied atomically:
//! the batch's buffer is appended to the file, then every `(key, lsn)` of
//! the batch is indexed at its final absolute offset.
//!
//! A layer starts *Open*, is *frozen* once with an exclusive `end_lsn`
//! (after which writes fail with `Writable`), and is finally flushed to a
//! persistent delta layer by [`InMemoryLayer::write_to_disk`].

use vstd::prelude::*;
use crate::ephemeral_file::{blob_at, EphemeralFile, MAX_BLOB_LEN};
use crate::errors::EngineError;
use crate::gate::GateGuard;
use crate::global_resources::{spec_ceiling, spec_size_drift, GlobalResourceUnits, GlobalResources,
    MAX_SIZE_DRIFT};
use crate::keys::{KeyRange, LsnRange, KEY_MAX, KEY_MIN};
use crate::layer_map::{entries_view, entry_lt, DeltaLayer};
use crate::value::{value_des, value_des_view, value_ser, value_ser_view, Value, ValueView};

verus! {

/// The value stored at `off` in `data`: the blob there, deserialized.
pub open spec fn stored_value_at(data: Seq<u8>, off: int) -> Option<ValueView> {
    match blob_at(data, off) {
        Some(b) => value_des_view(b),
        None => None,
    }
}

/// Position of one value within a serialized batch.
#[derive(Clone, Copy, PartialEq, Eq, Structural, Debug)]
pub struct BatchOffset {
    pub key: u128,
    pub lsn: u64,
    /// Offset from the start of the batch buffer to the value's length
    /// header.
    pub offset: u64,
}

/// A contiguous buffer of length-prefixed serialized values, with a
/// parallel index of `(key, lsn, relative offset)` tuples, ready to be
/// appended to a spill file in one write.
pub struct SerializedBatch {
    /// Blobs in the spill file's native format.
    pub raw: Vec<u8>,
    /// Index of the values inside `raw`.
    pub offsets: Vec<BatchOffset>,
    /// The highest LSN of any value in the batch; 0 when empty.
    pub max_lsn: u64,
}

impl SerializedBatch {
    /// Every indexed offset points at a complete, deserializable value
    /// inside the buffer.
    pub open spec fn wf(self) -> bool {
        forall|j: int|
            0 <= j < self.offsets@.len() ==> stored_value_at(
                self.raw@,
                (#[trigger] self.offsets@[j]).offset as int,
            ) is Some
    }

    /// Write a blob length in the internal format of the spill file.
    pub fn write_blob_length(len: usize, cursor: &mut Vec<u8>)
        requires
            len <= MAX_BLOB_LEN,
        ensures
            final(cursor)@ == old(cursor)@ + crate::ephemeral_file::blob_header_view(len as nat),
    {
        crate::ephemeral_file::write_blob_length(len, cursor);
    }

    /// Serialize a batch of `(key, lsn, value)` tuples into the spill
    /// file's native format: the buffer is the concatenation, in input
    /// order, of the values' length-prefixed encodings, and each offset
    /// names where its entry's length header starts.
    pub fn from_values(batch: Vec<(u128, u64, Value)>) -> (r: SerializedBatch)
        requires
            forall|j: int|
                0 <= j < batch@.len() ==> value_ser_view((#[trigger] batch@[j]).2@).len()
                    <= MAX_BLOB_LEN,
        ensures
            r.wf(),
            r.raw@ == spec_batch_raw(batch@),
            forall|j: int|
                0 <= j < batch@.len() ==> (#[trigger] r.offsets@[j]).offset == spec_batch_raw(
                    batch@.take(j),
                ).len(),
            r.offsets@.len() == batch@.len(),
            forall|j: int|
                0 <= j < batch@.len() ==> {
                    let bo = #[trigger] r.offsets@[j];
                    &&& bo.key == batch@[j].0
                    &&& bo.lsn == batch@[j].1
                    &&& blob_at(r.raw@, bo.offset as int) == Some(value_ser_view(batch@[j].2@))
                    &&& stored_value_at(r.raw@, bo.offset as int) == Some(batch@[j].2@)
                },
            r.max_lsn == spec_batch_max_lsn(batch@),
    {
        let mut raw: Vec<u8> = Vec::new();
        let mut offsets: Vec<BatchOffset> = Vec::new();
        let mut max_lsn: u64 = 0;
        let mut t: usize = 0;
        while t < batch.len()
            invariant
                t <= batch@.len(),
                offsets@.len() == t,
                raw@ == spec_batch_raw(batch@.take(t as int)),
                forall|j: int|
                    0 <= j < t ==> (#[trigger] offsets@[j]).offset == spec_batch_raw(
                        batch@.take(j),
                    ).len(),
                forall|j: int|
                    0 <= j < batch@.len() ==> value_ser_view((#[trigger] batch@[j]).2@).len()
                        <= MAX_BLOB_LEN,
                forall|j: int|
                    0 <= j < t ==> {
                        let bo = #[trigger] offsets@[j];
                        &&& bo.key == batch@[j].0
                        &&& bo.lsn == batch@[j].1
                        &&& blob_at(raw@, bo.offset as int) == Some(value_ser_view(batch@[j].2@))
                        &&& stored_value_at(raw@, bo.offset as int) == Some(batch@[j].2@)
                    },
                max_lsn == spec_batch_max_lsn(batch@.take(t as int)),
            decreases batch@.len() - t,
        {
            let (key, lsn, ref val) = batch[t];
            let rel: u64 = raw.len() as u64;
            let ser = value_ser(val);
            let ghost raw_before = raw@;
            Self::write_blob_length(ser.len(), &mut raw);
            crate::value::append_bytes(&mut raw, &ser);
            proof {
                assert(raw@ =~= raw_before + crate::ephemeral_file::blob_encoding(ser@));
                crate::ephemeral_file::lemma_blob_round_trip(raw_before, ser@, Seq::<u8>::empty());
                assert(raw_before + crate::ephemeral_file::blob_encoding(ser@) + Seq::<u8>::empty()
                    =~= raw@);
                assert(blob_at(raw@, rel as int) == Some(value_ser_view(batch@[t as int].2@)));
                crate::value::lemma_value_round_trip(batch@[t as int].2@);
                assert forall|j: int|
                    0 <= j < t implies blob_at(raw@, (#[trigger] offsets@[j]).offset as int)
                    == Some(value_ser_view(batch@[j].2@)) by {
                    crate::ephemeral_file::lemma_blob_at_extend(
                        raw_before,
                        crate::ephemeral_file::blob_encoding(ser@),
                        offsets@[j].offset as int,
                    );
                    assert(raw_before + crate::ephemeral_file::blob_encoding(ser@) =~= raw@);
                }
            }
            offsets.push(BatchOffset { key, lsn, offset: rel });
            if lsn > max_lsn {
                max_lsn = lsn;
            }
            proof {
                assert(batch@.take(t + 1).drop_last() =~= batch@.take(t as int));
                assert(batch@.take(t + 1).last() == batch@[t as int]);
                assert(raw@ =~= spec_batch_raw(batch@.take(t + 1)));
            }
            t = t + 1;
        }
        proof {
            assert(batch@.take(batch@.len() as int) =~= batch@);
        }
        proof {
            assert(spec_batch_raw(batch@.take(0)) =~= Seq::<u8>::empty());
        }
        SerializedBatch { raw, offsets, max_lsn }
    }
}

/// The batch buffer a value list serializes to: the length-prefixed
/// encodings of the values, concatenated in input order.
pub open spec fn spec_batch_raw(batch: Seq<(u128, u64, Value)>) -> Seq<u8>
    decreases batch.len(),
{
    if batch.len() == 0 {
        Seq::empty()
    } else {
        spec_batch_raw(batch.drop_last()) + crate::ephemeral_file::blob_encoding(
            value_ser_view(batch.last().2@),
        )
    }
}

/// The highest LSN in a batch; 0 when the batch is empty.
pub open spec fn spec_batch_max_lsn(batch: Seq<(u128, u64, Value)>) -> u64
    decreases batch.len(),
{
    if batch.len() == 0 {
        0u64
    } else {
        let rest = spec_batch_max_lsn(batch.drop_last());
        if batch.last().1 > rest {
            batch.last().1
        } else {
            rest
        }
    }
}

/// One key's slot in the in-memory index.
pub struct IndexEntry {
    pub key: u128,
    /// `(lsn, file offset)` pairs, strictly ascending by LSN.
    pub versions: Vec<(u64, u64)>,
}

/// Strictly ascending LSNs.
pub open spec fn versions_sorted(vs: Seq<(u64, u64)>) -> bool {
    forall|a: int, b: int| 0 <= a < b < vs.len() ==> (#[trigger] vs[a]).0 < (#[trigger] vs[b]).0
}

/// Every offset points at a complete, deserializable value in `file`.
pub open spec fn versions_valid(vs: Seq<(u64, u64)>, file: Seq<u8>) -> bool {
    forall|a: int| 0 <= a < vs.len() ==> stored_value_at(file, (#[trigger] vs[a]).1 as int) is Some
}

/// Every LSN is at least `lo`, and below `hi` when `hi` is set.
pub open spec fn versions_bounded(vs: Seq<(u64, u64)>, lo: u64, hi: Option<u64>) -> bool {
    forall|a: int|
        0 <= a < vs.len() ==> lo <= (#[trigger] vs[a]).0 && (hi is Some ==> vs[a].0 < hi.unwrap())
}

/// Well-formedness of the in-memory index against its spill file and the
/// layer's LSN bounds: keys strictly ascending and below the key-space
/// maximum, each with at least one version, versions strictly ascending by
/// LSN, offsets valid, LSNs within bounds.
pub open spec fn index_wf(ix: Seq<IndexEntry>, file: Seq<u8>, lo: u64, hi: Option<u64>) -> bool {
    &&& forall|i: int, j: int|
        0 <= i < j < ix.len() ==> (#[trigger] ix[i]).key < (#[trigger] ix[j]).key
    &&& forall|i: int| 0 <= i < ix.len() ==> (#[trigger] ix[i]).key < KEY_MAX
    &&& forall|i: int| 0 <= i < ix.len() ==> (#[trigger] ix[i]).versions@.len() >= 1
    &&& forall|i: int| 0 <= i < ix.len() ==> versions_sorted((#[trigger] ix[i]).versions@)
    &&& forall|i: int| 0 <= i < ix.len() ==> versions_valid((#[trigger] ix[i]).versions@, file)
    &&& forall|i: int| 0 <= i < ix.len() ==> versions_bounded((#[trigger] ix[i]).versions@, lo, hi)
}

/// The index as a map from key to its version list.
pub open spec fn index_to_map(ix: Seq<IndexEntry>) -> Map<u128, Seq<(u64, u64)>>
    decreases ix.len(),
{
    if ix.len() == 0 {
        Map::empty()
    } else {
        index_to_map(ix.drop_last()).insert(ix.last().key, ix.last().versions@)
    }
}

/// Updating one key's slot updates exactly that key in the map view.
proof fn lemma_map_update(ix: Seq<IndexEntry>, p: int, e: IndexEntry)
    requires
        0 <= p < ix.len(),
        e.key == ix[p].key,
        forall|i: int, j: int|
            0 <= i < j < ix.len() ==> (#[trigger] ix[i]).key < (#[trigger] ix[j]).key,
    ensures
        index_to_map(ix.update(p, e)) == index_to_map(ix).insert(e.key, e.versions@),
    decreases ix.len(),
{
    if p == ix.len() - 1 {
        assert(ix.update(p, e).drop_last() =~= ix.drop_last());
        assert(ix.update(p, e).last() == e);
    } else {
        lemma_map_update(ix.drop_last(), p, e);
        assert(ix.update(p, e).drop_last() =~= ix.drop_last().update(p, e));
        assert(ix.update(p, e).last() == ix.last());
        assert(ix.last().key != e.key);
        assert(index_to_map(ix.drop_last()).insert(e.key, e.versions@).insert(
            ix.last().key,
            ix.last().versions@,
        ) =~= index_to_map(ix.drop_last()).insert(ix.last().key, ix.last().versions@).insert(
            e.key,
            e.versions@,
        ));
    }
}

/// Inserting a slot for a fresh key inserts exactly that key in the map
/// view.
proof fn lemma_map_insert(ix: Seq<IndexEntry>, p: int, e: IndexEntry)
    requires
        0 <= p <= ix.len(),
        forall|i: int| 0 <= i < ix.len() ==> (#[trigger] ix[i]).key != e.key,
    ensures
        index_to_map(ix.insert(p, e)) == index_to_map(ix).insert(e.key, e.versions@),
    decreases ix.len(),
{
    if p == ix.len() {
        assert(ix.insert(p, e).drop_last() =~= ix);
        assert(ix.insert(p, e).last() == e);
    } else {
        lemma_map_insert(ix.drop_last(), p, e);
        assert(ix.insert(p, e).drop_last() =~= ix.drop_last().insert(p, e));
        assert(ix.insert(p, e).last() == ix.last());
        assert(ix.last().key != e.key);
        assert(index_to_map(ix.drop_last()).insert(e.key, e.versions@).insert(
            ix.last().key,
            ix.last().versions@,
        ) =~= index_to_map(ix.drop_last()).insert(ix.last().key, ix.last().versions@).insert(
            e.key,
            e.versions@,
        ));
    }
}

/// The map view reads each present key's slot, and holds no other keys.
proof fn lemma_map_lookup(ix: Seq<IndexEntry>, p: int)
    requires
        0 <= p < ix.len(),
        forall|i: int, j: int|
            0 <= i < j < ix.len() ==> (#[trigger] ix[i]).key < (#[trigger] ix[j]).key,
    ensures
        index_to_map(ix).dom().contains(ix[p].key),
        index_to_map(ix)[ix[p].key] == ix[p].versions@,
    decreases ix.len(),
{
    if p < ix.len() - 1 {
        lemma_map_lookup(ix.drop_last(), p);
        assert(ix.last().key != ix[p].key);
    }
}

/// A key in no slot is not in the map view.
proof fn lemma_map_absent(ix: Seq<IndexEntry>, key: u128)
    requires
        forall|i: int| 0 <= i < ix.len() ==> (#[trigger] ix[i]).key != key,
    ensures
        !index_to_map(ix).dom().contains(key),
    decreases ix.len(),
{
    if ix.len() > 0 {
        lemma_map_absent(ix.drop_last(), key);
    }
}

/// Appending a single version for `(key, lsn)` at `off`. Fails (`None`)
/// when the key already has an entry at a higher LSN than `lsn`; when one
/// exists at exactly `lsn` it is overwritten.
pub open spec fn spec_upsert(
    m: Map<u128, Seq<(u64, u64)>>,
    key: u128,
    lsn: u64,
    off: u64,
) -> Option<Map<u128, Seq<(u64, u64)>>> {
    let vs = if m.dom().contains(key) {
        m[key]
    } else {
        Seq::empty()
    };
    if vs.len() == 0 || vs.last().0 < lsn {
        Some(m.insert(key, vs.push((lsn, off))))
    } else if vs.last().0 == lsn {
        Some(m.insert(key, vs.update(vs.len() - 1, (lsn, off))))
    } else {
        None
    }
}

/// Applying a whole batch in order, with `base` the file offset its buffer
/// was appended at.
pub open spec fn spec_apply_batch(
    m: Map<u128, Seq<(u64, u64)>>,
    offs: Seq<BatchOffset>,
    base: int,
) -> Option<Map<u128, Seq<(u64, u64)>>>
    decreases offs.len(),
{
    if offs.len() == 0 {
        Some(m)
    } else {
        match spec_upsert(m, offs[0].key, offs[0].lsn, (base + offs[0].offset) as u64) {
            Some(m2) => spec_apply_batch(m2, offs.drop_first(), base),
            None => None,
        }
    }
}

/// The externally visible state of an in-memory layer.
#[derive(Clone, Copy, PartialEq, Eq, Structural, Debug)]
pub enum InMemoryLayerInfo {
    /// Writes are still accepted from `lsn_start` on.
    Open { lsn_start: u64 },
    /// Sealed: the layer covers exactly `[lsn_start, lsn_end)`.
    Frozen { lsn_start: u64, lsn_end: u64 },
}

/// An in-memory layer: spill file plus per-key version index.
pub struct InMemoryLayer {
    start_lsn: u64,
    end_lsn: Option<u64>,
    file: EphemeralFile,
    index: Vec<IndexEntry>,
    resource_units: GlobalResourceUnits,
}

impl InMemoryLayer {
    /// This layer contains changes from `start_lsn`, inclusive.
    pub closed spec fn spec_start_lsn(self) -> u64 {
        self.start_lsn
    }

    /// Exclusive end LSN; set exactly once, on freeze.
    pub closed spec fn spec_end_lsn(self) -> Option<u64> {
        self.end_lsn
    }

    /// Bytes of the underlying spill file.
    pub closed spec fn spec_file(self) -> Seq<u8> {
        self.file@
    }

    /// The index slots, ascending by key.
    pub closed spec fn spec_index(self) -> Seq<IndexEntry> {
        self.index@
    }

    /// This layer's last published size.
    pub closed spec fn contribution(self) -> u64 {
        self.resource_units.contribution()
    }

    /// Writes are allowed only while no end LSN is set.
    pub open spec fn is_open(self) -> bool {
        self.spec_end_lsn() is None
    }

    /// The index as a map from key to its `(lsn, offset)` versions.
    pub open spec fn as_map(self) -> Map<u128, Seq<(u64, u64)>> {
        index_to_map(self.spec_index())
    }

    /// Layer invariant: a well-formed index over the file within the
    /// layer's LSN bounds, and a coherent bound pair.
    pub open spec fn wf(self) -> bool {
        &&& index_wf(self.spec_index(), self.spec_file(), self.spec_start_lsn(), self.spec_end_lsn())
        &&& match self.spec_end_lsn() {
            Some(e) => self.spec_start_lsn() < e,
            None => true,
        }
    }

    /// Create a new, empty layer in the Open state. The guard keeps the
    /// tenant's teardown from completing while the layer's file exists; the
    /// layer registers itself with the global dirty-byte accounting.
    pub fn create(start_lsn: u64, guard: GateGuard, res: &mut GlobalResources) -> (l: InMemoryLayer)
        requires
            old(res).spec_dirty_layers() < usize::MAX,
        ensures
            l.wf(),
            l.is_open(),
            l.spec_start_lsn() == start_lsn,
            l.spec_file().len() == 0,
            l.as_map() == Map::<u128, Seq<(u64, u64)>>::empty(),
            l.contribution() == 0,
            final(res).spec_dirty_layers() == old(res).spec_dirty_layers() + 1,
            final(res).spec_dirty_bytes() == old(res).spec_dirty_bytes(),
            final(res).spec_max_dirty_bytes() == old(res).spec_max_dirty_bytes(),
    {
        let file = EphemeralFile::create(guard);
        let resource_units = GlobalResourceUnits::new(res);
        InMemoryLayer { start_lsn, end_lsn: None, file, index: Vec::new(), resource_units }
    }

    /// Size of the layer: bytes written to its spill file.
    pub fn size(&self) -> (r: u64)
        ensures
            r == self.spec_file().len(),
    {
        self.file.len()
    }

    /// The layer's entire spill file, zero-padded to a page multiple, for
    /// bulk flush paths.
    pub fn load_to_vec(&self) -> (r: Vec<u8>)
        ensures
            r@.len() == EphemeralFile::spec_padded_len(self.spec_file().len() as int),
            r@.subrange(0, self.spec_file().len() as int) == self.spec_file(),
    {
        self.file.load_to_vec()
    }

    /// Which lifecycle state the layer is in, with its LSN bounds.
    pub fn info(&self) -> (r: InMemoryLayerInfo)
        ensures
            self.is_open() ==> r == (InMemoryLayerInfo::Open {
                lsn_start: self.spec_start_lsn(),
            }),
            !self.is_open() ==> r == (InMemoryLayerInfo::Frozen {
                lsn_start: self.spec_start_lsn(),
                lsn_end: self.spec_end_lsn().unwrap(),
            }),
    {
        let lsn_start = self.start_lsn;
        match self.end_lsn {
            Some(lsn_end) => InMemoryLayerInfo::Frozen { lsn_start, lsn_end },
            None => InMemoryLayerInfo::Open { lsn_start },
        }
    }

    /// The exclusive end LSN of a frozen layer, or the maximum LSN while
    /// the layer is still open.
    pub fn end_lsn_or_max(&self) -> (r: u64)
        ensures
            r == match self.spec_end_lsn() {
                Some(e) => e,
                None => u64::MAX,
            },
    {
        match self.end_lsn {
            Some(e) => e,
            None => u64::MAX,
        }
    }

    /// The LSN range this layer covers.
    pub fn get_lsn_range(&self) -> (r: LsnRange)
        ensures
            r.start == self.spec_start_lsn(),
            r.end == match self.spec_end_lsn() {
                Some(e) => e,
                None => u64::MAX,
            },
    {
        LsnRange { start: self.start_lsn, end: self.end_lsn_or_max() }
    }

    /// Apply one batch atomically: append its buffer to the spill file,
    /// then index every `(key, lsn)` of the batch at its absolute offset.
    /// An entry for an already-indexed `(key, lsn)` is overwritten. Fails
    /// with `Writable`, changing nothing, when the layer is frozen.
    ///
    /// After a successful write the layer may republish its size to the
    /// global dirty-byte accounting; it does so only when the size drifted
    /// by more than [`MAX_SIZE_DRIFT`] since the last publication.
    pub fn put_batch(
        &mut self,
        serialized_batch: SerializedBatch,
        res: &mut GlobalResources,
    ) -> (r: Result<(), EngineError>)
        requires
            old(self).wf(),
            old(self).is_open() ==> serialized_batch.wf(),
            old(self).is_open() ==> spec_apply_batch(
                old(self).as_map(),
                serialized_batch.offsets@,
                old(self).spec_file().len() as int,
            ) is Some,
            old(self).is_open() ==> forall|j: int|
                0 <= j < serialized_batch.offsets@.len() ==> (
                #[trigger] serialized_batch.offsets@[j]).lsn >= old(self).spec_start_lsn(),
            old(self).is_open() ==> forall|j: int|
                0 <= j < serialized_batch.offsets@.len() ==> (
                #[trigger] serialized_batch.offsets@[j]).key < KEY_MAX,
            old(self).is_open() ==> old(self).spec_file().len() + serialized_batch.raw@.len()
                <= u64::MAX,
            old(self).is_open() ==> old(res).spec_dirty_bytes() >= old(self).contribution(),
            old(self).is_open() ==> old(res).spec_dirty_bytes() - old(self).contribution()
                + (old(self).spec_file().len() + serialized_batch.raw@.len()) <= u64::MAX,
            old(self).is_open() ==> old(res).spec_dirty_layers() >= 1,
        ensures
            final(self).wf(),
            final(self).spec_start_lsn() == old(self).spec_start_lsn(),
            final(self).spec_end_lsn() == old(self).spec_end_lsn(),
            !old(self).is_open() ==> {
                &&& r == Err::<(), EngineError>(EngineError::Writable)
                &&& final(self).spec_file() == old(self).spec_file()
                &&& final(self).as_map() == old(self).as_map()
                &&& final(self).contribution() == old(self).contribution()
                &&& *final(res) == *old(res)
            },
            old(self).is_open() ==> {
                &&& r == Ok::<(), EngineError>(())
                &&& final(self).spec_file() == old(self).spec_file() + serialized_batch.raw@
                &&& Some(final(self).as_map()) == spec_apply_batch(
                    old(self).as_map(),
                    serialized_batch.offsets@,
                    old(self).spec_file().len() as int,
                )
                &&& final(res).spec_dirty_layers() == old(res).spec_dirty_layers()
                &&& final(res).spec_max_dirty_bytes() == old(res).spec_max_dirty_bytes()
                &&& {
                    let new_size = old(self).spec_file().len() + serialized_batch.raw@.len();
                    if spec_size_drift(old(self).contribution(), new_size as u64) > MAX_SIZE_DRIFT {
                        final(self).contribution() == new_size && final(res).spec_dirty_bytes()
                            == old(res).spec_dirty_bytes() - old(self).contribution() + new_size
                    } else {
                        final(self).contribution() == old(self).contribution() && final(res).spec_dirty_bytes() == old(res).spec_dirty_bytes()
                    }
                }
            },
    {
        if self.end_lsn.is_some() {
            return Err(EngineError::Writable);
        }
        let ghost file_before = self.file@;
        let ghost map_before = self.as_map();
        let base: u64 = self.file.write_raw(&serialized_batch.raw);
        proof {
            // all previously indexed offsets still decode to the same values
            assert forall|i: int|
                0 <= i < self.index@.len() implies versions_valid(
                (#[trigger] self.index@[i]).versions@,
                self.file@,
            ) by {
                assert forall|a: int|
                    0 <= a < self.index@[i].versions@.len() implies stored_value_at(
                    self.file@,
                    (#[trigger] self.index@[i].versions@[a]).1 as int,
                ) is Some by {
                    crate::ephemeral_file::lemma_blob_at_extend(
                        file_before,
                        serialized_batch.raw@,
                        self.index@[i].versions@[a].1 as int,
                    );
                }
            }
            // and every batch offset decodes inside the appended region
            assert forall|j: int|
                0 <= j < serialized_batch.offsets@.len() implies stored_value_at(
                self.file@,
                base + (#[trigger] serialized_batch.offsets@[j]).offset,
            ) is Some by {
                crate::ephemeral_file::lemma_blob_at_shift(
                    file_before,
                    serialized_batch.raw@,
                    serialized_batch.offsets@[j].offset as int,
                );
            }
        }
        proof {
            assert(serialized_batch.offsets@.skip(0) =~= serialized_batch.offsets@);
        }
        let mut t: usize = 0;
        while t < serialized_batch.offsets.len()
            invariant
                t <= serialized_batch.offsets@.len(),
                self.file@ == file_before + serialized_batch.raw@,
                self.start_lsn == old(self).spec_start_lsn(),
                self.end_lsn is None,
                self.resource_units == old(self).resource_units,
                index_wf(self.index@, self.file@, self.start_lsn, self.end_lsn),
                forall|j: int|
                    0 <= j < serialized_batch.offsets@.len() ==> stored_value_at(
                        self.file@,
                        base + (#[trigger] serialized_batch.offsets@[j]).offset,
                    ) is Some,
                forall|j: int|
                    0 <= j < serialized_batch.offsets@.len() ==> (
                    #[trigger] serialized_batch.offsets@[j]).lsn >= self.start_lsn,
                forall|j: int|
                    0 <= j < serialized_batch.offsets@.len() ==> (
                    #[trigger] serialized_batch.offsets@[j]).key < KEY_MAX,
                base == file_before.len(),
                base + serialized_batch.raw@.len() <= u64::MAX,
                forall|j: int|
                    0 <= j < serialized_batch.offsets@.len() ==> (
                    #[trigger] serialized_batch.offsets@[j]).offset < serialized_batch.raw@.len(),
                spec_apply_batch(self.as_map(), serialized_batch.offsets@.skip(t as int), base as int)
                    == spec_apply_batch(map_before, serialized_batch.offsets@, base as int),
                spec_apply_batch(map_before, serialized_batch.offsets@, base as int) is Some,
            decreases serialized_batch.offsets@.len() - t,
        {
            let bo = serialized_batch.offsets[t];
            let off_abs: u64 = base + bo.offset;
            proof {
                assert(serialized_batch.offsets@.skip(t as int)[0] == bo);
                assert(serialized_batch.offsets@.skip(t as int).drop_first()
                    =~= serialized_batch.offsets@.skip(t + 1));
            }
            upsert_version(
                &mut self.index,
                bo.key,
                bo.lsn,
                off_abs,
                Ghost(self.file@),
                Ghost(self.start_lsn),
            );
            t = t + 1;
        }
        proof {
            assert(serialized_batch.offsets@.skip(serialized_batch.offsets@.len() as int)
                =~= Seq::<BatchOffset>::empty());
        }
        let new_size: u64 = self.file.len();
        self.resource_units.maybe_publish_size(res, new_size);
        Ok(())
    }

    /// Record the exclusive `end_lsn`, sealing the layer against writes.
    /// Requires an open layer, `start_lsn < end_lsn`, and that every
    /// indexed LSN already lies strictly below `end_lsn`.
    pub fn freeze(&mut self, end_lsn: u64)
        requires
            old(self).wf(),
            old(self).is_open(),
            old(self).spec_start_lsn() < end_lsn,
            forall|i: int|
                0 <= i < old(self).spec_index().len() ==> versions_bounded(
                    (#[trigger] old(self).spec_index()[i]).versions@,
                    old(self).spec_start_lsn(),
                    Some(end_lsn),
                ),
        ensures
            final(self).wf(),
            final(self).spec_end_lsn() == Some(end_lsn),
            final(self).spec_start_lsn() == old(self).spec_start_lsn(),
            final(self).spec_file() == old(self).spec_file(),
            final(self).spec_index() == old(self).spec_index(),
            final(self).as_map() == old(self).as_map(),
            final(self).contribution() == old(self).contribution(),
    {
        self.end_lsn = Some(end_lsn);
    }

    /// Publish the layer's current size to the global accounting
    /// unconditionally, returning the advisory ceiling if the global
    /// maximum is exceeded.
    pub fn tick(&mut self, res: &mut GlobalResources) -> (r: Option<u64>)
        requires
            old(res).spec_dirty_bytes() >= old(self).contribution(),
            old(res).spec_dirty_bytes() - old(self).contribution() + old(self).spec_file().len()
                <= u64::MAX,
            old(res).spec_dirty_layers() >= 1,
        ensures
            final(self).spec_start_lsn() == old(self).spec_start_lsn(),
            final(self).spec_end_lsn() == old(self).spec_end_lsn(),
            final(self).spec_file() == old(self).spec_file(),
            final(self).spec_index() == old(self).spec_index(),
            final(self).contribution() == old(self).spec_file().len(),
            final(res).spec_dirty_bytes() == old(res).spec_dirty_bytes() - old(self).contribution()
                + old(self).spec_file().len(),
            final(res).spec_dirty_layers() == old(res).spec_dirty_layers(),
            final(res).spec_max_dirty_bytes() == old(res).spec_max_dirty_bytes(),
            r == spec_ceiling(
                old(res).spec_dirty_bytes() - old(self).contribution()
                    + old(self).spec_file().len(),
                old(res).spec_max_dirty_bytes(),
                old(res).spec_dirty_layers(),
            ),
    {
        let size = self.file.len();
        self.resource_units.publish_size(res, size)
    }

    /// Drop the layer: deregister from the global accounting and hand the
    /// tenant gate guard back.
    pub fn release(self, res: &mut GlobalResources) -> (g: GateGuard)
        requires
            old(res).spec_dirty_bytes() >= self.contribution(),
            old(res).spec_dirty_layers() >= 1,
        ensures
            final(res).spec_dirty_bytes() == old(res).spec_dirty_bytes() - self.contribution(),
            final(res).spec_dirty_layers() == old(res).spec_dirty_layers() - 1,
            final(res).spec_max_dirty_bytes() == old(res).spec_max_dirty_bytes(),
    {
        let InMemoryLayer { file, resource_units, .. } = self;
        resource_units.release(res);
        file.release()
    }
}

/// How far the walk over one key's versions has got.
#[derive(Clone, Copy, PartialEq, Eq, Structural, Debug)]
pub enum ValueReconstructSituation {
    /// An image or a self-initializing record was reached: the page can be
    /// reconstructed from what was collected.
    Complete,
    /// More history below this layer is still needed.
    Continuing,
}

/// What one key's walk collected: the visited values, highest LSN first.
pub struct KeyReconstruct {
    pub key: u128,
    /// Visited `(lsn, value)` pairs in visit order (descending LSN).
    pub values: Vec<(u64, Value)>,
    pub situation: ValueReconstructSituation,
}

/// Mathematical model of a [`KeyReconstruct`].
pub struct KeyReconstructView {
    pub key: u128,
    pub values: Seq<(u64, ValueView)>,
    pub complete: bool,
}

/// View of a sequence of `(lsn, value)` pairs.
pub open spec fn lsn_values_view(s: Seq<(u64, Value)>) -> Seq<(u64, ValueView)> {
    s.map_values(|p: (u64, Value)| (p.0, p.1@))
}

impl View for KeyReconstruct {
    type V = KeyReconstructView;

    open spec fn view(&self) -> KeyReconstructView {
        KeyReconstructView {
            key: self.key,
            values: lsn_values_view(self.values@),
            complete: self.situation is Complete,
        }
    }
}

/// View of a sequence of per-key walk results.
pub open spec fn kr_views(s: Seq<KeyReconstruct>) -> Seq<KeyReconstructView> {
    s.map_values(|k: KeyReconstruct| k@)
}

/// Accumulates per-key walk results across layers, together with per-key
/// LSN floors already satisfied by caches above this layer.
pub struct ValuesReconstructState {
    /// Finished per-key walks, in visit order.
    pub keys: Vec<KeyReconstruct>,
    /// Per-key cached LSNs: the walk for a key need not descend to or
    /// below its cached LSN.
    pub cached: Vec<(u128, u64)>,
}

/// The cached LSN recorded for `key`, if any.
pub open spec fn spec_cached_lsn(cached: Seq<(u128, u64)>, key: u128) -> Option<u64>
    decreases cached.len(),
{
    if cached.len() == 0 {
        None
    } else if cached[0].0 == key {
        Some(cached[0].1)
    } else {
        spec_cached_lsn(cached.drop_first(), key)
    }
}

/// The lowest LSN a walk for `key` must visit: one above the cached LSN
/// when one exists, else the layer's start LSN.
pub open spec fn spec_floor(cached: Seq<(u128, u64)>, key: u128, start_lsn: u64) -> u64 {
    match spec_cached_lsn(cached, key) {
        Some(c) => if c == u64::MAX {
            u64::MAX
        } else {
            (c + 1) as u64
        },
        None => start_lsn,
    }
}

impl ValuesReconstructState {
    /// An empty state with no cached floors.
    pub fn new() -> (r: ValuesReconstructState)
        ensures
            r.keys@.len() == 0,
            r.cached@.len() == 0,
    {
        ValuesReconstructState { keys: Vec::new(), cached: Vec::new() }
    }

    /// Record a cached LSN floor for a key.
    pub fn set_cached_lsn(&mut self, key: u128, lsn: u64)
        ensures
            final(self).cached@ == old(self).cached@.push((key, lsn)),
            final(self).keys@ == old(self).keys@,
    {
        self.cached.push((key, lsn));
    }

    /// The cached LSN recorded for `key`, if any.
    pub fn get_cached_lsn(&self, key: u128) -> (r: Option<u64>)
        ensures
            r == spec_cached_lsn(self.cached@, key),
    {
        proof {
            assert(self.cached@.skip(0) =~= self.cached@);
        }
        let mut i: usize = 0;
        while i < self.cached.len()
            invariant
                i <= self.cached@.len(),
                spec_cached_lsn(self.cached@, key) == spec_cached_lsn(
                    self.cached@.skip(i as int),
                    key,
                ),
            decreases self.cached@.len() - i,
        {
            proof {
                assert(self.cached@.skip(i as int)[0] == self.cached@[i as int]);
                assert(self.cached@.skip(i as int).drop_first() =~= self.cached@.skip(i + 1));
            }
            if self.cached[i].0 == key {
                return Some(self.cached[i].1);
            }
            i = i + 1;
        }
        proof {
            assert(self.cached@.skip(self.cached@.len() as int) =~= Seq::<(u128, u64)>::empty());
        }
        None
    }
}

/// Whether `key` lies in any of the requested ranges.
pub open spec fn spec_in_ranges(ranges: Seq<KeyRange>, key: u128) -> bool {
    exists|r: int| 0 <= r < ranges.len() && (#[trigger] ranges[r]).spec_contains(key)
}

fn in_ranges(ranges: &Vec<KeyRange>, key: u128) -> (r: bool)
    ensures
        r == spec_in_ranges(ranges@, key),
{
    let mut i: usize = 0;
    while i < ranges.len()
        invariant
            i <= ranges@.len(),
            forall|k: int| 0 <= k < i ==> !(#[trigger] ranges@[k]).spec_contains(key),
        decreases ranges@.len() - i,
    {
        if ranges[i].contains_key(key) {
            return true;
        }
        i = i + 1;
    }
    false
}

/// The walk over one key's `(lsn, offset)` list, from the highest LSN
/// below `hi` downwards: each visited entry's value in turn, stopping
/// (inclusive) at the first self-initializing value, or at the floor `lo`.
pub open spec fn spec_visited(vs: Seq<(u64, u64)>, file: Seq<u8>, lo: u64, hi: u64) -> Seq<
    (u64, ValueView),
>
    decreases vs.len(),
{
    if vs.len() == 0 {
        Seq::empty()
    } else {
        let lsn = vs.last().0;
        let off = vs.last().1;
        if lsn >= hi {
            spec_visited(vs.drop_last(), file, lo, hi)
        } else if lsn < lo {
            Seq::empty()
        } else {
            let v = stored_value_at(file, off as int).unwrap();
            if v.will_init() {
                seq![(lsn, v)]
            } else {
                seq![(lsn, v)] + spec_visited(vs.drop_last(), file, lo, hi)
            }
        }
    }
}

/// The per-key results that a walk over the whole index produces, in index
/// (ascending key) order: one entry per indexed key that lies in the
/// requested ranges and has at least one visited value.
pub open spec fn spec_walk_results(
    ix: Seq<IndexEntry>,
    file: Seq<u8>,
    ranges: Seq<KeyRange>,
    cached: Seq<(u128, u64)>,
    start_lsn: u64,
    end_lsn: u64,
) -> Seq<KeyReconstructView>
    decreases ix.len(),
{
    if ix.len() == 0 {
        Seq::empty()
    } else {
        let pre = spec_walk_results(ix.drop_last(), file, ranges, cached, start_lsn, end_lsn);
        let e = ix.last();
        if spec_in_ranges(ranges, e.key) {
            let vis = spec_visited(e.versions@, file, spec_floor(cached, e.key, start_lsn), end_lsn);
            if vis.len() > 0 {
                pre.push(
                    KeyReconstructView {
                        key: e.key,
                        values: vis,
                        complete: vis.last().1.will_init(),
                    },
                )
            } else {
                pre
            }
        } else {
            pre
        }
    }
}

/// Walk one key's versions from the top down, collecting values.
fn walk_key(file: &EphemeralFile, versions: &Vec<(u64, u64)>, lo: u64, hi: u64) -> (r: Vec<
    (u64, Value),
>)
    requires
        versions_valid(versions@, file@),
    ensures
        lsn_values_view(r@) == spec_visited(versions@, file@, lo, hi),
{
    let mut out: Vec<(u64, Value)> = Vec::new();
    let mut j: usize = versions.len();
    let mut done: bool = false;
    proof {
        assert(versions@.take(j as int) =~= versions@);
    }
    while j > 0 && !done
        invariant
            j <= versions@.len(),
            versions_valid(versions@, file@),
            !done ==> lsn_values_view(out@) + spec_visited(versions@.take(j as int), file@, lo, hi)
                == spec_visited(versions@, file@, lo, hi),
            done ==> lsn_values_view(out@) == spec_visited(versions@, file@, lo, hi),
        decreases j + (if done {
            0int
        } else {
            1int
        }),
    {
        let (lsn, off) = versions[j - 1];
        proof {
            assert(versions@.take(j as int).last() == versions@[j - 1]);
            assert(versions@.take(j as int).drop_last() =~= versions@.take(j - 1));
        }
        if lsn >= hi {
            j = j - 1;
        } else if lsn < lo {
            done = true;
            proof {
                assert(lsn_values_view(out@) + Seq::<(u64, ValueView)>::empty() =~= lsn_values_view(
                    out@,
                ));
            }
        } else {
            let blob = match file.read_blob(off) {
                Ok(b) => b,
                Err(_) => {
                    proof {
                        assert(false);
                    }
                    Vec::new()
                }
            };
            let value = match value_des(&blob) {
                Ok(v) => v,
                Err(_) => {
                    proof {
                        assert(false);
                    }
                    Value::Image(Vec::new())
                }
            };
            let init = value.will_init();
            let ghost prev = out@;
            out.push((lsn, value));
            proof {
                assert(lsn_values_view(out@) =~= lsn_values_view(prev).push(
                    (lsn, stored_value_at(file@, off as int).unwrap()),
                ));
            }
            if init {
                done = true;
                proof {
                    assert(lsn_values_view(out@) =~= lsn_values_view(prev) + spec_visited(
                        versions@.take(j as int),
                        file@,
                        lo,
                        hi,
                    ));
                }
            } else {
                j = j - 1;
                proof {
                    assert(lsn_values_view(out@) + spec_visited(versions@.take(j as int), file@, lo, hi)
                        =~= lsn_values_view(prev) + spec_visited(
                        versions@.take(j + 1),
                        file@,
                        lo,
                        hi,
                    ));
                }
            }
        }
    }
    proof {
        if !done {
            assert(versions@.take(0) =~= Seq::<(u64, u64)>::empty());
            assert(lsn_values_view(out@) + Seq::<(u64, ValueView)>::empty() =~= lsn_values_view(
                out@,
            ));
        }
    }
    out
}

impl InMemoryLayer {
    /// Look up every indexed key inside the requested ranges and record,
    /// per key, the values visited walking its versions from the highest
    /// LSN below `end_lsn` downwards — bounded below by the caller's
    /// cached LSN for that key, or the layer's start LSN — stopping once a
    /// self-initializing value makes the page reconstructible.
    pub fn get_values_reconstruct_data(
        &self,
        keyspace: &Vec<KeyRange>,
        end_lsn: u64,
        state: &mut ValuesReconstructState,
    )
        requires
            self.wf(),
        ensures
            final(state).cached@ == old(state).cached@,
            kr_views(final(state).keys@) == kr_views(old(state).keys@) + spec_walk_results(
                self.spec_index(),
                self.spec_file(),
                keyspace@,
                old(state).cached@,
                self.spec_start_lsn(),
                end_lsn,
            ),
    {
        let ghost ix = self.spec_index();
        let ghost old_keys = old(state).keys@;
        proof {
            assert(ix.take(0) =~= Seq::<IndexEntry>::empty());
            assert(kr_views(old_keys) + Seq::<KeyReconstructView>::empty() =~= kr_views(old_keys));
        }
        let mut i: usize = 0;
        while i < self.index.len()
            invariant
                i <= ix.len(),
                ix == self.spec_index(),
                self.wf(),
                state.cached@ == old(state).cached@,
                kr_views(state.keys@) == kr_views(old_keys) + spec_walk_results(
                    ix.take(i as int),
                    self.spec_file(),
                    keyspace@,
                    old(state).cached@,
                    self.spec_start_lsn(),
                    end_lsn,
                ),
            decreases ix.len() - i,
        {
            proof {
                assert(ix.take(i + 1).drop_last() =~= ix.take(i as int));
                assert(ix.take(i + 1).last() == ix[i as int]);
            }
            let key = self.index[i].key;
            if in_ranges(keyspace, key) {
                let lo: u64 = match state.get_cached_lsn(key) {
                    Some(c) => if c == u64::MAX {
                        u64::MAX
                    } else {
                        c + 1
                    },
                    None => self.start_lsn,
                };
                let vals = walk_key(&self.file, &self.index[i].versions, lo, end_lsn);
                if vals.len() > 0 {
                    let complete = {
                        let (_, ref last_val) = vals[vals.len() - 1];
                        last_val.will_init()
                    };
                    let ghost prev_keys = state.keys@;
                    let kr = KeyReconstruct {
                        key,
                        values: vals,
                        situation: if complete {
                            ValueReconstructSituation::Complete
                        } else {
                            ValueReconstructSituation::Continuing
                        },
                    };
                    let ghost krv = kr@;
                    state.keys.push(kr);
                    proof {
                        assert(kr_views(state.keys@) =~= kr_views(prev_keys).push(krv));
                        assert(kr_views(state.keys@) =~= kr_views(old_keys) + spec_walk_results(
                            ix.take(i + 1),
                            self.spec_file(),
                            keyspace@,
                            old(state).cached@,
                            self.spec_start_lsn(),
                            end_lsn,
                        ));
                    }
                }
            }
            i = i + 1;
        }
        proof {
            assert(ix.take(ix.len() as int) =~= ix);
        }
    }
}

/// Whether `key` passes the optional key-range filter.
pub open spec fn key_passes(filter: Option<KeyRange>, key: u128) -> bool {
    match filter {
        Some(r) => r.spec_contains(key),
        None => true,
    }
}

/// One key's versions as delta-layer entries, ascending by LSN.
pub open spec fn versions_to_entries(key: u128, vs: Seq<(u64, u64)>, file: Seq<u8>) -> Seq<
    (u128, u64, ValueView),
> {
    vs.map_values(|p: (u64, u64)| (key, p.0, stored_value_at(file, p.1 as int).unwrap()))
}

/// All entries a flush writes: for each indexed key passing the filter, in
/// ascending key order, its versions in ascending LSN order.
pub open spec fn spec_flush_entries(
    ix: Seq<IndexEntry>,
    file: Seq<u8>,
    filter: Option<KeyRange>,
) -> Seq<(u128, u64, ValueView)>
    decreases ix.len(),
{
    if ix.len() == 0 {
        Seq::empty()
    } else {
        spec_flush_entries(ix.drop_last(), file, filter) + if key_passes(filter, ix.last().key) {
            versions_to_entries(ix.last().key, ix.last().versions@, file)
        } else {
            Seq::empty()
        }
    }
}

/// Strict `(key, lsn)` order over modelled delta entries.
pub open spec fn entries_sorted(s: Seq<(u128, u64, ValueView)>) -> bool {
    forall|i: int, j: int|
        0 <= i < j < s.len() ==> entry_lt(
            ((#[trigger] s[i]).0, s[i].1),
            ((#[trigger] s[j]).0, s[j].1),
        )
}

/// A flush of a well-formed index yields entries strictly sorted by
/// `(key, lsn)`, with every key below the key-space maximum and every LSN
/// within the layer's bounds.
proof fn lemma_flush_wf(
    ix: Seq<IndexEntry>,
    file: Seq<u8>,
    filter: Option<KeyRange>,
    lo: u64,
    hi: u64,
)
    requires
        index_wf(ix, file, lo, Some(hi)),
    ensures
        entries_sorted(spec_flush_entries(ix, file, filter)),
        forall|p: int|
            0 <= p < spec_flush_entries(ix, file, filter).len() ==> {
                let e = #[trigger] spec_flush_entries(ix, file, filter)[p];
                &&& e.0 < KEY_MAX
                &&& lo <= e.1 < hi
                &&& (ix.len() > 0 ==> e.0 <= ix.last().key)
            },
    decreases ix.len(),
{
    if ix.len() > 0 {
        let pre = spec_flush_entries(ix.drop_last(), file, filter);
        let e = ix.last();
        assert(index_wf(ix.drop_last(), file, lo, Some(hi)));
        lemma_flush_wf(ix.drop_last(), file, filter, lo, hi);
        if ix.len() >= 2 {
            assert(ix.drop_last().last() == ix[ix.len() - 2]);
            assert(ix[ix.len() - 2].key < e.key);
        }
        if key_passes(filter, e.key) {
            let seg = versions_to_entries(e.key, e.versions@, file);
            assert(versions_sorted(e.versions@));
            assert(versions_bounded(e.versions@, lo, Some(hi)));
            assert forall|p: int, q: int|
                0 <= p < q < seg.len() implies entry_lt(
                ((#[trigger] seg[p]).0, seg[p].1),
                ((#[trigger] seg[q]).0, seg[q].1),
            ) by {
                assert(seg[p].1 == e.versions@[p].0);
                assert(seg[q].1 == e.versions@[q].0);
            }
        }
    }
}

/// Every `(key, lsn)` of the index that passes the filter appears in the
/// flushed entries with the value stored at its indexed offset.
proof fn lemma_flush_contains(
    ix: Seq<IndexEntry>,
    file: Seq<u8>,
    filter: Option<KeyRange>,
    i: int,
    a: int,
)
    requires
        0 <= i < ix.len(),
        0 <= a < ix[i].versions@.len(),
        key_passes(filter, ix[i].key),
    ensures
        exists|p: int|
            0 <= p < spec_flush_entries(ix, file, filter).len() && spec_flush_entries(
                ix,
                file,
                filter,
            )[p] == (
                ix[i].key,
                ix[i].versions@[a].0,
                stored_value_at(file, ix[i].versions@[a].1 as int).unwrap(),
            ),
    decreases ix.len(),
{
    let flat = spec_flush_entries(ix, file, filter);
    let pre = spec_flush_entries(ix.drop_last(), file, filter);
    if i == ix.len() - 1 {
        let seg = versions_to_entries(ix.last().key, ix.last().versions@, file);
        assert(seg[a] == (
            ix[i].key,
            ix[i].versions@[a].0,
            stored_value_at(file, ix[i].versions@[a].1 as int).unwrap(),
        ));
        assert(flat[pre.len() + a] == seg[a]);
    } else {
        lemma_flush_contains(ix.drop_last(), file, filter, i, a);
        let p = choose|p: int|
            0 <= p < pre.len() && pre[p] == (
                ix[i].key,
                ix[i].versions@[a].0,
                stored_value_at(file, ix[i].versions@[a].1 as int).unwrap(),
            );
        assert(flat[p] == pre[p]);
    }
}

/// A non-empty flush owes its entries to some key that passed the
/// filter.
proof fn lemma_flush_nonempty(ix: Seq<IndexEntry>, file: Seq<u8>, filter: Option<KeyRange>)
    requires
        spec_flush_entries(ix, file, filter).len() > 0,
    ensures
        exists|i: int| 0 <= i < ix.len() && key_passes(filter, (#[trigger] ix[i]).key),
    decreases ix.len(),
{
    if ix.len() > 0 {
        if key_passes(filter, ix.last().key) {
            assert(key_passes(filter, ix[ix.len() - 1].key));
        } else {
            lemma_flush_nonempty(ix.drop_last(), file, filter);
            let i = choose|i: int|
                0 <= i < ix.drop_last().len() && key_passes(filter, (#[trigger] ix.drop_last()[i]).key);
            assert(key_passes(filter, ix[i].key));
        }
    }
}

/// In a strictly sorted entry sequence, lookup at position `p`'s
/// `(key, lsn)` yields exactly the value there.
proof fn lemma_delta_get_at(s: Seq<(u128, u64, ValueView)>, p: int)
    requires
        entries_sorted(s),
        0 <= p < s.len(),
    ensures
        crate::layer_map::delta_entries_get(s, s[p].0, s[p].1) == Some(s[p].2),
    decreases s.len(),
{
    if p > 0 {
        assert(entry_lt((s[0].0, s[0].1), (s[p].0, s[p].1)));
        assert(entries_sorted(s.drop_first())) by {
            assert forall|i: int, j: int|
                0 <= i < j < s.drop_first().len() implies entry_lt(
                ((#[trigger] s.drop_first()[i]).0, s.drop_first()[i].1),
                ((#[trigger] s.drop_first()[j]).0, s.drop_first()[j].1),
            ) by {
                assert(s.drop_first()[i] == s[i + 1]);
                assert(s.drop_first()[j] == s[j + 1]);
            }
        }
        lemma_delta_get_at(s.drop_first(), p - 1);
        assert(s.drop_first()[p - 1] == s[p]);
    }
}

/// Flush preserves history: for each `(key, lsn)` present in a frozen
/// layer's index (and passing the flush's key filter), reading `(key,
/// lsn)` from the flushed entries yields the same value as reading the
/// indexed offset from the in-memory layer's file.
pub proof fn lemma_flush_preserves_history(
    ix: Seq<IndexEntry>,
    file: Seq<u8>,
    filter: Option<KeyRange>,
    lo: u64,
    hi: u64,
    i: int,
    a: int,
)
    requires
        index_wf(ix, file, lo, Some(hi)),
        0 <= i < ix.len(),
        0 <= a < ix[i].versions@.len(),
        key_passes(filter, ix[i].key),
    ensures
        crate::layer_map::delta_entries_get(
            spec_flush_entries(ix, file, filter),
            ix[i].key,
            ix[i].versions@[a].0,
        ) == Some(stored_value_at(file, ix[i].versions@[a].1 as int).unwrap()),
{
    lemma_flush_wf(ix, file, filter, lo, hi);
    lemma_flush_contains(ix, file, filter, i, a);
    let flat = spec_flush_entries(ix, file, filter);
    let p = choose|p: int|
        0 <= p < flat.len() && flat[p] == (
            ix[i].key,
            ix[i].versions@[a].0,
            stored_value_at(file, ix[i].versions@[a].1 as int).unwrap(),
        );
    lemma_delta_get_at(flat, p);
}

impl InMemoryLayer {
    /// Write this frozen layer out as a delta layer: for each indexed key
    /// passing `key_range` (all keys when it is `None`), in ascending key
    /// order, each `(lsn, offset)` in ascending LSN order becomes a
    /// `(key, lsn, value)` entry, the value read back from the spill file.
    /// Returns `None` when no indexed key passes the filter.
    ///
    /// The delta layer covers the full key range — L0 layers are
    /// identified that way — and the layer's exact LSN range.
    pub fn write_to_disk(&self, key_range: Option<KeyRange>, generation: u64) -> (r: Option<
        DeltaLayer,
    >)
        requires
            self.wf(),
            self.spec_end_lsn() is Some,
        ensures
            match r {
                None => forall|i: int|
                    0 <= i < self.spec_index().len() ==> !key_passes(
                        key_range,
                        (#[trigger] self.spec_index()[i]).key,
                    ),
                Some(dl) => {
                    &&& exists|i: int|
                        0 <= i < self.spec_index().len() && key_passes(
                            key_range,
                            (#[trigger] self.spec_index()[i]).key,
                        )
                    &&& dl.wf()
                    &&& dl.key_range == KeyRange { start: KEY_MIN, end: KEY_MAX }
                    &&& dl.lsn_range == LsnRange {
                        start: self.spec_start_lsn(),
                        end: self.spec_end_lsn().unwrap(),
                    }
                    &&& entries_view(dl.entries@) == spec_flush_entries(
                        self.spec_index(),
                        self.spec_file(),
                        key_range,
                    )
                    &&& dl.generation == generation
                },
            },
    {
        let ghost ix = self.spec_index();
        let end = match self.end_lsn {
            Some(e) => e,
            None => 0,
        };
        let mut out: Vec<(u128, u64, Value)> = Vec::new();
        proof {
            assert(ix.take(0) =~= Seq::<IndexEntry>::empty());
            assert(entries_view(out@) =~= spec_flush_entries(
                ix.take(0),
                self.spec_file(),
                key_range,
            ));
        }
        let mut i: usize = 0;
        while i < self.index.len()
            invariant
                i <= ix.len(),
                ix == self.spec_index(),
                self.wf(),
                entries_view(out@) == spec_flush_entries(
                    ix.take(i as int),
                    self.spec_file(),
                    key_range,
                ),
            decreases ix.len() - i,
        {
            proof {
                assert(ix.take(i + 1).drop_last() =~= ix.take(i as int));
                assert(ix.take(i + 1).last() == ix[i as int]);
            }
            let key = self.index[i].key;
            let passes = match &key_range {
                Some(kr) => kr.contains_key(key),
                None => true,
            };
            if passes {
                let versions = &self.index[i].versions;
                let ghost vs = versions@;
                let ghost before = out@;
                let mut a: usize = 0;
                while a < versions.len()
                    invariant
                        a <= vs.len(),
                        vs == versions@,
                        versions_valid(vs, self.spec_file()),
                        self.wf(),
                        entries_view(out@) == entries_view(before) + versions_to_entries(
                            key,
                            vs.take(a as int),
                            self.spec_file(),
                        ),
                    decreases vs.len() - a,
                {
                    let (lsn, off) = versions[a];
                    let blob = match self.file.read_blob(off) {
                        Ok(b) => b,
                        Err(_) => {
                            proof {
                                assert(false);
                            }
                            Vec::new()
                        }
                    };
                    let value = match value_des(&blob) {
                        Ok(v) => v,
                        Err(_) => {
                            proof {
                                assert(false);
                            }
                            Value::Image(Vec::new())
                        }
                    };
                    proof {
                        assert(value@ == stored_value_at(self.spec_file(), off as int).unwrap());
                    }
                    let ghost out_before = out@;
                    out.push((key, lsn, value));
                    proof {
                        let f = self.spec_file();
                        let lhs = entries_view(out@);
                        let rhs = entries_view(before) + versions_to_entries(key, vs.take(a + 1), f);
                        assert(out@ == out_before.push((key, lsn, value)));
                        assert(entries_view(out_before) == entries_view(before)
                            + versions_to_entries(key, vs.take(a as int), f));
                        assert(entries_view(out_before).len() == out_before.len());
                        assert(versions_to_entries(key, vs.take(a as int), f).len() == a);
                        assert(versions_to_entries(key, vs.take(a + 1), f).len() == a + 1);
                        assert(lhs.len() == out_before.len() + 1);
                        assert(lhs.len() == rhs.len());
                        assert forall|p: int| 0 <= p < lhs.len() implies lhs[p] == rhs[p] by {
                            if p < out_before.len() {
                                assert(out@[p] == out_before[p]);
                                assert(lhs[p] == entries_view(out_before)[p]);
                                assert(entries_view(out_before)[p] == (entries_view(before)
                                    + versions_to_entries(key, vs.take(a as int), f))[p]);
                                if p >= entries_view(before).len() {
                                    let q = p - entries_view(before).len();
                                    assert(versions_to_entries(key, vs.take(a as int), f)[q]
                                        == versions_to_entries(key, vs.take(a + 1), f)[q]);
                                }
                            } else {
                                assert(out@[p] == (key, lsn, value));
                                assert(lhs[p] == (key, lsn, value@));
                                assert(rhs[p] == versions_to_entries(key, vs.take(a + 1), f)[a as int]);
                                assert(vs.take(a + 1)[a as int] == vs[a as int]);
                            }
                        }
                        assert(lhs =~= rhs);
                    }
                    a = a + 1;
                }
                proof {
                    assert(vs.take(vs.len() as int) =~= vs);
                }
            }
            proof {
                assert(entries_view(out@) =~= spec_flush_entries(
                    ix.take(i + 1),
                    self.spec_file(),
                    key_range,
                ));
            }
            i = i + 1;
        }
        proof {
            assert(ix.take(ix.len() as int) =~= ix);
        }
        if out.len() == 0 {
            proof {
                assert forall|k: int|
                    0 <= k < ix.len() implies !key_passes(key_range, (#[trigger] ix[k]).key) by {
                    if key_passes(key_range, ix[k].key) {
                        lemma_flush_contains(ix, self.spec_file(), key_range, k, 0);
                    }
                }
            }
            return None;
        }
        proof {
            lemma_flush_nonempty(ix, self.spec_file(), key_range);
        }
        let file_size = self.file.len();
        let dl = DeltaLayer {
            key_range: KeyRange { start: KEY_MIN, end: KEY_MAX },
            lsn_range: LsnRange { start: self.start_lsn, end },
            entries: out,
            generation,
            file_size,
        };
        proof {
            lemma_flush_wf(ix, self.spec_file(), key_range, self.start_lsn, end);
            let flat = spec_flush_entries(ix, self.spec_file(), key_range);
            assert forall|p: int, q: int|
                0 <= p < q < dl.entries@.len() implies crate::layer_map::entry_le(
                ((#[trigger] dl.entries@[p]).0, dl.entries@[p].1),
                ((#[trigger] dl.entries@[q]).0, dl.entries@[q].1),
            ) by {
                assert(flat[p] == entries_view(dl.entries@)[p]);
                assert(flat[q] == entries_view(dl.entries@)[q]);
                assert(entry_lt((flat[p].0, flat[p].1), (flat[q].0, flat[q].1)));
            }
            assert forall|p: int|
                0 <= p < dl.entries@.len() implies dl.key_range.spec_contains(
                (#[trigger] dl.entries@[p]).0,
            ) && dl.lsn_range.spec_contains(dl.entries@[p].1) by {
                assert(flat[p] == entries_view(dl.entries@)[p]);
            }
        }
        Some(dl)
    }
}

/// The index slot at position `i` is exactly what the map view reads
/// for its key. Callers hold layers through `as_map`, while some
/// preconditions — `freeze`'s bound on every indexed LSN — quantify
/// over the slots; this bridges the two.
pub proof fn lemma_index_lookup(layer: InMemoryLayer, i: int)
    requires
        layer.wf(),
        0 <= i < layer.spec_index().len(),
    ensures
        layer.as_map().dom().contains(layer.spec_index()[i].key),
        layer.as_map()[layer.spec_index()[i].key] == layer.spec_index()[i].versions@,
{
    lemma_map_lookup(layer.spec_index(), i);
}

/// Freeze monotonicity: in a well-formed frozen layer, every indexed LSN
/// lies strictly below the recorded end LSN. (That every subsequent
/// `put_batch` fails with `Writable` is
/// [`InMemoryLayer::put_batch`]'s contract on frozen layers.)
pub proof fn lemma_freeze_monotonicity(layer: InMemoryLayer, e: u64, i: int, a: int)
    requires
        layer.wf(),
        layer.spec_end_lsn() == Some(e),
        0 <= i < layer.spec_index().len(),
        0 <= a < layer.spec_index()[i].versions@.len(),
    ensures
        layer.spec_index()[i].versions@[a].0 < e,
{
}

/// Index consistency: a value whose encoding sits at `rel` inside a batch
/// buffer deserializes back to itself from the file the buffer was
/// appended to, at the translated absolute offset — the offset the index
/// records for it.
pub proof fn lemma_index_consistency(file_before: Seq<u8>, raw: Seq<u8>, rel: u64, v: ValueView)
    requires
        blob_at(raw, rel as int) == Some(value_ser_view(v)),
    ensures
        stored_value_at(file_before + raw, file_before.len() + rel as int) == Some(v),
{
    crate::ephemeral_file::lemma_blob_at_shift(file_before, raw, rel as int);
    crate::value::lemma_value_round_trip(v);
}

/// Insert `(lsn, off)` into the slot for `key`, creating the slot if the
/// key is new; an existing entry at exactly `lsn` is overwritten.
#[verifier::rlimit(60)]
fn upsert_version(
    index: &mut Vec<IndexEntry>,
    key: u128,
    lsn: u64,
    off: u64,
    Ghost(file): Ghost<Seq<u8>>,
    Ghost(start_lsn): Ghost<u64>,
)
    requires
        index_wf(old(index)@, file, start_lsn, None),
        spec_upsert(index_to_map(old(index)@), key, lsn, off) is Some,
        stored_value_at(file, off as int) is Some,
        lsn >= start_lsn,
        key < KEY_MAX,
    ensures
        index_wf(final(index)@, file, start_lsn, None),
        Some(index_to_map(final(index)@)) == spec_upsert(index_to_map(old(index)@), key, lsn, off),
{
    let ghost m = index_to_map(old(index)@);
    let mut pos: usize = 0;
    while pos < index.len() && index[pos].key < key
        invariant
            pos <= index@.len(),
            index@ == old(index)@,
            forall|k: int| 0 <= k < pos ==> (#[trigger] index@[k]).key < key,
        decreases index@.len() - pos,
    {
        pos = pos + 1;
    }
    if pos < index.len() && index[pos].key == key {
        proof {
            lemma_map_lookup(index@, pos as int);
        }
        let mut entry = index.remove(pos);
        let vlen = entry.versions.len();
        let last_lsn = entry.versions[vlen - 1].0;
        proof {
            assert(m[key].last() == entry.versions@[vlen - 1]);
        }
        if last_lsn == lsn {
            // an entry for this (key, lsn) already exists: overwrite it
            entry.versions.remove(vlen - 1);
            entry.versions.push((lsn, off));
            proof {
                assert(entry.versions@ =~= old(index)@[pos as int].versions@.update(
                    vlen - 1,
                    (lsn, off),
                ));
            }
        } else {
            proof {
                assert(last_lsn < lsn);
            }
            entry.versions.push((lsn, off));
        }
        let ghost e = entry;
        index.insert(pos, entry);
        proof {
            assert(index@ =~= old(index)@.update(pos as int, e));
            lemma_map_update(old(index)@, pos as int, e);
        }
    } else {
        proof {
            assert forall|i: int| 0 <= i < index@.len() implies (#[trigger] index@[i]).key
                != key by {
                if i >= pos {
                    assert(index@[pos as int].key <= index@[i].key);
                }
            }
            lemma_map_absent(index@, key);
        }
        let mut versions: Vec<(u64, u64)> = Vec::new();
        versions.push((lsn, off));
        let entry = IndexEntry { key, versions };
        let ghost e = entry;
        index.insert(pos, entry);
        proof {
            assert(index@ =~= old(index)@.insert(pos as int, e));
            lemma_map_insert(old(index)@, pos as int, e);
            assert(e.versions@ =~= Seq::<(u64, u64)>::empty().push((lsn, off)));
            assert forall|i: int, j: int|
                0 <= i < j < index@.len() implies (#[trigger] index@[i]).key < (
            #[trigger] index@[j]).key by {
                if j == pos {
                    assert(index@[i] == old(index)@[i]);
                } else if i == pos && j > pos {
                    assert(index@[j] == old(index)@[j - 1]);
                    assert(old(index)@[j - 1].key != key);
                    assert(old(index)@[j - 1].key >= old(index)@[pos as int].key);
                }
            }
        }
    }
}

} // verus!
