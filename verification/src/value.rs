//! Page versions: full images and incremental WAL records.
//!
//! A [`Value`] is either a full page snapshot (`Image`) or an incremental
//! record (`WalRecord`). A value is *self-initializing* (`will_init`) when a
//! page can be reconstructed from it without any earlier base image: every
//! image is, and a record is when it carries its own initialization.
//!
//! Values are stored on disk in a tagged wire format defined here, and page
//! reconstruction replays a base image plus records in ascending LSN order.

use vstd::prelude::*;

verus! {

/// An incremental WAL record.
#[derive(Debug, PartialEq, Eq)]
pub struct WalRecord {
    /// Whether the record initializes the page by itself.
    pub will_init: bool,
    /// The record payload.
    pub data: Vec<u8>,
}

/// Mathematical model of a [`WalRecord`].
pub struct WalRecordView {
    pub will_init: bool,
    pub data: Seq<u8>,
}

impl View for WalRecord {
    type V = WalRecordView;

    open spec fn view(&self) -> WalRecordView {
        WalRecordView { will_init: self.will_init, data: self.data@ }
    }
}

impl Clone for WalRecord {
    fn clone(&self) -> (r: Self)
        ensures
            r@ == self@,
    {
        let data = clone_bytes(&self.data);
        WalRecord { will_init: self.will_init, data }
    }
}

/// One version of a page.
#[derive(Debug, PartialEq, Eq)]
pub enum Value {
    /// A full page snapshot; always self-initializing.
    Image(Vec<u8>),
    /// An incremental record; self-initializing iff the record says so.
    WalRecord(WalRecord),
}

/// Mathematical model of a [`Value`].
pub enum ValueView {
    Image(Seq<u8>),
    Rec(WalRecordView),
}

impl View for Value {
    type V = ValueView;

    open spec fn view(&self) -> ValueView {
        match self {
            Value::Image(b) => ValueView::Image(b@),
            Value::WalRecord(r) => ValueView::Rec(r@),
        }
    }
}

impl ValueView {
    /// Whether a page can be reconstructed from this value alone.
    pub open spec fn will_init(self) -> bool {
        match self {
            ValueView::Image(_) => true,
            ValueView::Rec(r) => r.will_init,
        }
    }

    /// Whether this value is a full page snapshot.
    pub open spec fn is_image(self) -> bool {
        self is Image
    }
}

impl Clone for Value {
    fn clone(&self) -> (r: Self)
        ensures
            r@ == self@,
    {
        match self {
            Value::Image(b) => Value::Image(clone_bytes(b)),
            Value::WalRecord(rec) => Value::WalRecord(rec.clone()),
        }
    }
}

impl Value {
    /// Whether a page can be reconstructed from this value alone.
    pub fn will_init(&self) -> (r: bool)
        ensures
            r == self@.will_init(),
    {
        match self {
            Value::Image(_) => true,
            Value::WalRecord(rec) => rec.will_init,
        }
    }

    /// Whether this value is a full page snapshot.
    pub fn is_image(&self) -> (r: bool)
        ensures
            r == self@.is_image(),
    {
        match self {
            Value::Image(_) => true,
            Value::WalRecord(_) => false,
        }
    }
}

/// Copy a byte vector, preserving its contents.
pub fn clone_bytes(b: &Vec<u8>) -> (r: Vec<u8>)
    ensures
        r@ == b@,
{
    let r = b.clone();
    proof {
        assert(r@ =~= b@);
    }
    r
}

/// Wire format of a value: a one-byte tag, for records a one-byte
/// `will_init` flag, then the payload.
pub open spec fn value_ser_view(v: ValueView) -> Seq<u8> {
    match v {
        ValueView::Image(b) => seq![0u8] + b,
        ValueView::Rec(r) => seq![1u8, if r.will_init { 1u8 } else { 0u8 }] + r.data,
    }
}

/// Inverse of [`value_ser_view`]; `None` on bytes that are not a valid
/// encoding.
pub open spec fn value_des_view(b: Seq<u8>) -> Option<ValueView> {
    if b.len() >= 1 && b[0] == 0u8 {
        Some(ValueView::Image(b.subrange(1, b.len() as int)))
    } else if b.len() >= 2 && b[0] == 1u8 && (b[1] == 0u8 || b[1] == 1u8) {
        Some(ValueView::Rec(WalRecordView { will_init: b[1] == 1u8, data: b.subrange(2, b.len() as int) }))
    } else {
        None
    }
}

/// Serializing and then deserializing a value yields the value back: the
/// wire format loses nothing.
pub proof fn lemma_value_round_trip(v: ValueView)
    ensures
        value_des_view(value_ser_view(v)) == Some(v),
{
    match v {
        ValueView::Image(b) => {
            assert(value_ser_view(v).subrange(1, value_ser_view(v).len() as int) =~= b);
        }
        ValueView::Rec(r) => {
            assert(value_ser_view(v).subrange(2, value_ser_view(v).len() as int) =~= r.data);
        }
    }
}

/// Serialize a value into its wire format.
pub fn value_ser(v: &Value) -> (r: Vec<u8>)
    ensures
        r@ == value_ser_view(v@),
{
    let mut out: Vec<u8> = Vec::new();
    match v {
        Value::Image(b) => {
            out.push(0u8);
            append_bytes(&mut out, b);
        }
        Value::WalRecord(rec) => {
            out.push(1u8);
            out.push(if rec.will_init { 1u8 } else { 0u8 });
            append_bytes(&mut out, &rec.data);
        }
    }
    proof {
        assert(out@ =~= value_ser_view(v@));
    }
    out
}

/// Deserialize a value from its wire format; fails on corrupt bytes.
pub fn value_des(b: &Vec<u8>) -> (r: Result<Value, crate::errors::EngineError>)
    ensures
        match r {
            Ok(v) => value_des_view(b@) == Some(v@),
            Err(e) => value_des_view(b@) is None && e == crate::errors::EngineError::Deserialize,
        },
{
    if b.len() >= 1 && b[0] == 0u8 {
        let data = copy_tail(b, 1);
        Ok(Value::Image(data))
    } else if b.len() >= 2 && b[0] == 1u8 && (b[1] == 0u8 || b[1] == 1u8) {
        let data = copy_tail(b, 2);
        Ok(Value::WalRecord(WalRecord { will_init: b[1] == 1u8, data }))
    } else {
        Err(crate::errors::EngineError::Deserialize)
    }
}

/// Append the bytes of `src` to `dst`.
pub fn append_bytes(dst: &mut Vec<u8>, src: &Vec<u8>)
    ensures
        final(dst)@ == old(dst)@ + src@,
{
    let mut i: usize = 0;
    while i < src.len()
        invariant
            i <= src.len(),
            dst@ == old(dst)@ + src@.subrange(0, i as int),
        decreases src.len() - i,
    {
        dst.push(src[i]);
        proof {
            assert(dst@ =~= old(dst)@ + src@.subrange(0, i + 1));
        }
        i = i + 1;
    }
    proof {
        assert(dst@ =~= old(dst)@ + src@);
    }
}

/// Copy the bytes of `src` from `from` to the end.
fn copy_tail(src: &Vec<u8>, from: usize) -> (r: Vec<u8>)
    requires
        from <= src@.len(),
    ensures
        r@ == src@.subrange(from as int, src@.len() as int),
{
    let mut out: Vec<u8> = Vec::new();
    let mut i: usize = from;
    while i < src.len()
        invariant
            from <= i <= src.len(),
            out@ == src@.subrange(from as int, i as int),
        decreases src.len() - i,
    {
        out.push(src[i]);
        proof {
            assert(out@ =~= src@.subrange(from as int, i + 1));
        }
        i = i + 1;
    }
    out
}

/// Apply one value to an optional current page image.
///
/// An image replaces the page; a self-initializing record starts it afresh
/// from its payload; any other record extends an existing page and is
/// meaningless without one.
pub open spec fn apply_value(page: Option<Seq<u8>>, v: ValueView) -> Option<Seq<u8>> {
    match v {
        ValueView::Image(b) => Some(b),
        ValueView::Rec(r) => {
            if r.will_init {
                Some(r.data)
            } else {
                match page {
                    Some(p) => Some(p + r.data),
                    None => None,
                }
            }
        }
    }
}

/// Replay a history of values (in ascending LSN order) into a page image;
/// `None` when the history is empty or starts from a non-initializing record.
pub open spec fn replay_values(vs: Seq<ValueView>) -> Option<Seq<u8>>
    decreases vs.len(),
{
    if vs.len() == 0 {
        None
    } else {
        apply_value(replay_values(vs.drop_last()), vs.last())
    }
}

/// Histories that replay to the same page keep doing so under any common
/// continuation: the replayed page is the whole state.
pub proof fn lemma_replay_congruence(a: Seq<ValueView>, b: Seq<ValueView>, c: Seq<ValueView>)
    requires
        replay_values(a) == replay_values(b),
    ensures
        replay_values(a + c) == replay_values(b + c),
    decreases c.len(),
{
    if c.len() == 0 {
        assert(a + c =~= a);
        assert(b + c =~= b);
    } else {
        lemma_replay_congruence(a, b, c.drop_last());
        assert((a + c).drop_last() =~= a + c.drop_last());
        assert((b + c).drop_last() =~= b + c.drop_last());
        assert((a + c).last() == c.last());
        assert((b + c).last() == c.last());
    }
}

/// A history whose first value is self-initializing replays to a page.
pub proof fn lemma_replay_init_some(s: Seq<ValueView>)
    requires
        s.len() > 0,
        s[0].will_init(),
    ensures
        replay_values(s) is Some,
    decreases s.len(),
{
    if s.len() > 1 {
        lemma_replay_init_some(s.drop_last());
    }
}

/// Replay from a self-initializing entry onwards ignores everything
/// before it: truncating a history at such an entry preserves its replay.
pub proof fn lemma_replay_truncate(s: Seq<ValueView>, idx: int)
    requires
        0 <= idx < s.len(),
        s[idx].will_init(),
    ensures
        replay_values(s.skip(idx)) == replay_values(s),
    decreases s.len(),
{
    if idx == s.len() - 1 {
        assert(s.skip(idx) =~= seq![s[idx]]);
        assert(seq![s[idx]].drop_last() =~= Seq::<ValueView>::empty());
    } else {
        lemma_replay_truncate(s.drop_last(), idx);
        assert(s.skip(idx).drop_last() =~= s.drop_last().skip(idx));
        assert(s.skip(idx).last() == s.last());
    }
}

} // verus!
