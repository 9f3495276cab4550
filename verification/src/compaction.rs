//! L0→L1 compaction: merge a contiguous LSN run of L0 deltas into
//! key-partitioned L1 deltas.
//!
//! L0 deltas cover the full key range with disjoint LSN ranges, so point
//! lookups pay one read per L0. Compaction streams the selected run in
//! ascending `(key, lsn)` order — an image ordered before a record at the
//! same `(key, lsn)` — and rewrites it into L1 layers partitioned by key
//! (and by LSN for keys whose history alone exceeds the target size),
//! dropping keys this shard does not own.

use vstd::prelude::*;
use vstd::multiset::Multiset;
use vstd::seq_lib::lemma_multiset_commutative;
use crate::errors::EngineError;
use crate::keys::{KeyRange, LsnRange, KEY_MAX};
use crate::layer_map::{entries_view, entry_view, DeltaLayer};
use crate::shard::ShardIdentity;
use crate::value::{Value, ValueView};

verus! {

/// Default L0 count that triggers compaction.
pub const DEFAULT_COMPACTION_THRESHOLD: usize = 10;

/// Default target layer size in bytes.
pub const DEFAULT_CHECKPOINT_DISTANCE: u64 = 268435456;

/// Bytes a key occupies beside its value in a layer file.
pub const KEY_SIZE: usize = 18;

/// Keys processed between two cancellation checks.
pub const CANCEL_CHECK_INTERVAL: usize = 32768;

/// What one compaction invocation does, decided from its flags.
#[derive(Clone, Copy, PartialEq, Eq, Structural, Debug)]
pub enum CompactAction {
    /// Run the enhanced bottom-most GC-compaction pass.
    GcBottomMost,
    /// Run a regular pass: compact level 0, then rewrite shard ancestors.
    Level0,
    /// A dry run of the regular pass is not supported.
    Unsupported,
}

/// Decide the compaction mode from the invocation flags: the enhanced
/// bottom-most GC pass when requested; otherwise a dry run is not
/// supported, and a plain invocation compacts level 0.
pub fn compact_dispatch(enhanced_gc: bool, dry_run: bool) -> (r: CompactAction)
    ensures
        enhanced_gc ==> r is GcBottomMost,
        !enhanced_gc && dry_run ==> r is Unsupported,
        !enhanced_gc && !dry_run ==> r is Level0,
{
    if enhanced_gc {
        CompactAction::GcBottomMost
    } else if dry_run {
        CompactAction::Unsupported
    } else {
        CompactAction::Level0
    }
}

/// A cooperative cancellation token, checked at natural boundaries of
/// long-running loops.
#[derive(Clone, Copy, PartialEq, Eq, Structural, Debug)]
pub struct CancelToken {
    pub cancelled: bool,
}

impl CancelToken {
    /// A token that never cancels.
    pub fn new() -> (r: CancelToken)
        ensures
            !r.cancelled,
    {
        CancelToken { cancelled: false }
    }

    /// Whether cancellation was requested.
    pub fn is_cancelled(&self) -> (r: bool)
        ensures
            r == self.cancelled,
    {
        self.cancelled
    }
}

/// Estimated serialized size of one value, in bytes.
pub open spec fn spec_size_of_value(v: ValueView) -> int {
    match v {
        ValueView::Image(b) => b.len() as int,
        ValueView::Rec(r) => r.data.len() as int,
    }
}

/// Estimated serialized size of one value, in bytes.
pub fn estimated_size_of_value(val: &Value) -> (r: usize)
    ensures
        r == spec_size_of_value(val@),
{
    match val {
        Value::Image(img) => img.len(),
        Value::WalRecord(rec) => rec.data.len(),
    }
}

/// A count of items together with their total size in bytes.
#[derive(Clone, Copy, PartialEq, Eq, Structural, Debug, Default)]
pub struct CompactionStatisticsNumSize {
    pub num: u64,
    pub size: u64,
}

/// Counters describing one compaction pass: layers and keys visited,
/// layers and keys produced, layers discarded as duplicates.
#[derive(Clone, Copy, PartialEq, Eq, Structural, Debug, Default)]
pub struct CompactionStatistics {
    pub delta_layer_visited: CompactionStatisticsNumSize,
    pub image_layer_visited: CompactionStatisticsNumSize,
    pub delta_layer_produced: CompactionStatisticsNumSize,
    pub image_layer_produced: CompactionStatisticsNumSize,
    pub num_delta_layer_discarded: u64,
    pub num_image_layer_discarded: u64,
    pub num_unique_keys_visited: u64,
    pub wal_keys_visited: CompactionStatisticsNumSize,
    pub image_keys_visited: CompactionStatisticsNumSize,
    pub wal_produced: CompactionStatisticsNumSize,
    pub image_produced: CompactionStatisticsNumSize,
}

impl CompactionStatistics {
    /// Estimated size a key contributes beside its value.
    pub fn estimated_size_of_key() -> (r: usize)
        ensures
            r == KEY_SIZE,
    {
        KEY_SIZE
    }

    /// Record one input delta layer of `size` bytes. Counters saturate
    /// rather than overflow.
    pub fn visit_delta_layer(&mut self, size: u64)
        ensures
            final(self).delta_layer_visited == spec_num_size_add(
                old(self).delta_layer_visited,
                size,
            ),
            unchanged_but_delta_visited(*old(self), *final(self)),
    {
        self.delta_layer_visited = num_size_add(self.delta_layer_visited, size);
    }

    /// Record one input image layer of `size` bytes. Counters saturate
    /// rather than overflow.
    pub fn visit_image_layer(&mut self, size: u64)
        ensures
            final(self).image_layer_visited == spec_num_size_add(
                old(self).image_layer_visited,
                size,
            ),
    {
        self.image_layer_visited = num_size_add(self.image_layer_visited, size);
    }

    /// Record that a new unique key was reached in the merged stream.
    /// The counter saturates rather than overflow.
    pub fn on_unique_key_visited(&mut self)
        ensures
            old(self).num_unique_keys_visited < u64::MAX ==> final(self).num_unique_keys_visited
                == old(self).num_unique_keys_visited + 1,
            old(self).num_unique_keys_visited == u64::MAX ==> final(self).num_unique_keys_visited
                == u64::MAX,
    {
        if self.num_unique_keys_visited < u64::MAX {
            self.num_unique_keys_visited = self.num_unique_keys_visited + 1;
        }
    }

    /// Record one produced delta layer of `size` bytes. Counters saturate
    /// rather than overflow.
    pub fn produce_delta_layer(&mut self, size: u64)
        ensures
            final(self).delta_layer_produced == spec_num_size_add(
                old(self).delta_layer_produced,
                size,
            ),
    {
        self.delta_layer_produced = num_size_add(self.delta_layer_produced, size);
    }

    /// Record one produced image layer of `size` bytes. Counters saturate
    /// rather than overflow.
    pub fn produce_image_layer(&mut self, size: u64)
        ensures
            final(self).image_layer_produced == spec_num_size_add(
                old(self).image_layer_produced,
                size,
            ),
    {
        self.image_layer_produced = num_size_add(self.image_layer_produced, size);
    }

    /// Record one WAL-record key visited in the merged stream. Counters
    /// saturate rather than overflow.
    pub fn visit_wal_key(&mut self, val: &Value)
        ensures
            final(self).wal_keys_visited == spec_num_size_add_sat(
                old(self).wal_keys_visited,
                spec_size_of_value(val@) + KEY_SIZE,
            ),
    {
        let add = key_value_size(val);
        self.wal_keys_visited = num_size_add(self.wal_keys_visited, add);
    }

    /// Record one image key visited in the merged stream. Counters
    /// saturate rather than overflow.
    pub fn visit_image_key(&mut self, val: &Value)
        ensures
            final(self).image_keys_visited == spec_num_size_add_sat(
                old(self).image_keys_visited,
                spec_size_of_value(val@) + KEY_SIZE,
            ),
    {
        let add = key_value_size(val);
        self.image_keys_visited = num_size_add(self.image_keys_visited, add);
    }

    /// Record one produced key, image or record.
    pub fn produce_key(&mut self, val: &Value)
        ensures
            val@ is Image ==> final(self).image_produced == spec_num_size_add_sat(
                old(self).image_produced,
                spec_size_of_value(val@) + KEY_SIZE,
            ) && final(self).wal_produced == old(self).wal_produced,
            val@ is Rec ==> final(self).wal_produced == spec_num_size_add_sat(
                old(self).wal_produced,
                spec_size_of_value(val@) + KEY_SIZE,
            ) && final(self).image_produced == old(self).image_produced,
    {
        match val {
            Value::Image(_) => self.produce_image_key(val),
            Value::WalRecord(_) => self.produce_wal_key(val),
        }
    }

    /// Record one produced WAL-record key. Counters saturate rather than
    /// overflow.
    pub fn produce_wal_key(&mut self, val: &Value)
        ensures
            final(self).wal_produced == spec_num_size_add_sat(
                old(self).wal_produced,
                spec_size_of_value(val@) + KEY_SIZE,
            ),
            final(self).image_produced == old(self).image_produced,
    {
        let add = key_value_size(val);
        self.wal_produced = num_size_add(self.wal_produced, add);
    }

    /// Record one produced image key. Counters saturate rather than
    /// overflow.
    pub fn produce_image_key(&mut self, val: &Value)
        ensures
            final(self).image_produced == spec_num_size_add_sat(
                old(self).image_produced,
                spec_size_of_value(val@) + KEY_SIZE,
            ),
            final(self).wal_produced == old(self).wal_produced,
    {
        let add = key_value_size(val);
        self.image_produced = num_size_add(self.image_produced, add);
    }

    /// Record a delta layer kept in place of a duplicate. The counter
    /// saturates rather than overflow.
    pub fn discard_delta_layer(&mut self)
        ensures
            old(self).num_delta_layer_discarded < u64::MAX ==> final(self).num_delta_layer_discarded == old(self).num_delta_layer_discarded + 1,
            old(self).num_delta_layer_discarded == u64::MAX ==> final(self).num_delta_layer_discarded == u64::MAX,
    {
        if self.num_delta_layer_discarded < u64::MAX {
            self.num_delta_layer_discarded = self.num_delta_layer_discarded + 1;
        }
    }

    /// Record an image layer kept in place of a duplicate. The counter
    /// saturates rather than overflow.
    pub fn discard_image_layer(&mut self)
        ensures
            old(self).num_image_layer_discarded < u64::MAX ==> final(self).num_image_layer_discarded == old(self).num_image_layer_discarded + 1,
            old(self).num_image_layer_discarded == u64::MAX ==> final(self).num_image_layer_discarded == u64::MAX,
    {
        if self.num_image_layer_discarded < u64::MAX {
            self.num_image_layer_discarded = self.num_image_layer_discarded + 1;
        }
    }
}

/// One more item whose byte size may exceed the counter width, both
/// fields saturating at their maximum.
pub open spec fn spec_num_size_add_sat(c: CompactionStatisticsNumSize, add: int) -> CompactionStatisticsNumSize {
    CompactionStatisticsNumSize {
        num: if c.num < u64::MAX {
            (c.num + 1) as u64
        } else {
            u64::MAX
        },
        size: if c.size + add <= u64::MAX {
            (c.size + add) as u64
        } else {
            u64::MAX
        },
    }
}

/// The bytes one key contributes: its value plus the key itself,
/// saturating at the counter width.
fn key_value_size(val: &Value) -> (r: u64)
    ensures
        spec_size_of_value(val@) + KEY_SIZE <= u64::MAX ==> r == spec_size_of_value(val@)
            + KEY_SIZE,
        spec_size_of_value(val@) + KEY_SIZE > u64::MAX ==> r == u64::MAX,
{
    let s = estimated_size_of_value(val);
    let total: u128 = s as u128 + KEY_SIZE as u128;
    if total > 0xffffffffffffffffu128 {
        u64::MAX
    } else {
        total as u64
    }
}

/// One more item of `size` bytes, both fields saturating at their
/// maximum.
pub open spec fn spec_num_size_add(c: CompactionStatisticsNumSize, size: u64) -> CompactionStatisticsNumSize {
    CompactionStatisticsNumSize {
        num: if c.num < u64::MAX {
            (c.num + 1) as u64
        } else {
            u64::MAX
        },
        size: if c.size + size <= u64::MAX {
            (c.size + size) as u64
        } else {
            u64::MAX
        },
    }
}

/// One more item of `size` bytes, both fields saturating at their
/// maximum.
fn num_size_add(c: CompactionStatisticsNumSize, size: u64) -> (r: CompactionStatisticsNumSize)
    ensures
        r == spec_num_size_add(c, size),
{
    CompactionStatisticsNumSize {
        num: if c.num < u64::MAX {
            c.num + 1
        } else {
            u64::MAX
        },
        size: if size <= u64::MAX - c.size {
            c.size + size
        } else {
            u64::MAX
        },
    }
}

/// All statistics fields except `delta_layer_visited` kept as they were.
pub open spec fn unchanged_but_delta_visited(a: CompactionStatistics, b: CompactionStatistics) -> bool {
    &&& b.image_layer_visited == a.image_layer_visited
    &&& b.delta_layer_produced == a.delta_layer_produced
    &&& b.image_layer_produced == a.image_layer_produced
    &&& b.num_delta_layer_discarded == a.num_delta_layer_discarded
    &&& b.num_image_layer_discarded == a.num_image_layer_discarded
    &&& b.num_unique_keys_visited == a.num_unique_keys_visited
    &&& b.wal_keys_visited == a.wal_keys_visited
    &&& b.image_keys_visited == a.image_keys_visited
    &&& b.wal_produced == a.wal_produced
    &&& b.image_produced == a.image_produced
}

/// Merge order over the streamed entries: ascending `(key, lsn)`, an
/// image before a record at the same `(key, lsn)`.
pub open spec fn merged_le(a: (u128, u64, ValueView), b: (u128, u64, ValueView)) -> bool {
    ||| a.0 < b.0
    ||| (a.0 == b.0 && a.1 < b.1)
    ||| (a.0 == b.0 && a.1 == b.1 && (a.2.is_image() || !b.2.is_image()))
}

/// A sequence sorted by the merge order.
pub open spec fn merged_sorted(s: Seq<(u128, u64, ValueView)>) -> bool {
    forall|i: int, j: int| 0 <= i < j < s.len() ==> merged_le(#[trigger] s[i], #[trigger] s[j])
}

/// Sum of the entry multisets of a sequence of delta layers.
pub open spec fn sum_entry_msets(layers: Seq<DeltaLayer>) -> Multiset<(u128, u64, ValueView)>
    decreases layers.len(),
{
    if layers.len() == 0 {
        Multiset::empty()
    } else {
        sum_entry_msets(layers.drop_last()).add(layers.last().view_entries().to_multiset())
    }
}

/// Removing one layer takes exactly its entry multiset out of the sum.
proof fn lemma_sum_msets_remove(layers: Seq<DeltaLayer>, i: int)
    requires
        0 <= i < layers.len(),
    ensures
        sum_entry_msets(layers) =~= sum_entry_msets(layers.remove(i)).add(
            layers[i].view_entries().to_multiset(),
        ),
    decreases layers.len(),
{
    if i == layers.len() - 1 {
        assert(layers.remove(i) =~= layers.drop_last());
    } else {
        lemma_sum_msets_remove(layers.drop_last(), i);
        assert(layers.remove(i).drop_last() =~= layers.drop_last().remove(i));
        assert(layers.remove(i).last() == layers.last());
    }
}

/// Sort L0 layers by the start of their LSN range, moving them. The
/// entries of the result, taken together, are exactly those of the input.
pub fn sort_by_start_lsn(mut l0s: Vec<DeltaLayer>) -> (r: Vec<DeltaLayer>)
    ensures
        r@.len() == l0s@.len(),
        forall|p: int, q: int|
            0 <= p < q < r@.len() ==> (#[trigger] r@[p]).lsn_range.start <= (
            #[trigger] r@[q]).lsn_range.start,
        sum_entry_msets(r@) == sum_entry_msets(l0s@),
        forall|p: int|
            0 <= p < r@.len() ==> exists|q: int|
                0 <= q < l0s@.len() && layer_shape_eq(#[trigger] r@[p], l0s@[q]),
{
    let ghost orig = l0s@;
    let mut out: Vec<DeltaLayer> = Vec::new();
    proof {
        assert(sum_entry_msets(out@).add(sum_entry_msets(l0s@)) =~= sum_entry_msets(orig));
    }
    while l0s.len() > 0
        invariant
            sum_entry_msets(out@).add(sum_entry_msets(l0s@)) =~= sum_entry_msets(orig),
            forall|p: int, q: int|
                0 <= p < q < out@.len() ==> (#[trigger] out@[p]).lsn_range.start <= (
                #[trigger] out@[q]).lsn_range.start,
            forall|p: int, q: int|
                0 <= p < out@.len() && 0 <= q < l0s@.len() ==> (#[trigger] out@[p]).lsn_range.start
                    <= (#[trigger] l0s@[q]).lsn_range.start,
            out@.len() + l0s@.len() == orig.len(),
            forall|p: int|
                0 <= p < out@.len() ==> exists|q: int|
                    0 <= q < orig.len() && layer_shape_eq(#[trigger] out@[p], orig[q]),
            forall|p: int|
                0 <= p < l0s@.len() ==> exists|q: int|
                    0 <= q < orig.len() && layer_shape_eq(#[trigger] l0s@[p], orig[q]),
        decreases l0s@.len(),
    {
        // find the remaining layer with the smallest start LSN
        let mut min_idx: usize = 0;
        let mut k: usize = 1;
        while k < l0s.len()
            invariant
                min_idx < k <= l0s@.len(),
                l0s@.len() > 0,
                forall|p: int|
                    0 <= p < k ==> l0s@[min_idx as int].lsn_range.start <= (
                    #[trigger] l0s@[p]).lsn_range.start,
            decreases l0s@.len() - k,
        {
            if l0s[k].lsn_range.start < l0s[min_idx].lsn_range.start {
                min_idx = k;
            }
            k = k + 1;
        }
        let ghost before = l0s@;
        let picked = l0s.remove(min_idx);
        proof {
            lemma_sum_msets_remove(before, min_idx as int);
            assert(sum_entry_msets(out@.push(picked)) =~= sum_entry_msets(out@).add(
                picked.view_entries().to_multiset(),
            )) by {
                assert(out@.push(picked).drop_last() =~= out@);
            }
            assert(layer_shape_eq(picked, picked));
        }
        out.push(picked);
    }
    proof {
        assert(sum_entry_msets(l0s@) =~= Multiset::empty());
        assert(sum_entry_msets(out@).add(Multiset::<(u128, u64, ValueView)>::empty())
            =~= sum_entry_msets(out@));
    }
    out
}

/// Two layers with the same ranges, entries, generation and size.
pub open spec fn layer_shape_eq(a: DeltaLayer, b: DeltaLayer) -> bool {
    &&& a.key_range == b.key_range
    &&& a.lsn_range == b.lsn_range
    &&& a.view_entries() == b.view_entries()
    &&& a.generation == b.generation
    &&& a.file_size == b.file_size
}

/// The merge order is total and transitive.
proof fn lemma_merged_le_total(a: (u128, u64, ValueView), b: (u128, u64, ValueView), c: (u128, u64, ValueView))
    ensures
        merged_le(a, b) || merged_le(b, a),
        merged_le(a, b) && merged_le(b, c) ==> merged_le(a, c),
{
}

/// Sum of the not-yet-consumed entry tails of the first `k` layers.
pub open spec fn sum_tails(layers: Seq<DeltaLayer>, cursors: Seq<usize>, k: int) -> Multiset<
    (u128, u64, ValueView),
>
    decreases k,
{
    if k <= 0 {
        Multiset::empty()
    } else {
        sum_tails(layers, cursors, k - 1).add(
            layers[k - 1].view_entries().skip(cursors[k - 1] as int).to_multiset(),
        )
    }
}

/// Advancing one cursor removes exactly that entry from the tail sum.
proof fn lemma_sum_tails_advance(layers: Seq<DeltaLayer>, cursors: Seq<usize>, b: int, k: int)
    requires
        0 <= b < k <= layers.len(),
        k <= cursors.len(),
        (cursors[b] as int) < layers[b].view_entries().len(),
        cursors[b] < usize::MAX,
    ensures
        sum_tails(layers, cursors, k) =~= sum_tails(
            layers,
            cursors.update(b, (cursors[b] + 1) as usize),
            k,
        ).insert(layers[b].view_entries()[cursors[b] as int]),
    decreases k,
{
    broadcast use vstd::seq_lib::group_to_multiset_ensures;
    broadcast use vstd::multiset::group_multiset_axioms;

    let c2 = cursors.update(b, (cursors[b] + 1) as usize);
    let e = layers[b].view_entries()[cursors[b] as int];
    if b == k - 1 {
        let ev = layers[b].view_entries();
        let c = cursors[b] as int;
        assert(ev.skip(c) =~= seq![e] + ev.skip(c + 1));
        lemma_multiset_commutative(seq![e], ev.skip(c + 1));
        assert(seq![e] =~= Seq::<(u128, u64, ValueView)>::empty().push(e));
        vstd::seq_lib::to_multiset_build(Seq::<(u128, u64, ValueView)>::empty(), e);
        assert(Seq::<(u128, u64, ValueView)>::empty().to_multiset() =~= Multiset::<
            (u128, u64, ValueView),
        >::empty());
        assert(seq![e].to_multiset() =~= Multiset::<(u128, u64, ValueView)>::empty().insert(e));
        lemma_sum_tails_same(layers, cursors, c2, k - 1);
        let s = sum_tails(layers, c2, k - 1);
        let t = ev.skip(c + 1).to_multiset();
        assert(ev.skip(c).to_multiset() =~= t.insert(e));
        assert(sum_tails(layers, cursors, k) =~= s.add(t.insert(e)));
        assert(c2[k - 1] as int == c + 1);
        assert(sum_tails(layers, c2, k) =~= s.add(t));
        assert(s.add(t.insert(e)) =~= s.add(t).insert(e));
    } else {
        lemma_sum_tails_advance(layers, cursors, b, k - 1);
        assert(c2[k - 1] == cursors[k - 1]);
        let s1 = sum_tails(layers, cursors, k - 1);
        let s2 = sum_tails(layers, c2, k - 1);
        let t = layers[k - 1].view_entries().skip(cursors[k - 1] as int).to_multiset();
        assert(s1 =~= s2.insert(e));
        assert(sum_tails(layers, cursors, k) =~= s1.add(t));
        assert(sum_tails(layers, c2, k) =~= s2.add(t));
        assert(s2.insert(e).add(t) =~= s2.add(t).insert(e));
    }
}

/// Tail sums agree on a prefix where the cursors agree.
proof fn lemma_sum_tails_same(layers: Seq<DeltaLayer>, c1: Seq<usize>, c2: Seq<usize>, k: int)
    requires
        forall|i: int| 0 <= i < k ==> c1[i] == c2[i],
    ensures
        sum_tails(layers, c1, k) =~= sum_tails(layers, c2, k),
    decreases k,
{
    if k > 0 {
        lemma_sum_tails_same(layers, c1, c2, k - 1);
    }
}

/// When every cursor of the first `k` layers is at its end, nothing
/// remains.
proof fn lemma_sum_tails_done(layers: Seq<DeltaLayer>, cursors: Seq<usize>, k: int)
    requires
        0 <= k <= layers.len(),
        k <= cursors.len(),
        forall|i: int|
            0 <= i < k ==> (#[trigger] cursors[i]) as int == layers[i].view_entries().len(),
    ensures
        sum_tails(layers, cursors, k) =~= Multiset::empty(),
    decreases k,
{
    broadcast use vstd::seq_lib::group_to_multiset_ensures;

    if k > 0 {
        lemma_sum_tails_done(layers, cursors, k - 1);
        assert(layers[k - 1].view_entries().skip(cursors[k - 1] as int)
            =~= Seq::<(u128, u64, ValueView)>::empty());
    }
}

/// With all cursors at zero, the tail sum is the whole entry sum.
proof fn lemma_sum_tails_full(layers: Seq<DeltaLayer>, cursors: Seq<usize>, k: int)
    requires
        0 <= k <= layers.len(),
        k <= cursors.len(),
        forall|i: int| 0 <= i < k ==> (#[trigger] cursors[i]) == 0,
    ensures
        sum_tails(layers, cursors, k) =~= sum_entry_msets(layers.take(k)),
    decreases k,
{
    if k > 0 {
        lemma_sum_tails_full(layers, cursors, k - 1);
        assert(layers.take(k).drop_last() =~= layers.take(k - 1));
        assert(layers.take(k).last() == layers[k - 1]);
        assert(layers[k - 1].view_entries().skip(0) =~= layers[k - 1].view_entries());
    }
}

/// Merge order on executable entries.
fn merged_le_exec(a: &(u128, u64, Value), b: &(u128, u64, Value)) -> (r: bool)
    ensures
        r == merged_le(entry_view(*a), entry_view(*b)),
{
    if a.0 < b.0 {
        true
    } else if a.0 == b.0 {
        if a.1 < b.1 {
            true
        } else if a.1 == b.1 {
            a.2.is_image() || !b.2.is_image()
        } else {
            false
        }
    } else {
        false
    }
}

/// Stream-merge the entries of the first `n` delta layers into a single
/// sequence in ascending merge order, an image before a record at the
/// same `(key, lsn)`. The result carries exactly the entries of the
/// merged layers. Honors cancellation once per consumed entry batch.
pub fn merge_delta_entries(l0s: &Vec<DeltaLayer>, n: usize, cancel: &CancelToken) -> (r: Result<
    Vec<(u128, u64, Value)>,
    EngineError,
>)
    requires
        n <= l0s@.len(),
        forall|i: int|
            0 <= i < n ==> crate::inmemory_layer::entries_sorted(
                (#[trigger] l0s@[i]).view_entries(),
            ),
    ensures
        match r {
            Ok(out) => {
                &&& merged_sorted(entries_view(out@))
                &&& entries_view(out@).to_multiset() == sum_entry_msets(l0s@.take(n as int))
            },
            Err(e) => e == EngineError::ShuttingDown && cancel.cancelled,
        },
        cancel.cancelled ==> r is Err,
{
    broadcast use vstd::seq_lib::group_to_multiset_ensures;

    let mut cursors: Vec<usize> = Vec::new();
    let mut i: usize = 0;
    while i < n
        invariant
            i <= n,
            cursors@.len() == i,
            forall|p: int| 0 <= p < i ==> (#[trigger] cursors@[p]) == 0,
        decreases n - i,
    {
        cursors.push(0);
        i = i + 1;
    }
    let mut out: Vec<(u128, u64, Value)> = Vec::new();
    proof {
        lemma_sum_tails_full(l0s@, cursors@, n as int);
        assert(entries_view(out@).to_multiset() =~= Multiset::empty());
    }
    loop
        invariant
            cursors@.len() == n,
            n <= l0s@.len(),
            forall|i2: int|
                0 <= i2 < n ==> (#[trigger] cursors@[i2]) as int <= l0s@[i2].view_entries().len(),
            forall|i2: int|
                0 <= i2 < n ==> crate::inmemory_layer::entries_sorted(
                    (#[trigger] l0s@[i2]).view_entries(),
                ),
            entries_view(out@).to_multiset().add(sum_tails(l0s@, cursors@, n as int))
                =~= sum_entry_msets(l0s@.take(n as int)),
            merged_sorted(entries_view(out@)),
            forall|i2: int, p: int|
                0 <= i2 < n && cursors@[i2] <= p < l0s@[i2].view_entries().len() && entries_view(
                    out@,
                ).len() > 0 ==> merged_le(
                    entries_view(out@).last(),
                    #[trigger] l0s@[i2].view_entries()[p],
                ),
        decreases sum_tails(l0s@, cursors@, n as int).len(),
    {
        if cancel.is_cancelled() {
            return Err(EngineError::ShuttingDown);
        }
        // find the layer whose head entry comes first in merge order
        let mut best: usize = n;
        let mut k: usize = 0;
        while k < n
            invariant
                k <= n,
                cursors@.len() == n,
                n <= l0s@.len(),
                forall|i2: int|
                    0 <= i2 < n ==> (#[trigger] cursors@[i2]) as int
                        <= l0s@[i2].view_entries().len(),
                best <= n,
                best < n ==> (cursors@[best as int] as int) < l0s@[best as int
                ].view_entries().len(),
                best == n ==> forall|i2: int|
                    0 <= i2 < k ==> (#[trigger] cursors@[i2]) as int
                        >= l0s@[i2].view_entries().len(),
                best < n ==> forall|i2: int|
                    0 <= i2 < k && ((#[trigger] cursors@[i2]) as int) < l0s@[i2].view_entries().len()
                        ==> merged_le(
                        l0s@[best as int].view_entries()[cursors@[best as int] as int],
                        l0s@[i2].view_entries()[cursors@[i2] as int],
                    ),
            decreases n - k,
        {
            if cursors[k] < l0s[k].entries.len() {
                if best == n {
                    best = k;
                } else {
                    let bh = &l0s[best].entries[cursors[best]];
                    let kh = &l0s[k].entries[cursors[k]];
                    if !merged_le_exec(bh, kh) {
                        proof {
                            lemma_merged_le_total(entry_view(*bh), entry_view(*kh), entry_view(*kh));
                            assert forall|i2: int|
                                0 <= i2 < k && ((#[trigger] cursors@[i2]) as int) < l0s@[
                                i2].view_entries().len() implies merged_le(
                                entry_view(*kh),
                                l0s@[i2].view_entries()[cursors@[i2] as int],
                            ) by {
                                lemma_merged_le_total(
                                    entry_view(*kh),
                                    entry_view(*bh),
                                    l0s@[i2].view_entries()[cursors@[i2] as int],
                                );
                            }
                        }
                        best = k;
                    }
                }
            }
            k = k + 1;
        }
        if best == n {
            proof {
                assert forall|i2: int| 0 <= i2 < n implies (#[trigger] cursors@[i2]) as int == l0s@[
                    i2].view_entries().len() by {}
                lemma_sum_tails_done(l0s@, cursors@, n as int);
                assert(entries_view(out@).to_multiset().add(
                    Multiset::<(u128, u64, ValueView)>::empty(),
                ) =~= entries_view(out@).to_multiset());
            }
            return Ok(out);
        }
        let c = cursors[best];
        let best_len: usize = l0s[best].entries.len();
        proof {
            assert(c < best_len);
        }
        let head: (u128, u64, Value) = {
            let e = &l0s[best].entries[c];
            (e.0, e.1, e.2.clone())
        };
        let ghost head_v = l0s@[best as int].view_entries()[c as int];
        proof {
            assert(entry_view(head) == head_v);
            lemma_sum_tails_advance(l0s@, cursors@, best as int, n as int);
        }
        let ghost out_before = out@;
        let ghost cursors_before = cursors@;
        out.push(head);
        cursors.set(best, c + 1);
        proof {
            broadcast use vstd::multiset::group_multiset_axioms;

            assert(cursors@ =~= cursors_before.update(best as int, (c + 1) as usize));
            assert(entries_view(out@) =~= entries_view(out_before).push(head_v));
            vstd::seq_lib::to_multiset_build(entries_view(out_before), head_v);
            assert(entries_view(out@).to_multiset() =~= entries_view(out_before).to_multiset()
                .insert(head_v));
            assert(entries_view(out@).to_multiset().add(sum_tails(l0s@, cursors@, n as int))
                =~= sum_entry_msets(l0s@.take(n as int)));
            // the new last entry still precedes everything that remains
            assert forall|i2: int, p: int|
                0 <= i2 < n && cursors@[i2] <= p < l0s@[i2].view_entries().len() implies merged_le(
                entries_view(out@).last(),
                #[trigger] l0s@[i2].view_entries()[p],
            ) by {
                let e = l0s@[i2].view_entries()[p];
                let h2 = l0s@[i2].view_entries()[cursors_before[i2] as int];
                assert(entries_view(out@).last() == head_v);
                if p == cursors_before[i2] {
                    assert(merged_le(head_v, e));
                } else {
                    assert(cursors_before[i2] < p);
                    assert(crate::layer_map::entry_lt((h2.0, h2.1), (e.0, e.1)));
                    assert(merged_le(head_v, h2));
                    assert(merged_le(h2, e));
                    lemma_merged_le_total(head_v, h2, e);
                }
            }
            // and the output stays sorted
            assert forall|p: int, q: int|
                0 <= p < q < entries_view(out@).len() implies merged_le(
                #[trigger] entries_view(out@)[p],
                #[trigger] entries_view(out@)[q],
            ) by {
                if q < entries_view(out@).len() - 1 {
                    assert(entries_view(out@)[p] == entries_view(out_before)[p]);
                    assert(entries_view(out@)[q] == entries_view(out_before)[q]);
                } else {
                    assert(entries_view(out@)[q] == head_v);
                    if p < entries_view(out_before).len() - 1 {
                        assert(entries_view(out@)[p] == entries_view(out_before)[p]);
                        assert(merged_le(
                            entries_view(out_before)[p],
                            entries_view(out_before).last(),
                        ));
                        assert(merged_le(entries_view(out_before).last(), head_v));
                        lemma_merged_le_total(
                            entries_view(out_before)[p],
                            entries_view(out_before).last(),
                            head_v,
                        );
                    } else if p == entries_view(out_before).len() - 1 {
                        assert(entries_view(out@)[p] == entries_view(out_before).last());
                        assert(merged_le(entries_view(out_before).last(), head_v));
                    }
                }
            }
        }
    }
}

/// The run-selection recursion: starting from the oldest L0, extend the
/// run while each next layer's start LSN equals the previous end LSN,
/// accumulating file sizes; once the accumulated size reaches the limit
/// the run ends there and the pass is marked not fully compacted.
pub open spec fn spec_select_rec(l0s: Seq<DeltaLayer>, limit: int, k: int, acc: int) -> (int, bool)
    decreases l0s.len() - k,
{
    if k < 1 || k >= l0s.len() {
        (if k < 1 { 1int } else { k }, true)
    } else if l0s[k].lsn_range.start != l0s[k - 1].lsn_range.end {
        (k, true)
    } else {
        let acc2 = acc + l0s[k].file_size;
        if acc2 >= limit {
            (k + 1, false)
        } else {
            spec_select_rec(l0s, limit, k + 1, acc2)
        }
    }
}

/// The selected prefix length of the sorted L0 stack, and whether every
/// contiguous layer was included (`true`) or the size limit cut the run
/// short (`false`).
pub open spec fn spec_select(l0s: Seq<DeltaLayer>, limit: int) -> (int, bool) {
    spec_select_rec(l0s, limit, 1, 0)
}

/// Whether this shard keeps the entry (its key is not disposable).
pub open spec fn spec_owned(shard: ShardIdentity, e: (u128, u64, ValueView)) -> bool {
    !shard.spec_is_key_disposable(e.0)
}

/// The entries of `s` whose keys this shard owns, in order.
pub open spec fn owned_entries(s: Seq<(u128, u64, ValueView)>, shard: ShardIdentity) -> Seq<
    (u128, u64, ValueView),
>
    decreases s.len(),
{
    if s.len() == 0 {
        Seq::empty()
    } else if spec_owned(shard, s.last()) {
        owned_entries(s.drop_last(), shard).push(s.last())
    } else {
        owned_entries(s.drop_last(), shard)
    }
}

/// One step of the ownership filter.
proof fn lemma_owned_push(s: Seq<(u128, u64, ValueView)>, e: (u128, u64, ValueView), shard: ShardIdentity)
    ensures
        spec_owned(shard, e) ==> owned_entries(s.push(e), shard) == owned_entries(s, shard).push(e),
        !spec_owned(shard, e) ==> owned_entries(s.push(e), shard) == owned_entries(s, shard),
{
    assert(s.push(e).drop_last() =~= s);
    assert(s.push(e).last() == e);
}

/// Concatenated entries of a sequence of delta layers, in order.
pub open spec fn concat_layer_entries(layers: Seq<DeltaLayer>) -> Seq<(u128, u64, ValueView)>
    decreases layers.len(),
{
    if layers.len() == 0 {
        Seq::empty()
    } else {
        concat_layer_entries(layers.drop_last()) + layers.last().view_entries()
    }
}

/// Assemble a delta layer from sorted entries within the given ranges.
fn build_layer(
    entries: Vec<(u128, u64, Value)>,
    key_range: KeyRange,
    lsn_range: LsnRange,
    generation: u64,
    file_size: u64,
) -> (dl: DeltaLayer)
    requires
        forall|p: int, q: int|
            0 <= p < q < entries@.len() ==> merged_le(
                entry_view(#[trigger] entries@[p]),
                entry_view(#[trigger] entries@[q]),
            ),
        forall|p: int|
            0 <= p < entries@.len() ==> key_range.spec_contains((#[trigger] entries@[p]).0)
                && lsn_range.spec_contains(entries@[p].1),
    ensures
        dl.wf(),
        dl.key_range == key_range,
        dl.lsn_range == lsn_range,
        dl.generation == generation,
        dl.file_size == file_size,
        dl.entries@ == entries@,
        dl.view_entries() == entries_view(entries@),
{
    let dl = DeltaLayer { key_range, lsn_range, entries, generation, file_size };
    proof {
        assert forall|p: int, q: int|
            0 <= p < q < dl.entries@.len() implies crate::layer_map::entry_le(
            ((#[trigger] dl.entries@[p]).0, dl.entries@[p].1),
            ((#[trigger] dl.entries@[q]).0, dl.entries@[q].1),
        ) by {
            assert(merged_le(entry_view(dl.entries@[p]), entry_view(dl.entries@[q])));
        }
    }
    dl
}

/// Rewrite the merged L0 stream into key-partitioned L1 delta layers.
///
/// A single pass over the stream: keys not owned by this shard are
/// dropped; the current output layer is closed and a new one started when
/// adding the next key's whole history would push it past
/// `target_file_size`, or when the key crosses a hole boundary. A key
/// whose history alone exceeds the target is emitted into layers of its
/// own, split on LSN into half-open sub-ranges of the run's LSN range.
/// Checks cancellation at every key; on cancellation nothing is returned
/// and no partial work is committed.
///
/// Every owned entry of the stream ends up in exactly one output layer,
/// unchanged and in order: the concatenation of the outputs' entries is
/// the owned subsequence of the stream. Size-based closing leaves its
/// trace on every output: a layer without its trailing key group always
/// estimates within the target, since a group only joins a layer it does
/// not push past it. The LSN sub-ranges of one oversized key chain:
/// adjacent outputs sharing a key range meet at their LSN boundary.
#[verifier::rlimit(100)]
pub fn write_level0_l1_layers(
    merged: &Vec<(u128, u64, Value)>,
    shard: &ShardIdentity,
    target_file_size: u64,
    lsn_range: LsnRange,
    holes: &Vec<Hole>,
    cancel: &CancelToken,
    generation: u64,
) -> (r: Result<Vec<DeltaLayer>, EngineError>)
    requires
        shard.wf(),
        merged_sorted(entries_view(merged@)),
        forall|p: int|
            0 <= p < merged@.len() ==> (#[trigger] merged@[p]).0 < KEY_MAX
                && lsn_range.spec_contains(merged@[p].1),
        lsn_range.start < lsn_range.end,
        forall|j1: int, j2: int|
            0 <= j1 < j2 < holes@.len() ==> (#[trigger] holes@[j1]).key_range.end <= (
            #[trigger] holes@[j2]).key_range.end,
    ensures
        match r {
            Ok(outs) => {
                &&& concat_layer_entries(outs@) == owned_entries(entries_view(merged@), *shard)
                &&& forall|i: int|
                    0 <= i < outs@.len() ==> (#[trigger] outs@[i]).wf() && outs@[i].generation
                        == generation
                &&& forall|i: int|
                    0 <= i < outs@.len() ==> spec_splits_at_holes(
                        (#[trigger] outs@[i]).view_entries(),
                        holes@,
                    )
                &&& forall|i: int|
                    0 <= i < outs@.len() ==> spec_layer_spans_its_keys(#[trigger] outs@[i])
                &&& forall|i: int|
                    0 <= i < outs@.len() ==> spec_entries_size(spec_drop_last_group(
                        (#[trigger] outs@[i]).view_entries(),
                    )) <= target_file_size as int
                &&& forall|i: int|
                    0 < i < outs@.len() && (#[trigger] outs@[i]).key_range == outs@[i
                        - 1].key_range ==> outs@[i].lsn_range.start == outs@[i - 1].lsn_range.end
            },
            Err(e) => e == EngineError::ShuttingDown && cancel.cancelled,
        },
        cancel.cancelled && merged@.len() > 0 ==> r is Err,
{
    let ghost mev = entries_view(merged@);
    let mut outs: Vec<DeltaLayer> = Vec::new();
    let mut cur: Vec<(u128, u64, Value)> = Vec::new();
    let mut next_hole: usize = 0;
    let mut cur_size: u128 = 0;
    let mut t: usize = 0;
    proof {
        assert(mev.take(0) =~= Seq::<(u128, u64, ValueView)>::empty());
        assert(concat_layer_entries(outs@) + entries_view(cur@) =~= owned_entries(
            mev.take(0),
            *shard,
        ));
        assert(entries_view(cur@) =~= Seq::<(u128, u64, ValueView)>::empty());
    }
    while t < merged.len()
        invariant
            t <= merged@.len(),
            mev == entries_view(merged@),
            shard.wf(),
            merged_sorted(mev),
            lsn_range.start < lsn_range.end,
            forall|p: int|
                0 <= p < merged@.len() ==> (#[trigger] merged@[p]).0 < KEY_MAX
                    && lsn_range.spec_contains(merged@[p].1),
            concat_layer_entries(outs@) + entries_view(cur@) == owned_entries(
                mev.take(t as int),
                *shard,
            ),
            forall|i: int|
                0 <= i < outs@.len() ==> (#[trigger] outs@[i]).wf() && outs@[i].generation
                    == generation,
            forall|p: int, q: int|
                0 <= p < q < cur@.len() ==> merged_le(
                    entry_view(#[trigger] cur@[p]),
                    entry_view(#[trigger] cur@[q]),
                ),
            forall|p: int|
                0 <= p < cur@.len() ==> key_ok(entry_view(#[trigger] cur@[p]), lsn_range),
            cur@.len() > 0 ==> exists|t0: int|
                0 <= t0 < t && entry_view(cur@.last()) == mev[t0],
            cur_size <= 0x10000000000000000u128,
            cancel.cancelled ==> t == 0,
            next_hole <= holes@.len(),
            forall|j1: int, j2: int|
                0 <= j1 < j2 < holes@.len() ==> (#[trigger] holes@[j1]).key_range.end <= (
                #[trigger] holes@[j2]).key_range.end,
            forall|p: int, j: int|
                0 <= p < cur@.len() && 0 <= j < next_hole ==> (#[trigger] cur@[p]).0 >= (
                #[trigger] holes@[j]).key_range.end,
            forall|p: int, j: int|
                0 <= p < cur@.len() && next_hole <= j < holes@.len() ==> (#[trigger] cur@[p]).0 < (
                #[trigger] holes@[j]).key_range.end,
            next_hole > 0 ==> exists|t0: int|
                0 <= t0 < t && (#[trigger] mev[t0]).0 >= holes@[next_hole - 1].key_range.end,
            forall|i: int|
                0 <= i < outs@.len() ==> spec_splits_at_holes(
                    (#[trigger] outs@[i]).view_entries(),
                    holes@,
                ),
            forall|i: int|
                0 <= i < outs@.len() ==> spec_layer_spans_its_keys(#[trigger] outs@[i]),
            cur_size as int <= spec_entries_size(entries_view(cur@)),
            cur_size < 0x10000000000000000u128 ==> cur_size as int == spec_entries_size(
                entries_view(cur@),
            ),
            cur_size >= 0x10000000000000000u128 ==> spec_entries_size(entries_view(cur@))
                >= 0x10000000000000000,
            spec_entries_size(spec_drop_last_group(entries_view(cur@))) <= target_file_size as int,
            t < merged@.len() ==> forall|p: int|
                0 <= p < cur@.len() ==> (#[trigger] cur@[p]).0 < merged@[t as int].0,
            forall|i: int|
                0 <= i < outs@.len() ==> spec_entries_size(spec_drop_last_group(
                    (#[trigger] outs@[i]).view_entries(),
                )) <= target_file_size as int,
            forall|i: int|
                0 < i < outs@.len() && (#[trigger] outs@[i]).key_range == outs@[i - 1].key_range
                    ==> outs@[i].lsn_range.start == outs@[i - 1].lsn_range.end,
            t < merged@.len() ==> forall|i: int, p: int|
                0 <= i < outs@.len() && 0 <= p < outs@[i].entries@.len() ==> (
                #[trigger] outs@[i].entries@[p]).0 < merged@[t as int].0,
            outs@.len() > 0 && cur@.len() > 0 ==> outs@[outs@.len() - 1].entries@.len() > 0
                && outs@[outs@.len() - 1].entries@[outs@[outs@.len() - 1].entries@.len() - 1].0
                < cur@[0].0,
        decreases merged@.len() - t,
    {
        if cancel.is_cancelled() {
            return Err(EngineError::ShuttingDown);
        }
        let key: u128 = merged[t].0;
        // find the end of this key's history in the stream
        let mut g: usize = t + 1;
        while g < merged.len() && merged[g].0 == key
            invariant
                t < g <= merged@.len(),
                key == merged@[t as int].0,
                forall|p: int| t <= p < g ==> (#[trigger] merged@[p]).0 == key,
            decreases merged@.len() - g,
        {
            g = g + 1;
        }
        // size this key's history would add
        let mut group_size: u128 = 0;
        let mut j: usize = t;
        proof {
            assert(mev.subrange(t as int, t as int) =~= Seq::<(u128, u64, ValueView)>::empty());
        }
        while j < g
            invariant
                t <= j <= g <= merged@.len(),
                mev == entries_view(merged@),
                group_size <= 0x30000000000000000u128,
                group_size as int <= spec_entries_size(mev.subrange(t as int, j as int)),
                group_size < 0x10000000000000000u128 ==> group_size as int == spec_entries_size(
                    mev.subrange(t as int, j as int),
                ),
                group_size >= 0x10000000000000000u128 ==> spec_entries_size(
                    mev.subrange(t as int, j as int),
                ) >= 0x10000000000000000,
            decreases g - j,
        {
            let s = estimated_size_of_value(&merged[j].2);
            proof {
                assert(mev.subrange(t as int, j + 1).drop_last() =~= mev.subrange(
                    t as int,
                    j as int,
                ));
                assert(mev.subrange(t as int, j + 1).last() == mev[j as int]);
                assert(mev[j as int] == entry_view(merged@[j as int]));
                lemma_entries_size_nonneg(mev.subrange(t as int, j as int));
            }
            if group_size < 0x10000000000000000u128 {
                group_size = group_size + (s as u128) + (KEY_SIZE as u128);
            }
            j = j + 1;
        }
        let owned = !shard.is_key_disposable(key);
        if !owned {
            // key belongs to another shard: drop its whole history
            proof {
                lemma_owned_skip(mev, t as int, g as int, *shard);
                if g < merged@.len() {
                    assert(merged_le(mev[t as int], mev[g as int]));
                    assert(mev[g as int] == entry_view(merged@[g as int]));
                    assert(mev[t as int] == entry_view(merged@[t as int]));
                    assert(merged@[t as int].0 < merged@[g as int].0);
                    assert forall|p: int|
                        0 <= p < cur@.len() implies (#[trigger] cur@[p]).0 < merged@[
                    g as int].0 by {
                        assert(cur@[p].0 < merged@[t as int].0);
                    }
                    assert forall|i: int, p: int|
                        0 <= i < outs@.len() && 0 <= p < outs@[i].entries@.len() implies (
                    #[trigger] outs@[i].entries@[p]).0 < merged@[g as int].0 by {
                        assert(outs@[i].entries@[p].0 < merged@[t as int].0);
                    }
                }
            }
            t = g;
            continue ;
        }
        let crosses = next_hole < holes.len() && key >= holes[next_hole].key_range.end;
        if cur.len() > 0 && (cur_size + group_size > target_file_size as u128 || crosses) {
            // close the current layer before this key
            let buf = cur;
            cur = Vec::new();
            let first_key = buf[0].0;
            let last_key = buf[buf.len() - 1].0;
            proof {
                assert forall|p: int|
                    0 <= p < buf@.len() implies first_key <= (#[trigger] buf@[p]).0 <= last_key by {
                    if p > 0 {
                        assert(merged_le(entry_view(buf@[0]), entry_view(buf@[p])));
                    }
                    if p < buf@.len() - 1 {
                        assert(merged_le(entry_view(buf@[p]), entry_view(buf@.last())));
                    }
                }
            }
            let fs: u64 = if cur_size > 0xffffffffffffffffu128 {
                0xffffffffffffffffu64
            } else {
                cur_size as u64
            };
            let dl = build_layer(
                buf,
                KeyRange { start: first_key, end: last_key + 1 },
                lsn_range,
                generation,
                fs,
            );
            let ghost outs_before = outs@;
            proof {
                assert forall|j: int, p: int, q: int|
                    0 <= j < holes@.len() && 0 <= p < dl.view_entries().len() && 0 <= q
                        < dl.view_entries().len() implies !((#[trigger] dl.view_entries()[p]).0 < (
                #[trigger] holes@[j]).key_range.end && (#[trigger] dl.view_entries()[q]).0
                    >= holes@[j].key_range.end) by {
                    assert(dl.view_entries()[p] == entries_view(buf@)[p]);
                    assert(entries_view(buf@)[p] == entry_view(buf@[p]));
                    assert(dl.view_entries()[q] == entries_view(buf@)[q]);
                    assert(entries_view(buf@)[q] == entry_view(buf@[q]));
                }
            }
            outs.push(dl);
            cur_size = 0;
            proof {
                assert(outs@.drop_last() =~= outs_before);
                assert(entries_view(cur@) =~= Seq::<(u128, u64, ValueView)>::empty());
                assert(concat_layer_entries(outs@) + entries_view(cur@) =~= owned_entries(
                    mev.take(t as int),
                    *shard,
                ));
                assert forall|i: int|
                    0 <= i < outs@.len() implies spec_splits_at_holes(
                    (#[trigger] outs@[i]).view_entries(),
                    holes@,
                ) by {
                    if i < outs_before.len() {
                        assert(outs@[i] == outs_before[i]);
                    }
                }
                assert forall|i: int|
                    0 <= i < outs@.len() implies spec_layer_spans_its_keys(
                    #[trigger] outs@[i],
                ) by {
                    if i < outs_before.len() {
                        assert(outs@[i] == outs_before[i]);
                    } else {
                        assert(outs@[i] == dl);
                        assert(dl.entries@ == buf@);
                    }
                }
                assert forall|i: int|
                    0 <= i < outs@.len() implies spec_entries_size(spec_drop_last_group(
                    (#[trigger] outs@[i]).view_entries(),
                )) <= target_file_size as int by {
                    if i < outs_before.len() {
                        assert(outs@[i] == outs_before[i]);
                    } else {
                        assert(outs@[i] == dl);
                        assert(dl.view_entries() == entries_view(buf@));
                    }
                }
                assert forall|i: int|
                    0 < i < outs@.len() && (#[trigger] outs@[i]).key_range == outs@[i
                    - 1].key_range implies outs@[i].lsn_range.start == outs@[i
                    - 1].lsn_range.end by {
                    if i < outs_before.len() {
                        assert(outs@[i] == outs_before[i] && outs@[i - 1] == outs_before[i - 1]);
                    } else {
                        let prev = outs_before[i - 1];
                        assert(outs@[i] == dl && outs@[i - 1] == prev);
                        assert(spec_layer_spans_its_keys(prev));
                        assert(prev.entries@[prev.entries@.len() - 1].0 < buf@[0].0);
                        assert(prev.key_range.start <= prev.entries@[prev.entries@.len() - 1].0);
                        assert(prev.key_range.start < dl.key_range.start);
                    }
                }
                assert forall|i: int, p: int|
                    0 <= i < outs@.len() && 0 <= p < outs@[i].entries@.len() implies (
                #[trigger] outs@[i].entries@[p]).0 < merged@[t as int].0 by {
                    if i < outs_before.len() {
                        assert(outs@[i] == outs_before[i]);
                    } else {
                        assert(outs@[i] == dl);
                        assert(dl.entries@ == buf@);
                        assert(buf@[p].0 < merged@[t as int].0);
                    }
                }
            }
        }
        let ghost nh0 = next_hole;
        while next_hole < holes.len() && key >= holes[next_hole].key_range.end
            invariant
                nh0 <= next_hole <= holes@.len(),
                next_hole > nh0 ==> key >= holes@[next_hole - 1].key_range.end,
            decreases holes@.len() - next_hole,
        {
            next_hole = next_hole + 1;
        }
        proof {
            // the group's key clears every hole already crossed and none
            // still ahead
            if next_hole == nh0 && next_hole > 0 {
                let t0 = choose|t0: int|
                    0 <= t0 < t && (#[trigger] mev[t0]).0 >= holes@[next_hole - 1].key_range.end;
                assert(merged_le(mev[t0], mev[t as int]));
            }
            assert forall|j: int| 0 <= j < next_hole implies key >= (
            #[trigger] holes@[j]).key_range.end by {
                if next_hole > 0 && j < next_hole - 1 {
                    assert(holes@[j].key_range.end <= holes@[next_hole - 1].key_range.end);
                }
            }
            assert forall|j: int| next_hole <= j < holes@.len() implies key < (
            #[trigger] holes@[j]).key_range.end by {
                if j > next_hole {
                    assert(holes@[next_hole as int].key_range.end <= holes@[j].key_range.end);
                }
            }
        }
        if group_size > target_file_size as u128 {
            // this key's history alone exceeds the target: emit it into
            // layers of its own, split on LSN
            let ghost outs0 = outs@;
            proof {
                assert(outs@.subrange(0, outs@.len() as int) =~= outs@);
                if outs@.len() > 0 {
                    assert(spec_layer_spans_its_keys(outs@[outs@.len() - 1]));
                }
            }
            let mut chunk: Vec<(u128, u64, Value)> = Vec::new();
            let mut chunk_size: u128 = 0;
            let mut chunk_lo: u64 = lsn_range.start;
            let mut j2: usize = t;
            while j2 < g
                invariant
                    t <= j2 <= g <= merged@.len(),
                    mev == entries_view(merged@),
                    shard.wf(),
                    merged_sorted(mev),
                    key == merged@[t as int].0,
                    !shard.spec_is_key_disposable(key),
                    key < KEY_MAX,
                    lsn_range.start < lsn_range.end,
                    forall|p: int| t <= p < g ==> (#[trigger] merged@[p]).0 == key,
                    forall|p: int|
                        0 <= p < merged@.len() ==> (#[trigger] merged@[p]).0 < KEY_MAX
                            && lsn_range.spec_contains(merged@[p].1),
                    concat_layer_entries(outs@) + entries_view(chunk@) == owned_entries(
                        mev.take(j2 as int),
                        *shard,
                    ),
                    forall|i: int|
                        0 <= i < outs@.len() ==> (#[trigger] outs@[i]).wf() && outs@[i].generation
                            == generation,
                    forall|i: int|
                        0 <= i < outs@.len() ==> spec_entries_size(spec_drop_last_group(
                            (#[trigger] outs@[i]).view_entries(),
                        )) <= target_file_size as int,
                    outs0.len() <= outs@.len(),
                    outs@.subrange(0, outs0.len() as int) == outs0,
                    forall|i: int|
                        outs0.len() <= i < outs@.len() ==> (#[trigger] outs@[i]).key_range == (
                        KeyRange { start: key, end: (key + 1) as u128 }),
                    outs@.len() > outs0.len() ==> outs@[outs@.len() - 1].lsn_range.end == chunk_lo,
                    forall|i: int|
                        0 < i < outs@.len() && (#[trigger] outs@[i]).key_range == outs@[i
                            - 1].key_range ==> outs@[i].lsn_range.start == outs@[i
                            - 1].lsn_range.end,
                    forall|i: int, p: int|
                        0 <= i < outs@.len() && 0 <= p < outs@[i].entries@.len() ==> (
                        #[trigger] outs@[i].entries@[p]).0 <= key,
                    outs0.len() > 0 ==> outs0[outs0.len() - 1].entries@.len() > 0 && outs0[
                        outs0.len() - 1].entries@[outs0[outs0.len() - 1].entries@.len() - 1].0
                        < key,
                    forall|p: int, q: int|
                        0 <= p < q < chunk@.len() ==> merged_le(
                            entry_view(#[trigger] chunk@[p]),
                            entry_view(#[trigger] chunk@[q]),
                        ),
                    forall|p: int|
                        0 <= p < chunk@.len() ==> (#[trigger] chunk@[p]).0 == key && chunk_lo <= chunk@[p].1
                            && lsn_range.spec_contains(chunk@[p].1),
                    chunk@.len() > 0 ==> entry_view(chunk@.last()) == mev[j2 - 1] && t < j2,
                    chunk@.len() == 0 ==> chunk_lo == lsn_range.start || (j2 < g && chunk_lo
                        == merged@[j2 as int].1),
                    chunk_lo >= lsn_range.start,
                    chunk_size <= 0x30000000000000000u128,
                    cur@.len() == 0,
                    next_hole <= holes@.len(),
                    forall|j: int|
                        0 <= j < next_hole ==> key >= (#[trigger] holes@[j]).key_range.end,
                    forall|j: int|
                        next_hole <= j < holes@.len() ==> key < (
                        #[trigger] holes@[j]).key_range.end,
                    forall|i: int|
                        0 <= i < outs@.len() ==> spec_splits_at_holes(
                            (#[trigger] outs@[i]).view_entries(),
                            holes@,
                        ),
                    forall|i: int|
                        0 <= i < outs@.len() ==> spec_layer_spans_its_keys(#[trigger] outs@[i]),
                decreases g - j2,
            {
                let (ekey, elsn, ref evalue) = merged[j2];
                proof {
                    if chunk@.len() > 0 {
                        assert(merged_le(mev[j2 - 1], mev[j2 as int]));
                    }
                }
                let can_split = chunk.len() > 0 && elsn > chunk[chunk.len() - 1].1;
                if chunk_size > target_file_size as u128 && can_split {
                    // close this LSN sub-range at the next entry's LSN
                    let buf = chunk;
                    chunk = Vec::new();
                    let dl = build_layer(
                        buf,
                        KeyRange { start: key, end: key + 1 },
                        LsnRange { start: chunk_lo, end: elsn },
                        generation,
                        if chunk_size > 0xffffffffffffffffu128 {
                            0xffffffffffffffffu64
                        } else {
                            chunk_size as u64
                        },
                    );
                    let ghost outs_before = outs@;
                    proof {
                        assert forall|j: int, p: int, q: int|
                            0 <= j < holes@.len() && 0 <= p < dl.view_entries().len() && 0 <= q
                                < dl.view_entries().len() implies !((
                        #[trigger] dl.view_entries()[p]).0 < (
                        #[trigger] holes@[j]).key_range.end && (#[trigger] dl.view_entries()[q]).0
                            >= holes@[j].key_range.end) by {
                            assert(dl.view_entries()[p] == entries_view(buf@)[p]);
                            assert(entries_view(buf@)[p] == entry_view(buf@[p]));
                            assert(dl.view_entries()[q] == entries_view(buf@)[q]);
                            assert(entries_view(buf@)[q] == entry_view(buf@[q]));
                            assert(buf@[p].0 == key && buf@[q].0 == key);
                        }
                    }
                    outs.push(dl);
                    chunk_size = 0;
                    chunk_lo = elsn;
                    proof {
                        assert(outs@.drop_last() =~= outs_before);
                        assert(concat_layer_entries(outs@) + entries_view(chunk@) =~= owned_entries(
                            mev.take(j2 as int),
                            *shard,
                        ));
                        assert forall|i: int|
                            0 <= i < outs@.len() implies spec_splits_at_holes(
                            (#[trigger] outs@[i]).view_entries(),
                            holes@,
                        ) by {
                            if i < outs_before.len() {
                                assert(outs@[i] == outs_before[i]);
                            }
                        }
                        assert forall|i: int|
                            0 <= i < outs@.len() implies spec_layer_spans_its_keys(
                            #[trigger] outs@[i],
                        ) by {
                            if i < outs_before.len() {
                                assert(outs@[i] == outs_before[i]);
                            } else {
                                assert(outs@[i] == dl);
                                assert(dl.entries@ == buf@);
                            }
                        }
                        assert forall|i: int|
                            0 <= i < outs@.len() implies spec_entries_size(spec_drop_last_group(
                            (#[trigger] outs@[i]).view_entries(),
                        )) <= target_file_size as int by {
                            if i < outs_before.len() {
                                assert(outs@[i] == outs_before[i]);
                            } else {
                                assert(outs@[i] == dl);
                                assert(dl.view_entries() == entries_view(buf@));
                                assert forall|p: int|
                                    0 <= p < entries_view(buf@).len() implies (
                                #[trigger] entries_view(buf@)[p]).0 == entries_view(
                                    buf@,
                                )[0].0 by {
                                    assert(entries_view(buf@)[p] == entry_view(buf@[p]));
                                    assert(entries_view(buf@)[0] == entry_view(buf@[0]));
                                }
                                lemma_drop_last_group_single(entries_view(buf@));
                            }
                        }
                        assert(outs@.subrange(0, outs0.len() as int) =~= outs_before.subrange(
                            0,
                            outs0.len() as int,
                        ));
                        assert forall|i: int|
                            outs0.len() <= i < outs@.len() implies (
                        #[trigger] outs@[i]).key_range == (KeyRange {
                            start: key,
                            end: (key + 1) as u128,
                        }) by {
                            if i < outs_before.len() {
                                assert(outs@[i] == outs_before[i]);
                            } else {
                                assert(outs@[i] == dl);
                            }
                        }
                        assert forall|i: int|
                            0 < i < outs@.len() && (#[trigger] outs@[i]).key_range == outs@[i
                            - 1].key_range implies outs@[i].lsn_range.start == outs@[i
                            - 1].lsn_range.end by {
                            if i < outs_before.len() {
                                assert(outs@[i] == outs_before[i] && outs@[i - 1] == outs_before[i
                                    - 1]);
                            } else {
                                assert(outs@[i] == dl);
                                assert(outs@[i - 1] == outs_before[i - 1]);
                                if i - 1 >= outs0.len() {
                                    assert(outs_before[i - 1].lsn_range.end == dl.lsn_range.start);
                                } else {
                                    let prev = outs0[i - 1];
                                    assert(outs_before[i - 1] == prev);
                                    assert(prev.entries@[prev.entries@.len() - 1].0 < key);
                                    assert(spec_layer_spans_its_keys(prev));
                                    assert(prev.key_range.start <= prev.entries@[prev.entries@.len()
                                        - 1].0);
                                    assert(prev.key_range.start < dl.key_range.start);
                                }
                            }
                        }
                        assert forall|i: int, p: int|
                            0 <= i < outs@.len() && 0 <= p < outs@[i].entries@.len() implies (
                        #[trigger] outs@[i].entries@[p]).0 <= key by {
                            if i < outs_before.len() {
                                assert(outs@[i] == outs_before[i]);
                            } else {
                                assert(outs@[i] == dl);
                                assert(dl.entries@ == buf@);
                                assert(buf@[p].0 == key);
                            }
                        }
                    }
                }
                let ghost chunk_before = chunk@;
                chunk.push((ekey, elsn, evalue.clone()));
                let s2 = estimated_size_of_value(evalue);
                if chunk_size < 0x10000000000000000u128 {
                    chunk_size = chunk_size + (s2 as u128) + (KEY_SIZE as u128);
                }
                proof {
                    assert(mev.take(j2 + 1).drop_last() =~= mev.take(j2 as int));
                    assert(mev.take(j2 + 1).last() == mev[j2 as int]);
                    lemma_owned_push(mev.take(j2 as int), mev[j2 as int], *shard);
                    assert(entries_view(chunk@) =~= entries_view(chunk_before).push(
                        entry_view((ekey, elsn, merged@[j2 as int].2)),
                    ));
                    assert(entry_view(chunk@.last()) == mev[j2 as int]);
                    assert(concat_layer_entries(outs@) + entries_view(chunk@) =~= owned_entries(
                        mev.take(j2 + 1),
                        *shard,
                    ));
                    assert forall|p: int, q: int|
                        0 <= p < q < chunk@.len() implies merged_le(
                        entry_view(#[trigger] chunk@[p]),
                        entry_view(#[trigger] chunk@[q]),
                    ) by {
                        if q == chunk@.len() - 1 && p < q {
                            let pv = entry_view(chunk@[p]);
                            assert(pv == entry_view(chunk_before[p]));
                            assert(chunk_before.len() > 0);
                            assert(merged_le(entry_view(chunk_before.last()), mev[j2 as int]));
                            lemma_merged_le_total(
                                pv,
                                entry_view(chunk_before.last()),
                                mev[j2 as int],
                            );
                        }
                    }
                }
                j2 = j2 + 1;
            }
            // final sub-range reaches the end of the run's LSN range
            if chunk.len() > 0 {
                let buf = chunk;
                chunk = Vec::new();
                let dl = build_layer(
                    buf,
                    KeyRange { start: key, end: key + 1 },
                    LsnRange { start: chunk_lo, end: lsn_range.end },
                    generation,
                    if chunk_size > 0xffffffffffffffffu128 {
                        0xffffffffffffffffu64
                    } else {
                        chunk_size as u64
                    },
                );
                let ghost outs_before = outs@;
                proof {
                    assert forall|j: int, p: int, q: int|
                        0 <= j < holes@.len() && 0 <= p < dl.view_entries().len() && 0 <= q
                            < dl.view_entries().len() implies !((
                    #[trigger] dl.view_entries()[p]).0 < (#[trigger] holes@[j]).key_range.end && (
                    #[trigger] dl.view_entries()[q]).0 >= holes@[j].key_range.end) by {
                        assert(dl.view_entries()[p] == entries_view(buf@)[p]);
                        assert(entries_view(buf@)[p] == entry_view(buf@[p]));
                        assert(dl.view_entries()[q] == entries_view(buf@)[q]);
                        assert(entries_view(buf@)[q] == entry_view(buf@[q]));
                        assert(buf@[p].0 == key && buf@[q].0 == key);
                    }
                }
                outs.push(dl);
                proof {
                    assert(outs@.drop_last() =~= outs_before);
                    assert(entries_view(chunk@) =~= Seq::<(u128, u64, ValueView)>::empty());
                    assert(concat_layer_entries(outs@) + entries_view(chunk@) =~= owned_entries(
                        mev.take(g as int),
                        *shard,
                    ));
                    assert forall|i: int|
                        0 <= i < outs@.len() implies spec_splits_at_holes(
                        (#[trigger] outs@[i]).view_entries(),
                        holes@,
                    ) by {
                        if i < outs_before.len() {
                            assert(outs@[i] == outs_before[i]);
                        }
                    }
                    assert forall|i: int|
                        0 <= i < outs@.len() implies spec_layer_spans_its_keys(
                        #[trigger] outs@[i],
                    ) by {
                        if i < outs_before.len() {
                            assert(outs@[i] == outs_before[i]);
                        } else {
                            assert(outs@[i] == dl);
                            assert(dl.entries@ == buf@);
                        }
                    }
                    assert forall|i: int|
                        0 <= i < outs@.len() implies spec_entries_size(spec_drop_last_group(
                        (#[trigger] outs@[i]).view_entries(),
                    )) <= target_file_size as int by {
                        if i < outs_before.len() {
                            assert(outs@[i] == outs_before[i]);
                        } else {
                            assert(outs@[i] == dl);
                            assert(dl.view_entries() == entries_view(buf@));
                            assert forall|p: int|
                                0 <= p < entries_view(buf@).len() implies (
                            #[trigger] entries_view(buf@)[p]).0 == entries_view(buf@)[0].0 by {
                                assert(entries_view(buf@)[p] == entry_view(buf@[p]));
                                assert(entries_view(buf@)[0] == entry_view(buf@[0]));
                            }
                            lemma_drop_last_group_single(entries_view(buf@));
                        }
                    }
                    assert(outs@.subrange(0, outs0.len() as int) =~= outs_before.subrange(
                        0,
                        outs0.len() as int,
                    ));
                    assert forall|i: int|
                        outs0.len() <= i < outs@.len() implies (
                    #[trigger] outs@[i]).key_range == (KeyRange {
                        start: key,
                        end: (key + 1) as u128,
                    }) by {
                        if i < outs_before.len() {
                        assert(outs@[i] == outs_before[i]);
                        } else {
                        assert(outs@[i] == dl);
                        }
                    }
                    assert forall|i: int|
                        0 < i < outs@.len() && (#[trigger] outs@[i]).key_range == outs@[i
                        - 1].key_range implies outs@[i].lsn_range.start == outs@[i
                        - 1].lsn_range.end by {
                        if i < outs_before.len() {
                        assert(outs@[i] == outs_before[i] && outs@[i - 1] == outs_before[i
                            - 1]);
                        } else {
                        assert(outs@[i] == dl);
                        assert(outs@[i - 1] == outs_before[i - 1]);
                        if i - 1 >= outs0.len() {
                            assert(outs_before[i - 1].lsn_range.end == dl.lsn_range.start);
                        } else {
                            let prev = outs0[i - 1];
                            assert(outs_before[i - 1] == prev);
                            assert(prev.entries@[prev.entries@.len() - 1].0 < key);
                            assert(spec_layer_spans_its_keys(prev));
                            assert(prev.key_range.start <= prev.entries@[prev.entries@.len()
                            - 1].0);
                            assert(prev.key_range.start < dl.key_range.start);
                        }
                        }
                    }
                    assert forall|i: int, p: int|
                        0 <= i < outs@.len() && 0 <= p < outs@[i].entries@.len() implies (
                    #[trigger] outs@[i].entries@[p]).0 <= key by {
                        if i < outs_before.len() {
                        assert(outs@[i] == outs_before[i]);
                        } else {
                        assert(outs@[i] == dl);
                        assert(dl.entries@ == buf@);
                        assert(buf@[p].0 == key);
                        }
                    }
                }
            }
            proof {
                assert(cur@.len() == 0);
                assert(entries_view(cur@) =~= Seq::<(u128, u64, ValueView)>::empty());
                if g < merged@.len() {
                    assert(merged_le(mev[t as int], mev[g as int]));
                    assert(mev[g as int] == entry_view(merged@[g as int]));
                    assert(mev[t as int] == entry_view(merged@[t as int]));
                    assert(key < merged@[g as int].0);
                    assert forall|i: int, p: int|
                        0 <= i < outs@.len() && 0 <= p < outs@[i].entries@.len() implies (
                    #[trigger] outs@[i].entries@[p]).0 < merged@[g as int].0 by {
                        assert(outs@[i].entries@[p].0 <= key);
                    }
                }
            }
            cur_size = 0;
            t = g;
            continue ;
        }
        // append this key's whole history to the current layer
        let ghost curg = cur@;
        let mut j3: usize = t;
        proof {
            assert(mev.subrange(t as int, t as int) =~= Seq::<(u128, u64, ValueView)>::empty());
            assert(entries_view(cur@) =~= entries_view(curg) + mev.subrange(t as int, t as int));
        }
        while j3 < g
            invariant
                t <= j3 <= g <= merged@.len(),
                entries_view(cur@) == entries_view(curg) + mev.subrange(t as int, j3 as int),
                mev == entries_view(merged@),
                shard.wf(),
                merged_sorted(mev),
                key == merged@[t as int].0,
                !shard.spec_is_key_disposable(key),
                lsn_range.start < lsn_range.end,
                forall|p: int| t <= p < g ==> (#[trigger] merged@[p]).0 == key,
                forall|p: int|
                    0 <= p < merged@.len() ==> (#[trigger] merged@[p]).0 < KEY_MAX
                        && lsn_range.spec_contains(merged@[p].1),
                concat_layer_entries(outs@) + entries_view(cur@) == owned_entries(
                    mev.take(j3 as int),
                    *shard,
                ),
                forall|i: int|
                    0 <= i < outs@.len() ==> (#[trigger] outs@[i]).wf() && outs@[i].generation
                        == generation,
                forall|p: int, q: int|
                    0 <= p < q < cur@.len() ==> merged_le(
                        entry_view(#[trigger] cur@[p]),
                        entry_view(#[trigger] cur@[q]),
                    ),
                forall|p: int|
                    0 <= p < cur@.len() ==> key_ok(entry_view(#[trigger] cur@[p]), lsn_range),
                cur@.len() > 0 ==> exists|t0: int|
                    0 <= t0 < j3 && entry_view(cur@.last()) == mev[t0],
                next_hole <= holes@.len(),
                forall|j: int|
                    0 <= j < next_hole ==> key >= (#[trigger] holes@[j]).key_range.end,
                forall|j: int|
                    next_hole <= j < holes@.len() ==> key < (#[trigger] holes@[j]).key_range.end,
                forall|p: int, j: int|
                    0 <= p < cur@.len() && 0 <= j < next_hole ==> (#[trigger] cur@[p]).0 >= (
                    #[trigger] holes@[j]).key_range.end,
                forall|p: int, j: int|
                    0 <= p < cur@.len() && next_hole <= j < holes@.len() ==> (
                    #[trigger] cur@[p]).0 < (#[trigger] holes@[j]).key_range.end,
            decreases g - j3,
        {
            let (ekey, elsn, ref evalue) = merged[j3];
            let ghost cur_before = cur@;
            cur.push((ekey, elsn, evalue.clone()));
            proof {
                assert(mev.take(j3 + 1).drop_last() =~= mev.take(j3 as int));
                assert(mev.take(j3 + 1).last() == mev[j3 as int]);
                lemma_owned_push(mev.take(j3 as int), mev[j3 as int], *shard);
                assert(mev.subrange(t as int, j3 + 1) =~= mev.subrange(t as int, j3 as int).push(
                    mev[j3 as int],
                ));
                assert(entries_view(cur@) =~= entries_view(cur_before).push(
                    entry_view((ekey, elsn, merged@[j3 as int].2)),
                ));
                assert(entry_view(cur@.last()) == mev[j3 as int]);
                assert(entries_view(cur@) =~= entries_view(curg) + mev.subrange(t as int, j3 + 1));
                assert(concat_layer_entries(outs@) + entries_view(cur@) =~= owned_entries(
                    mev.take(j3 + 1),
                    *shard,
                ));
                assert forall|p: int, q: int|
                    0 <= p < q < cur@.len() implies merged_le(
                    entry_view(#[trigger] cur@[p]),
                    entry_view(#[trigger] cur@[q]),
                ) by {
                    if q == cur@.len() - 1 && p < q {
                        let pv = entry_view(cur@[p]);
                        assert(pv == entry_view(cur_before[p]));
                        if cur_before.len() > 0 {
                            let t0 = choose|t0: int|
                                0 <= t0 < j3 && entry_view(cur_before.last()) == mev[t0];
                            assert(merged_le(mev[t0], mev[j3 as int]));
                            lemma_merged_le_total(
                                pv,
                                entry_view(cur_before.last()),
                                mev[j3 as int],
                            );
                        }
                    }
                }
            }
            j3 = j3 + 1;
        }
        proof {
            let curv = entries_view(curg);
            let grp = mev.subrange(t as int, g as int);
            lemma_entries_size_concat(curv, grp);
            lemma_entries_size_nonneg(curv);
            lemma_entries_size_nonneg(grp);
            // the appended run carries this key alone and follows the head
            assert forall|p: int| 0 <= p < grp.len() implies (#[trigger] grp[p]).0 == grp[0].0 by {
                assert(grp[p] == mev[t + p]);
                assert(mev[t + p] == entry_view(merged@[t + p]));
                assert(grp[0] == mev[t as int]);
                assert(mev[t as int] == entry_view(merged@[t as int]));
            }
            assert(grp[0] == mev[t as int]);
            assert(mev[t as int] == entry_view(merged@[t as int]));
            assert(grp.len() > 0 && grp[0].0 == key);
            assert forall|p: int| 0 <= p < curv.len() implies (#[trigger] curv[p]).0 < key by {
                assert(curv[p] == entry_view(curg[p]));
            }
            lemma_drop_last_group_append(curv, grp);
            assert(spec_drop_last_group(entries_view(cur@)) == curv);
            // the head fit the target when this group was allowed to join
            if curv.len() > 0 {
                assert(cur_size as int == spec_entries_size(curv));
                assert(spec_entries_size(curv) <= target_file_size as int);
            }
            assert(spec_entries_size(spec_drop_last_group(entries_view(cur@)))
                <= target_file_size as int);
            if g < merged@.len() {
                assert(merged_le(mev[t as int], mev[g as int]));
                assert(mev[g as int] == entry_view(merged@[g as int]));
                assert(key < merged@[g as int].0);
                assert forall|p: int|
                    0 <= p < cur@.len() implies (#[trigger] cur@[p]).0 < merged@[
                g as int].0 by {
                    assert(entries_view(cur@)[p] == entry_view(cur@[p]));
                    if p < curv.len() {
                        assert(entries_view(cur@)[p] == curv[p]);
                    } else {
                        assert(entries_view(cur@)[p] == grp[p - curv.len()]);
                    }
                }
                assert forall|i: int, p: int|
                    0 <= i < outs@.len() && 0 <= p < outs@[i].entries@.len() implies (
                #[trigger] outs@[i].entries@[p]).0 < merged@[g as int].0 by {
                    assert(outs@[i].entries@[p].0 < merged@[t as int].0);
                }
            }
            // the last closed layer still precedes the head's first key
            if outs@.len() > 0 {
                let lastl = outs@[outs@.len() - 1];
                assert(spec_layer_spans_its_keys(lastl));
                assert(entries_view(cur@)[0] == entry_view(cur@[0]));
                if curv.len() > 0 {
                    assert(entries_view(cur@)[0] == curv[0]);
                    assert(curv[0] == entry_view(curg[0]));
                    assert(cur@[0].0 == curg[0].0);
                } else {
                    assert(entries_view(cur@)[0] == grp[0]);
                    assert(cur@[0].0 == key);
                    assert(lastl.entries@[lastl.entries@.len() - 1].0 < merged@[t as int].0);
                }
            }
        }
        cur_size = if cur_size + group_size > 0x10000000000000000u128 {
            0x10000000000000000u128
        } else {
            cur_size + group_size
        };
        t = g;
    }
    proof {
        assert(mev.take(merged@.len() as int) =~= mev);
    }
    if cur.len() > 0 {
        let buf = cur;
        let first_key = buf[0].0;
        let last_key = buf[buf.len() - 1].0;
        proof {
            assert forall|p: int|
                0 <= p < buf@.len() implies first_key <= (#[trigger] buf@[p]).0 <= last_key by {
                if p > 0 {
                    assert(merged_le(entry_view(buf@[0]), entry_view(buf@[p])));
                }
                if p < buf@.len() - 1 {
                    assert(merged_le(entry_view(buf@[p]), entry_view(buf@.last())));
                }
            }
        }
        let fs: u64 = if cur_size > 0xffffffffffffffffu128 {
            0xffffffffffffffffu64
        } else {
            cur_size as u64
        };
        let dl = build_layer(
            buf,
            KeyRange { start: first_key, end: last_key + 1 },
            lsn_range,
            generation,
            fs,
        );
        let ghost outs_before = outs@;
        proof {
            assert forall|j: int, p: int, q: int|
                0 <= j < holes@.len() && 0 <= p < dl.view_entries().len() && 0 <= q
                    < dl.view_entries().len() implies !((#[trigger] dl.view_entries()[p]).0 < (
            #[trigger] holes@[j]).key_range.end && (#[trigger] dl.view_entries()[q]).0 >= holes@[
            j].key_range.end) by {
                assert(dl.view_entries()[p] == entries_view(buf@)[p]);
                assert(entries_view(buf@)[p] == entry_view(buf@[p]));
                assert(dl.view_entries()[q] == entries_view(buf@)[q]);
                assert(entries_view(buf@)[q] == entry_view(buf@[q]));
            }
        }
        outs.push(dl);
        proof {
            assert(outs@.drop_last() =~= outs_before);
            assert(concat_layer_entries(outs@) =~= owned_entries(mev, *shard));
            assert forall|i: int|
                0 <= i < outs@.len() implies spec_splits_at_holes(
                (#[trigger] outs@[i]).view_entries(),
                holes@,
            ) by {
                if i < outs_before.len() {
                    assert(outs@[i] == outs_before[i]);
                }
            }
            assert forall|i: int|
                0 <= i < outs@.len() implies spec_layer_spans_its_keys(#[trigger] outs@[i]) by {
                if i < outs_before.len() {
                    assert(outs@[i] == outs_before[i]);
                } else {
                    assert(outs@[i] == dl);
                    assert(dl.entries@ == buf@);
                }
            }
            assert forall|i: int|
                0 <= i < outs@.len() implies spec_entries_size(spec_drop_last_group(
                (#[trigger] outs@[i]).view_entries(),
            )) <= target_file_size as int by {
                if i < outs_before.len() {
                    assert(outs@[i] == outs_before[i]);
                } else {
                    assert(outs@[i] == dl);
                    assert(dl.view_entries() == entries_view(buf@));
                }
            }
            assert forall|i: int|
                0 < i < outs@.len() && (#[trigger] outs@[i]).key_range == outs@[i
                - 1].key_range implies outs@[i].lsn_range.start == outs@[i - 1].lsn_range.end by {
                if i < outs_before.len() {
                    assert(outs@[i] == outs_before[i] && outs@[i - 1] == outs_before[i - 1]);
                } else {
                    let prev = outs_before[i - 1];
                    assert(outs@[i] == dl && outs@[i - 1] == prev);
                    assert(spec_layer_spans_its_keys(prev));
                    assert(prev.entries@[prev.entries@.len() - 1].0 < buf@[0].0);
                    assert(prev.key_range.start <= prev.entries@[prev.entries@.len() - 1].0);
                    assert(prev.key_range.start < dl.key_range.start);
                }
            }
        }
        return Ok(outs);
    }
    proof {
        assert(concat_layer_entries(outs@) + entries_view(cur@) =~= concat_layer_entries(outs@));
    }
    Ok(outs)
}

/// An entry counted in the layer sum lies in one of the layers.
pub(crate) proof fn lemma_sum_msets_member(layers: Seq<DeltaLayer>, e: (u128, u64, ValueView))
    requires
        sum_entry_msets(layers).count(e) > 0,
    ensures
        exists|i: int| 0 <= i < layers.len() && (#[trigger] layers[i]).view_entries().contains(e),
    decreases layers.len(),
{
    broadcast use vstd::seq_lib::group_to_multiset_ensures;
    broadcast use vstd::multiset::group_multiset_axioms;

    if layers.len() > 0 {
        if layers.last().view_entries().to_multiset().count(e) > 0 {
            assert(layers.last().view_entries().contains(e));
            assert(layers[layers.len() - 1].view_entries().contains(e));
        } else {
            lemma_sum_msets_member(layers.drop_last(), e);
            let i = choose|i: int|
                0 <= i < layers.drop_last().len() && (
                #[trigger] layers.drop_last()[i]).view_entries().contains(e);
            assert(layers[i].view_entries().contains(e));
        }
    }
}

/// The selected run is LSN-contiguous: each selected layer after the
/// first starts where its predecessor ends.
proof fn lemma_select_contiguous(l0s: Seq<DeltaLayer>, limit: int, k0: int, acc: int)
    requires
        1 <= k0 <= l0s.len(),
    ensures
        forall|k: int|
            k0 <= k < spec_select_rec(l0s, limit, k0, acc).0 ==> (#[trigger] l0s[k]).lsn_range.start
                == l0s[k - 1].lsn_range.end,
        k0 <= spec_select_rec(l0s, limit, k0, acc).0 <= l0s.len(),
    decreases l0s.len() - k0,
{
    if k0 < l0s.len() && l0s[k0].lsn_range.start == l0s[k0 - 1].lsn_range.end {
        let acc2 = acc + l0s[k0].file_size;
        if acc2 < limit {
            lemma_select_contiguous(l0s, limit, k0 + 1, acc2);
        }
    }
}

/// How many times an entry appears among the owned entries: as often as
/// in the input when its key is owned, never otherwise.
proof fn lemma_owned_count(s: Seq<(u128, u64, ValueView)>, shard: ShardIdentity, e: (u128, u64, ValueView))
    ensures
        spec_owned(shard, e) ==> owned_entries(s, shard).to_multiset().count(e)
            == s.to_multiset().count(e),
        !spec_owned(shard, e) ==> owned_entries(s, shard).to_multiset().count(e) == 0,
    decreases s.len(),
{
    broadcast use vstd::seq_lib::group_to_multiset_ensures;
    broadcast use vstd::multiset::group_multiset_axioms;

    if s.len() == 0 {
        assert(s.to_multiset() =~= Multiset::empty());
        assert(owned_entries(s, shard).to_multiset() =~= Multiset::empty());
    } else {
        lemma_owned_count(s.drop_last(), shard, e);
        assert(s =~= s.drop_last().push(s.last()));
        vstd::seq_lib::to_multiset_build(s.drop_last(), s.last());
        assert(s.to_multiset() == s.drop_last().push(s.last()).to_multiset());
        if spec_owned(shard, s.last()) {
            vstd::seq_lib::to_multiset_build(owned_entries(s.drop_last(), shard), s.last());
        }
    }
}

/// L0→L1 coverage: given outputs whose concatenated entries are exactly
/// the owned entries of the merged input stream, every owned
/// `(key, lsn, value)` appears in the outputs exactly as often as in the
/// input, and entries of keys this shard does not own never do.
pub proof fn lemma_level0_coverage(
    merged: Seq<(u128, u64, ValueView)>,
    outs: Seq<DeltaLayer>,
    shard: ShardIdentity,
    e: (u128, u64, ValueView),
)
    requires
        concat_layer_entries(outs) == owned_entries(merged, shard),
    ensures
        spec_owned(shard, e) ==> concat_layer_entries(outs).to_multiset().count(e)
            == merged.to_multiset().count(e),
        !spec_owned(shard, e) ==> concat_layer_entries(outs).to_multiset().count(e) == 0,
{
    lemma_owned_count(merged, shard, e);
}

/// Estimated byte size of a run of entries: each value's size plus the
/// per-key overhead.
pub open spec fn spec_entries_size(s: Seq<(u128, u64, ValueView)>) -> int
    decreases s.len(),
{
    if s.len() == 0 {
        0int
    } else {
        spec_entries_size(s.drop_last()) + spec_size_of_value(s.last().2) + KEY_SIZE
    }
}

/// A run of entries with its trailing single-key group removed.
pub open spec fn spec_drop_last_group(s: Seq<(u128, u64, ValueView)>) -> Seq<
    (u128, u64, ValueView),
>
    decreases s.len(),
{
    if s.len() == 0 {
        s
    } else if s.len() >= 2 && s[s.len() - 2].0 == s.last().0 {
        spec_drop_last_group(s.drop_last())
    } else {
        s.drop_last()
    }
}

/// Sizes are never negative.
proof fn lemma_entries_size_nonneg(s: Seq<(u128, u64, ValueView)>)
    ensures
        spec_entries_size(s) >= 0,
    decreases s.len(),
{
    if s.len() > 0 {
        lemma_entries_size_nonneg(s.drop_last());
    }
}

/// Sizes add over concatenation.
proof fn lemma_entries_size_concat(a: Seq<(u128, u64, ValueView)>, b: Seq<(u128, u64, ValueView)>)
    ensures
        spec_entries_size(a + b) == spec_entries_size(a) + spec_entries_size(b),
    decreases b.len(),
{
    if b.len() == 0 {
        assert(a + b =~= a);
    } else {
        lemma_entries_size_concat(a, b.drop_last());
        assert((a + b).drop_last() =~= a + b.drop_last());
        assert((a + b).last() == b.last());
    }
}

/// Appending one key's run and dropping the trailing group gets the
/// original back: the run is the trailing group.
proof fn lemma_drop_last_group_append(a: Seq<(u128, u64, ValueView)>, b: Seq<(u128, u64, ValueView)>)
    requires
        b.len() > 0,
        forall|p: int| 0 <= p < b.len() ==> (#[trigger] b[p]).0 == b[0].0,
        forall|p: int| 0 <= p < a.len() ==> (#[trigger] a[p]).0 < b[0].0,
    ensures
        spec_drop_last_group(a + b) == a,
    decreases b.len(),
{
    let c = a + b;
    assert(c.last() == b.last());
    if b.len() >= 2 {
        assert(c[c.len() - 2] == b[b.len() - 2]);
        assert(c[c.len() - 2].0 == c.last().0);
        assert(c.drop_last() =~= a + b.drop_last());
        assert forall|p: int| 0 <= p < b.drop_last().len() implies (
        #[trigger] b.drop_last()[p]).0 == b.drop_last()[0].0 by {
            assert(b.drop_last()[p] == b[p]);
        }
        lemma_drop_last_group_append(a, b.drop_last());
    } else {
        if c.len() >= 2 {
            assert(c[c.len() - 2] == a[a.len() - 1]);
            assert(c[c.len() - 2].0 != c.last().0);
        }
        assert(c.drop_last() =~= a);
    }
}

/// A single-key run has no head before its trailing group.
proof fn lemma_drop_last_group_single(b: Seq<(u128, u64, ValueView)>)
    requires
        b.len() > 0,
        forall|p: int| 0 <= p < b.len() ==> (#[trigger] b[p]).0 == b[0].0,
    ensures
        spec_drop_last_group(b) == Seq::<(u128, u64, ValueView)>::empty(),
{
    assert(Seq::<(u128, u64, ValueView)>::empty() + b =~= b);
    lemma_drop_last_group_append(Seq::empty(), b);
}

/// Hole splitting: a qualifying gap of the merged stream that the hole
/// budget retained forces a split — no output layer of a pass whose
/// outputs split at the found holes holds entries on both sides of it.
pub proof fn lemma_hole_forces_split(
    outs: Seq<DeltaLayer>,
    found: Seq<Hole>,
    s: Seq<(u128, u64, ValueView)>,
    layers: Seq<crate::layer_map::Layer>,
    last_record_lsn: u64,
    min_hole_range: int,
    max_holes: int,
    p: int,
    i: int,
)
    requires
        spec_gap_qualifies(s, layers, last_record_lsn, min_hole_range, p),
        spec_holes_complete(found, s, layers, last_record_lsn, min_hole_range, max_holes),
        forall|i2: int|
            0 <= i2 < outs.len() ==> spec_splits_at_holes(
                (#[trigger] outs[i2]).view_entries(),
                found,
            ),
        0 <= i < outs.len(),
        !(found.len() == max_holes && forall|j: int|
            0 <= j < found.len() ==> (#[trigger] found[j]).coverage_size
                >= crate::layer_map::LayerMap::spec_image_coverage(
                layers,
                spec_gap_at(s, p),
                last_record_lsn,
            )),
    ensures
        forall|a: int, b: int|
            0 <= a < outs[i].view_entries().len() && 0 <= b < outs[i].view_entries().len() ==> !((
            #[trigger] outs[i].view_entries()[a]).0 < spec_gap_at(s, p).end && (
            #[trigger] outs[i].view_entries()[b]).0 >= spec_gap_at(s, p).end),
{
    let j = choose|j: int|
        0 <= j < found.len() && (#[trigger] found[j]).key_range == spec_gap_at(s, p);
    assert(spec_splits_at_holes(outs[i].view_entries(), found));
    assert forall|a: int, b: int|
        0 <= a < outs[i].view_entries().len() && 0 <= b < outs[i].view_entries().len() implies !((
    #[trigger] outs[i].view_entries()[a]).0 < spec_gap_at(s, p).end && (
    #[trigger] outs[i].view_entries()[b]).0 >= spec_gap_at(s, p).end) by {
        assert(found[j].key_range.end == spec_gap_at(s, p).end);
        assert(!(outs[i].view_entries()[a].0 < found[j].key_range.end
            && outs[i].view_entries()[b].0 >= found[j].key_range.end));
    }
}

/// Result of the first phase of L0→L1 compaction.
pub struct CompactLevel0Phase1Result {
    /// The key-partitioned L1 layers written.
    pub new_layers: Vec<DeltaLayer>,
    /// The L0 run that was consumed; to be removed from the layer map
    /// when the new layers are installed.
    pub deltas_to_compact: Vec<DeltaLayer>,
    /// Whether every contiguous L0 was included, or the size limit cut
    /// the run short.
    pub fully_compacted: bool,
}

/// First phase of L0→L1 compaction: select the oldest contiguous LSN run
/// of the given L0 deltas (bounded in accumulated bytes), stream-merge it
/// in `(key, lsn)` order, and rewrite it into key-partitioned L1 delta
/// layers, dropping keys this shard does not own and splitting outputs at
/// hole boundaries.
///
/// Returns an empty result when fewer than `compaction_threshold` L0s
/// accumulated. Otherwise the concatenated entries of `new_layers` are
/// exactly the owned entries of a `(key, lsn)`-sorted merge of
/// `deltas_to_compact`, whose layers form a contiguous LSN run.
/// The accumulated-bytes limit of one pass: the larger of the configured
/// and default L0 thresholds times the larger of the configured and
/// default checkpoint distances.
pub open spec fn spec_delta_size_limit(compaction_threshold: usize, target_file_size: u64) -> int {
    (if compaction_threshold > DEFAULT_COMPACTION_THRESHOLD {
        compaction_threshold as int
    } else {
        DEFAULT_COMPACTION_THRESHOLD as int
    }) * (if target_file_size > DEFAULT_CHECKPOINT_DISTANCE {
        target_file_size as int
    } else {
        DEFAULT_CHECKPOINT_DISTANCE as int
    })
}

/// `sorted` is the L0 stack rearranged ascending by start LSN: same
/// length, the same entries overall, each layer a copy of one of the
/// stack's.
pub open spec fn spec_sorted_stack(sorted: Seq<DeltaLayer>, l0s: Seq<DeltaLayer>) -> bool {
    &&& sorted.len() == l0s.len()
    &&& forall|p: int, q: int|
        0 <= p < q < sorted.len() ==> (#[trigger] sorted[p]).lsn_range.start <= (
        #[trigger] sorted[q]).lsn_range.start
    &&& sum_entry_msets(sorted) == sum_entry_msets(l0s)
    &&& forall|p: int|
        0 <= p < sorted.len() ==> exists|q: int|
            0 <= q < l0s.len() && layer_shape_eq(#[trigger] sorted[p], l0s[q])
}

/// The selection rule of one pass: once enough L0s accumulated, the
/// consumed run is the prefix that [`spec_select`] picks from the
/// start-LSN-sorted stack — the oldest L0 extended while contiguous, cut
/// at the size limit — and `fully_compacted` reports whether the cut
/// happened.
pub open spec fn spec_phase1_selection(
    l0s: Seq<DeltaLayer>,
    res: CompactLevel0Phase1Result,
    compaction_threshold: usize,
    target_file_size: u64,
) -> bool {
    l0s.len() >= compaction_threshold && l0s.len() > 0 ==> exists|sorted: Seq<DeltaLayer>|
        {
            &&& spec_sorted_stack(sorted, l0s)
            &&& res.deltas_to_compact@ == sorted.take(
                spec_select(sorted, spec_delta_size_limit(compaction_threshold, target_file_size)).0,
            )
            &&& res.fully_compacted == spec_select(
                sorted,
                spec_delta_size_limit(compaction_threshold, target_file_size),
            ).1
        }
}

#[verifier::rlimit(100)]
pub fn compact_level0_phase1(
    l0s: Vec<DeltaLayer>,
    layer_map: &crate::layer_map::LayerMap,
    shard: &ShardIdentity,
    compaction_threshold: usize,
    target_file_size: u64,
    last_record_lsn: u64,
    cancel: &CancelToken,
    generation: u64,
) -> (r: Result<CompactLevel0Phase1Result, EngineError>)
    requires
        shard.wf(),
        compaction_threshold >= 1,
        forall|i: int| 0 <= i < l0s@.len() ==> (#[trigger] l0s@[i]).wf(),
        forall|i: int|
            0 <= i < l0s@.len() ==> crate::inmemory_layer::entries_sorted(
                (#[trigger] l0s@[i]).view_entries(),
            ),
        forall|i: int|
            0 <= i < l0s@.len() ==> (#[trigger] l0s@[i]).lsn_range.start < l0s@[i].lsn_range.end,
    ensures
        match r {
            Ok(res) => {
                &&& forall|i: int|
                    0 <= i < res.new_layers@.len() ==> (#[trigger] res.new_layers@[i]).wf()
                        && res.new_layers@[i].generation == generation
                &&& forall|k: int|
                    1 <= k < res.deltas_to_compact@.len() ==> (
                    #[trigger] res.deltas_to_compact@[k]).lsn_range.start
                        == res.deltas_to_compact@[k - 1].lsn_range.end
                &&& exists|merged: Seq<(u128, u64, ValueView)>, found: Seq<Hole>|
                    {
                        &&& #[trigger] spec_phase1_witness(merged, found)
                        &&& merged_sorted(merged)
                        &&& spec_holes_complete(
                            found,
                            merged,
                            layer_map.layers@,
                            last_record_lsn,
                            target_file_size as int / crate::keys::PAGE_SZ as int,
                            res.deltas_to_compact@.len() as int,
                        )
                        &&& merged.to_multiset() == sum_entry_msets(res.deltas_to_compact@)
                        &&& concat_layer_entries(res.new_layers@) == owned_entries(merged, *shard)
                        &&& forall|j: int|
                            0 <= j < found.len() ==> spec_is_hole(
                                #[trigger] found[j],
                                merged,
                                layer_map.layers@,
                                last_record_lsn,
                                target_file_size as int / crate::keys::PAGE_SZ as int,
                            )
                        &&& found.len() <= res.deltas_to_compact@.len()
                        &&& forall|i: int|
                            0 <= i < res.new_layers@.len() ==> spec_splits_at_holes(
                                (#[trigger] res.new_layers@[i]).view_entries(),
                                found,
                            )
                    }
                &&& spec_phase1_selection(l0s@, res, compaction_threshold, target_file_size)
                &&& (l0s@.len() < compaction_threshold ==> res.new_layers@.len() == 0
                    && res.deltas_to_compact@.len() == 0)
                &&& forall|i: int|
                    0 <= i < res.new_layers@.len() ==> spec_entries_size(spec_drop_last_group(
                        (#[trigger] res.new_layers@[i]).view_entries(),
                    )) <= target_file_size as int
                &&& forall|i: int|
                    0 < i < res.new_layers@.len() && (#[trigger] res.new_layers@[i]).key_range
                        == res.new_layers@[i - 1].key_range ==> res.new_layers@[i].lsn_range.start
                        == res.new_layers@[i - 1].lsn_range.end
            },
            Err(e) => e == EngineError::ShuttingDown && cancel.cancelled,
        },
        cancel.cancelled && l0s@.len() >= compaction_threshold && l0s@.len() > 0 ==> r is Err,
{
    if l0s.len() < compaction_threshold || l0s.len() == 0 {
        let res = CompactLevel0Phase1Result {
            new_layers: Vec::new(),
            deltas_to_compact: Vec::new(),
            fully_compacted: true,
        };
        proof {
            broadcast use vstd::seq_lib::group_to_multiset_ensures;
            broadcast use vstd::multiset::group_multiset_axioms;

            let merged = Seq::<(u128, u64, ValueView)>::empty();
            let found = Seq::<Hole>::empty();
            assert(merged.to_multiset().len() == 0);
            assert forall|e: (u128, u64, ValueView)| #[trigger] merged.to_multiset().count(e)
                == 0 by {
                if merged.to_multiset().count(e) > 0 {
                    assert(merged.contains(e));
                }
            }
            assert(merged.to_multiset() =~= sum_entry_msets(res.deltas_to_compact@));
            assert(concat_layer_entries(res.new_layers@) =~= owned_entries(merged, *shard));
            assert(spec_phase1_witness(merged, found));
            assert(merged_sorted(merged));
            assert(spec_holes_complete(
                found,
                merged,
                layer_map.layers@,
                last_record_lsn,
                target_file_size as int / crate::keys::PAGE_SZ as int,
                res.deltas_to_compact@.len() as int,
            ));
        }
        return Ok(res);
    }
    // sort by start LSN and pick the oldest contiguous run, bounded in
    // accumulated bytes so one pass cannot balloon
    let mut sorted = sort_by_start_lsn(l0s);
    let th: u128 = if compaction_threshold > DEFAULT_COMPACTION_THRESHOLD {
        compaction_threshold as u128
    } else {
        DEFAULT_COMPACTION_THRESHOLD as u128
    };
    let cd: u128 = if target_file_size > DEFAULT_CHECKPOINT_DISTANCE {
        target_file_size as u128
    } else {
        DEFAULT_CHECKPOINT_DISTANCE as u128
    };
    proof {
        assert(th * cd <= u128::MAX - u64::MAX) by (nonlinear_arith)
            requires
                th <= 0xffffffffffffffffu128,
                cd <= 0xffffffffffffffffu128,
        ;
    }
    let delta_size_limit: u128 = th * cd;
    let (n, fully_compacted) = select_level0_run(&sorted, delta_size_limit);
    proof {
        lemma_select_contiguous(sorted@, delta_size_limit as int, 1, 0);
        // every selected layer's ranges and entries transfer from the
        // original stack through the sort
        assert forall|i: int| 0 <= i < n implies (#[trigger] sorted@[i]).wf()
            && crate::inmemory_layer::entries_sorted(sorted@[i].view_entries())
            && sorted@[i].lsn_range.start < sorted@[i].lsn_range.end by {
            let q = choose|q: int| 0 <= q < l0s@.len() && layer_shape_eq(sorted@[i], l0s@[q]);
            assert(l0s@[q].wf());
            assert forall|p1: int, p2: int|
                0 <= p1 < p2 < sorted@[i].entries@.len() implies crate::layer_map::entry_le(
                ((#[trigger] sorted@[i].entries@[p1]).0, sorted@[i].entries@[p1].1),
                ((#[trigger] sorted@[i].entries@[p2]).0, sorted@[i].entries@[p2].1),
            ) by {
                assert(entry_view(sorted@[i].entries@[p1]) == sorted@[i].view_entries()[p1]);
                assert(sorted@[i].view_entries()[p1] == l0s@[q].view_entries()[p1]);
                assert(entry_view(l0s@[q].entries@[p1]) == l0s@[q].view_entries()[p1]);
                assert(entry_view(sorted@[i].entries@[p2]) == sorted@[i].view_entries()[p2]);
                assert(sorted@[i].view_entries()[p2] == l0s@[q].view_entries()[p2]);
                assert(entry_view(l0s@[q].entries@[p2]) == l0s@[q].view_entries()[p2]);
            }
            assert forall|p1: int|
                0 <= p1 < sorted@[i].entries@.len() implies sorted@[i].key_range.spec_contains(
                (#[trigger] sorted@[i].entries@[p1]).0,
            ) && sorted@[i].lsn_range.spec_contains(sorted@[i].entries@[p1].1) by {
                assert(entry_view(sorted@[i].entries@[p1]) == sorted@[i].view_entries()[p1]);
                assert(sorted@[i].view_entries()[p1] == l0s@[q].view_entries()[p1]);
                assert(entry_view(l0s@[q].entries@[p1]) == l0s@[q].view_entries()[p1]);
            }
        }
    }
    let run_start: u64 = sorted[0].lsn_range.start;
    let run_end: u64 = sorted[n - 1].lsn_range.end;
    let run_range = LsnRange { start: run_start, end: run_end };
    proof {
        // the run is contiguous, so each selected layer's LSN range lies
        // inside the run's
        assert forall|k: int| 0 <= k < n implies run_start <= (
        #[trigger] sorted@[k]).lsn_range.start && sorted@[k].lsn_range.end <= run_end by {
            lemma_run_bounds(sorted@, n as int, k);
        }
    }
    let merged = match merge_delta_entries(&sorted, n, cancel) {
        Ok(m) => m,
        Err(e) => {
            return Err(e);
        }
    };
    proof {
        // bounds on the merged entries, via membership in the selected
        // layers
        broadcast use vstd::seq_lib::group_to_multiset_ensures;

        assert forall|p: int|
            0 <= p < merged@.len() implies (#[trigger] merged@[p]).0 < KEY_MAX
            && run_range.spec_contains(merged@[p].1) by {
            let mev = entries_view(merged@);
            assert(mev[p] == entry_view(merged@[p]));
            assert(mev.contains(mev[p]));
            assert(mev.to_multiset().count(mev[p]) > 0);
            lemma_sum_msets_member(sorted@.take(n as int), mev[p]);
            let i = choose|i: int|
                0 <= i < sorted@.take(n as int).len() && (
                #[trigger] sorted@.take(n as int)[i]).view_entries().contains(mev[p]);
            let ev = sorted@[i].view_entries();
            let q = choose|q: int| 0 <= q < ev.len() && ev[q] == mev[p];
            assert(ev[q] == entry_view(sorted@[i].entries@[q]));
            assert(sorted@[i].key_range.spec_contains(sorted@[i].entries@[q].0));
            assert(sorted@[i].lsn_range.spec_contains(sorted@[i].entries@[q].1));
            assert(run_start <= sorted@[i].lsn_range.start && sorted@[i].lsn_range.end <= run_end);
        }
    }
    let holes = compute_holes(&merged, layer_map, last_record_lsn, target_file_size, n);
    let new_layers = match write_level0_l1_layers(
        &merged,
        shard,
        target_file_size,
        run_range,
        &holes,
        cancel,
        generation,
    ) {
        Ok(outs) => outs,
        Err(e) => {
            return Err(e);
        }
    };
    let ghost sorted_before = sorted@;
    sorted.truncate(n);
    proof {
        assert(sorted@ =~= sorted_before.take(n as int));
    }
    let res = CompactLevel0Phase1Result { new_layers, deltas_to_compact: sorted, fully_compacted };
    proof {
        assert(forall|i: int|
            0 <= i < res.new_layers@.len() ==> spec_entries_size(spec_drop_last_group(
                (#[trigger] res.new_layers@[i]).view_entries(),
            )) <= target_file_size as int);
        assert(forall|i: int|
            0 < i < res.new_layers@.len() && (#[trigger] res.new_layers@[i]).key_range
                == res.new_layers@[i - 1].key_range ==> res.new_layers@[i].lsn_range.start
                == res.new_layers@[i - 1].lsn_range.end);
        let m = entries_view(merged@);
        assert(merged_sorted(m) && m.to_multiset() == sum_entry_msets(res.deltas_to_compact@)
            && concat_layer_entries(res.new_layers@) == owned_entries(m, *shard));
        assert(spec_phase1_witness(m, holes@));
        assert(holes@.len() <= res.deltas_to_compact@.len());
        assert(spec_holes_complete(
            holes@,
            m,
            layer_map.layers@,
            last_record_lsn,
            target_file_size as int / crate::keys::PAGE_SZ as int,
            res.deltas_to_compact@.len() as int,
        ));
        // the returned run is exactly what the selection rule picks from
        // the sorted stack
        assert(delta_size_limit as int == spec_delta_size_limit(
            compaction_threshold,
            target_file_size,
        ));
        assert(spec_sorted_stack(sorted_before, l0s@));
        assert(res.deltas_to_compact@ == sorted_before.take(
            spec_select(sorted_before, spec_delta_size_limit(compaction_threshold, target_file_size)).0,
        ));
        assert(spec_phase1_selection(l0s@, res, compaction_threshold, target_file_size));
    }
    Ok(res)
}

/// Whether phase 1's result and the selected run relate as
/// [`compact_level0_phase1`]'s contract states, and the map was committed
/// with exactly that result.
pub open spec fn spec_level0_committed(
    old_layers: Seq<crate::layer_map::Layer>,
    new_layers: Seq<crate::layer_map::Layer>,
    res: CompactLevel0Phase1Result,
    shard: ShardIdentity,
    fully: bool,
) -> bool {
    &&& new_layers == crate::layer_map::spec_retained(
        old_layers,
        res.deltas_to_compact@.map_values(|d: DeltaLayer| d.spec_key()),
        Seq::empty(),
    ) + res.new_layers@.map_values(|d: DeltaLayer| crate::layer_map::Layer::Delta(d))
    &&& exists|merged: Seq<(u128, u64, ValueView)>|
        {
            &&& merged_sorted(merged)
            &&& merged.to_multiset() == sum_entry_msets(res.deltas_to_compact@)
            &&& concat_layer_entries(res.new_layers@) == owned_entries(merged, shard)
        }
    &&& fully == res.fully_compacted
}

/// The map's L0 delta layers, in map order.
pub open spec fn spec_l0_stack(layers: Seq<crate::layer_map::Layer>) -> Seq<DeltaLayer>
    decreases layers.len(),
{
    if layers.len() == 0 {
        Seq::empty()
    } else {
        let rest = spec_l0_stack(layers.drop_last());
        match layers.last() {
            crate::layer_map::Layer::Delta(d) => if d.spec_is_l0() {
                rest.push(d)
            } else {
                rest
            },
            crate::layer_map::Layer::Image(_) => rest,
        }
    }
}

/// Two stacks of pairwise shape-equal layers.
pub open spec fn stack_shape_eq(a: Seq<DeltaLayer>, b: Seq<DeltaLayer>) -> bool {
    a.len() == b.len() && forall|i: int|
        0 <= i < a.len() ==> layer_shape_eq(#[trigger] a[i], b[i])
}

/// Some phase-1 result explains the map's new contents: its consumed run
/// was selected, per the selection rule, from a shape-copy of the map's
/// own L0 stack, and the map was committed with exactly that result.
pub open spec fn spec_level0_outcome(
    old_layers: Seq<crate::layer_map::Layer>,
    new_layers: Seq<crate::layer_map::Layer>,
    shard: ShardIdentity,
    fully: bool,
    compaction_threshold: usize,
    target_file_size: u64,
) -> bool {
    exists|res: CompactLevel0Phase1Result, stack: Seq<DeltaLayer>|
        {
            &&& stack_shape_eq(stack, spec_l0_stack(old_layers))
            &&& spec_phase1_selection(stack, res, compaction_threshold, target_file_size)
            &&& spec_level0_committed(old_layers, new_layers, res, shard, fully)
        }
}

/// Collect the map's L0 delta layers, compact a contiguous run of them
/// into key-partitioned L1s, and commit the swap: the consumed L0s leave
/// the map, the new L1s enter it. Returns whether the L0s were fully
/// compacted, or `false` when the size limit cut the run short.
#[verifier::rlimit(100)]
pub fn compact_level0(
    layer_map: &mut crate::layer_map::LayerMap,
    shard: &ShardIdentity,
    compaction_threshold: usize,
    target_file_size: u64,
    last_record_lsn: u64,
    cancel: &CancelToken,
    generation: u64,
) -> (r: Result<bool, EngineError>)
    requires
        shard.wf(),
        compaction_threshold >= 1,
        forall|i: int|
            0 <= i < old(layer_map).layers@.len() ==> match #[trigger] old(layer_map).layers@[i] {
                crate::layer_map::Layer::Delta(d) => d.wf()
                    && crate::inmemory_layer::entries_sorted(d.view_entries())
                    && d.lsn_range.start < d.lsn_range.end,
                crate::layer_map::Layer::Image(im) => im.lsn < u64::MAX,
            },
    ensures
        match r {
            Ok(fully) => spec_level0_outcome(
                old(layer_map).layers@,
                final(layer_map).layers@,
                *shard,
                fully,
                compaction_threshold,
                target_file_size,
            ),
            Err(e) => e == EngineError::ShuttingDown && cancel.cancelled && *final(layer_map)
                == *old(layer_map),
        },
        cancel.cancelled && spec_l0_stack(old(layer_map).layers@).len() >= compaction_threshold
            && spec_l0_stack(old(layer_map).layers@).len() > 0 ==> r is Err,
{
    let mut l0s: Vec<DeltaLayer> = Vec::new();
    let mut t: usize = 0;
    proof {
        assert(spec_l0_stack(layer_map.layers@.take(0)) =~= Seq::<DeltaLayer>::empty());
    }
    while t < layer_map.num_layers()
        invariant
            t <= layer_map.layers@.len(),
            *layer_map == *old(layer_map),
            forall|i: int|
                0 <= i < layer_map.layers@.len() ==> match #[trigger] layer_map.layers@[i] {
                    crate::layer_map::Layer::Delta(d) => d.wf()
                        && crate::inmemory_layer::entries_sorted(d.view_entries())
                        && d.lsn_range.start < d.lsn_range.end,
                    crate::layer_map::Layer::Image(im) => im.lsn < u64::MAX,
                },
            stack_shape_eq(l0s@, spec_l0_stack(layer_map.layers@.take(t as int))),
            forall|w: int|
                0 <= w < l0s@.len() ==> (#[trigger] l0s@[w]).wf()
                    && crate::inmemory_layer::entries_sorted(l0s@[w].view_entries()) && l0s@[
                    w].lsn_range.start < l0s@[w].lsn_range.end,
        decreases layer_map.layers@.len() - t,
    {
        proof {
            assert(layer_map.layers@.take(t + 1).drop_last() =~= layer_map.layers@.take(t as int));
            assert(layer_map.layers@.take(t + 1).last() == layer_map.layers@[t as int]);
        }
        match layer_map.get_layer(t) {
            crate::layer_map::Layer::Delta(d) => {
                if d.is_l0() {
                    let cl = crate::gc_compaction::clone_delta_layer(d);
                    proof {
                        lemma_shape_transfers(cl, *d);
                    }
                    let ghost before = l0s@;
                    l0s.push(cl);
                    proof {
                        let stack = spec_l0_stack(layer_map.layers@.take(t + 1));
                        assert forall|i: int| 0 <= i < l0s@.len() implies layer_shape_eq(
                            #[trigger] l0s@[i],
                            stack[i],
                        ) by {
                            if i < before.len() {
                                assert(l0s@[i] == before[i]);
                            }
                        }
                    }
                }
            }
            crate::layer_map::Layer::Image(_) => {}
        }
        t = t + 1;
    }
    proof {
        assert(layer_map.layers@.take(layer_map.layers@.len() as int) =~= layer_map.layers@);
    }
    let ghost l0s_snapshot = l0s@;
    let res = match compact_level0_phase1(
        l0s,
        layer_map,
        shard,
        compaction_threshold,
        target_file_size,
        last_record_lsn,
        cancel,
        generation,
    ) {
        Ok(res) => res,
        Err(e) => {
            return Err(e);
        }
    };
    let ghost gres = res;
    let CompactLevel0Phase1Result { new_layers, deltas_to_compact, fully_compacted: fully } = res;
    let mut remove: Vec<crate::layer_map::PersistentLayerKey> = Vec::new();
    let mut k: usize = 0;
    while k < deltas_to_compact.len()
        invariant
            k <= deltas_to_compact@.len(),
            deltas_to_compact@ == gres.deltas_to_compact@,
            remove@ == deltas_to_compact@.take(k as int).map_values(
                (
                    |d: DeltaLayer| d.spec_key()
                ),
            ),
        decreases deltas_to_compact@.len() - k,
    {
        remove.push(deltas_to_compact[k].layer_key());
        proof {
            assert(remove@ =~= deltas_to_compact@.take(k + 1).map_values(
                |d: DeltaLayer| d.spec_key(),
            ));
        }
        k = k + 1;
    }
    proof {
        assert(deltas_to_compact@.take(deltas_to_compact@.len() as int) =~= deltas_to_compact@);
    }
    layer_map.finish_compact_batch(&remove, new_layers);
    proof {
        assert(layer_map.layers@ == crate::layer_map::spec_retained(
            old(layer_map).layers@,
            gres.deltas_to_compact@.map_values(|d: DeltaLayer| d.spec_key()),
            Seq::empty(),
        ) + gres.new_layers@.map_values(|d: DeltaLayer| crate::layer_map::Layer::Delta(d)));
        assert(spec_level0_committed(
            old(layer_map).layers@,
            layer_map.layers@,
            gres,
            *shard,
            fully,
        ));
        assert(stack_shape_eq(l0s_snapshot, spec_l0_stack(old(layer_map).layers@)));
        assert(spec_phase1_selection(l0s_snapshot, gres, compaction_threshold, target_file_size));
        assert(spec_level0_outcome(
            old(layer_map).layers@,
            layer_map.layers@,
            *shard,
            fully,
            compaction_threshold,
            target_file_size,
        ));
    }
    Ok(fully)
}

/// Sortedness and range facts carry across a shape-preserving copy.
proof fn lemma_shape_transfers(cl: DeltaLayer, d: DeltaLayer)
    requires
        layer_shape_eq(cl, d),
        d.wf(),
        crate::inmemory_layer::entries_sorted(d.view_entries()),
    ensures
        cl.wf(),
        crate::inmemory_layer::entries_sorted(cl.view_entries()),
{
    assert(cl.view_entries().len() == d.view_entries().len());
    assert(cl.entries@.len() == d.entries@.len());
    assert forall|p1: int, p2: int|
        0 <= p1 < p2 < cl.entries@.len() implies crate::layer_map::entry_le(
        ((#[trigger] cl.entries@[p1]).0, cl.entries@[p1].1),
        ((#[trigger] cl.entries@[p2]).0, cl.entries@[p2].1),
    ) by {
        assert(crate::layer_map::entry_view(cl.entries@[p1]) == cl.view_entries()[p1]);
        assert(crate::layer_map::entry_view(cl.entries@[p2]) == cl.view_entries()[p2]);
        assert(crate::layer_map::entry_view(d.entries@[p1]) == d.view_entries()[p1]);
        assert(crate::layer_map::entry_view(d.entries@[p2]) == d.view_entries()[p2]);
    }
    assert forall|p1: int|
        0 <= p1 < cl.entries@.len() implies cl.key_range.spec_contains(
        (#[trigger] cl.entries@[p1]).0,
    ) && cl.lsn_range.spec_contains(cl.entries@[p1].1) by {
        assert(crate::layer_map::entry_view(cl.entries@[p1]) == cl.view_entries()[p1]);
        assert(crate::layer_map::entry_view(d.entries@[p1]) == d.view_entries()[p1]);
    }
}

/// Within a contiguous selected run, every layer's LSN range lies inside
/// the run's overall range.
proof fn lemma_run_bounds(sorted: Seq<DeltaLayer>, n: int, k: int)
    requires
        0 < n <= sorted.len(),
        0 <= k < n,
        forall|k2: int|
            1 <= k2 < n ==> (#[trigger] sorted[k2]).lsn_range.start == sorted[k2 - 1].lsn_range.end,
        forall|p: int, q: int|
            0 <= p < q < sorted.len() ==> (#[trigger] sorted[p]).lsn_range.start <= (
            #[trigger] sorted[q]).lsn_range.start,
        forall|i: int| 0 <= i < n ==> (#[trigger] sorted[i]).lsn_range.start < sorted[i].lsn_range.end,
    ensures
        sorted[0].lsn_range.start <= sorted[k].lsn_range.start,
        sorted[k].lsn_range.end <= sorted[n - 1].lsn_range.end,
    decreases n - k,
{
    if k < n - 1 {
        lemma_run_bounds(sorted, n, k + 1);
        assert(sorted[k].lsn_range.end == sorted[k + 1].lsn_range.start);
    }
}

/// The entry's key is below the key-space maximum and its LSN within the
/// compaction run's range.
pub open spec fn key_ok(e: (u128, u64, ValueView), lsn_range: LsnRange) -> bool {
    e.0 < KEY_MAX && lsn_range.spec_contains(e.1)
}

/// Skipping a run of disposable entries leaves the owned subsequence
/// unchanged.
proof fn lemma_owned_skip(s: Seq<(u128, u64, ValueView)>, t: int, g: int, shard: ShardIdentity)
    requires
        0 <= t <= g <= s.len(),
        forall|p: int| t <= p < g ==> shard.spec_is_key_disposable((#[trigger] s[p]).0),
    ensures
        owned_entries(s.take(g), shard) == owned_entries(s.take(t), shard),
    decreases g - t,
{
    if g > t {
        lemma_owned_skip(s, t, g - 1, shard);
        assert(s.take(g).drop_last() =~= s.take(g - 1));
        assert(s.take(g).last() == s[g - 1]);
        lemma_owned_push(s.take(g - 1), s[g - 1], shard);
    }
}

/// Minimum number of covering image layers for a gap to count as a hole.
pub const MIN_HOLE_COVERAGE_SIZE: usize = 3;

/// A gap in the merged key stream at which the output writer must close
/// its current L1: L1s spanning the hole would carry no data for it yet
/// still trigger pointless image creation later.
#[derive(Clone, Copy, PartialEq, Eq, Structural, Debug)]
pub struct Hole {
    pub key_range: KeyRange,
    /// Number of image layers covering the hole: the measure by which
    /// holes are ranked.
    pub coverage_size: usize,
}

/// What makes `h` a hole of the merged stream `s`: it spans the gap
/// between two consecutive entries, is at least `min_hole_range` keys
/// wide, does not start among the metadata keys, and is covered by at
/// least [`MIN_HOLE_COVERAGE_SIZE`] image layers at `last_record_lsn`.
pub open spec fn spec_is_hole(
    h: Hole,
    s: Seq<(u128, u64, ValueView)>,
    layers: Seq<crate::layer_map::Layer>,
    last_record_lsn: u64,
    min_hole_range: int,
) -> bool {
    &&& exists|p: int|
        0 < p < s.len() && h.key_range == (KeyRange {
            start: ((#[trigger] s[p - 1]).0 + 1) as u128,
            end: s[p].0,
        })
    &&& h.key_range.end - h.key_range.start >= min_hole_range
    &&& !crate::keys::spec_is_metadata_key(h.key_range.start)
    &&& h.coverage_size >= MIN_HOLE_COVERAGE_SIZE
    &&& h.coverage_size == crate::layer_map::LayerMap::spec_image_coverage(
        layers,
        h.key_range,
        last_record_lsn,
    )
}

/// Always true: this function states nothing. It exists only to anchor
/// quantifier instantiation on the `(merged, found)` pair; everything
/// substantive about the pair is in the clauses beside it.
pub open spec fn spec_phase1_witness(merged: Seq<(u128, u64, ValueView)>, found: Seq<Hole>) -> bool {
    true
}

/// A written layer is never empty, starts at its first key, and is
/// closed at its last written key's successor. The range is kept tight
/// at both ends: starting a layer at the previously closed key's
/// successor instead would only widen it over the keyless gap between
/// the two, without changing any content.
pub open spec fn spec_layer_spans_its_keys(l: DeltaLayer) -> bool {
    &&& l.entries@.len() > 0
    &&& l.key_range.start == l.entries@[0].0
    &&& l.key_range.end == l.entries@[l.entries@.len() - 1].0 + 1
}

/// No single layer's entries sit on both sides of any hole: the output
/// writer closes a layer at every hole boundary it crosses.
pub open spec fn spec_splits_at_holes(
    entries: Seq<(u128, u64, ValueView)>,
    holes: Seq<Hole>,
) -> bool {
    forall|j: int, p: int, q: int|
        0 <= j < holes.len() && 0 <= p < entries.len() && 0 <= q < entries.len() ==> !((
        #[trigger] entries[p]).0 < (#[trigger] holes[j]).key_range.end && (
        #[trigger] entries[q]).0 >= holes[j].key_range.end)
}

/// The gap between the stream's adjacent entries at `p - 1` and `p`.
pub open spec fn spec_gap_at(s: Seq<(u128, u64, ValueView)>, p: int) -> KeyRange {
    KeyRange { start: (s[p - 1].0 + 1) as u128, end: s[p].0 }
}

/// Whether the gap before position `p` qualifies as a hole: wide enough,
/// not starting among the metadata keys, and covered by enough image
/// layers.
pub open spec fn spec_gap_qualifies(
    s: Seq<(u128, u64, ValueView)>,
    layers: Seq<crate::layer_map::Layer>,
    last_record_lsn: u64,
    min_hole_range: int,
    p: int,
) -> bool {
    &&& 0 < p < s.len()
    &&& s[p].0 >= s[p - 1].0 + 1
    &&& spec_gap_at(s, p).end - spec_gap_at(s, p).start >= min_hole_range
    &&& !crate::keys::spec_is_metadata_key(spec_gap_at(s, p).start)
    &&& crate::layer_map::LayerMap::spec_image_coverage(
        layers,
        spec_gap_at(s, p),
        last_record_lsn,
    ) >= MIN_HOLE_COVERAGE_SIZE
}

/// Every qualifying gap is accounted for: it is among the holes found, or
/// the list is already full of holes covered at least as well.
pub open spec fn spec_holes_complete(
    holes: Seq<Hole>,
    s: Seq<(u128, u64, ValueView)>,
    layers: Seq<crate::layer_map::Layer>,
    last_record_lsn: u64,
    min_hole_range: int,
    max_holes: int,
) -> bool {
    forall|p: int|
        #[trigger] spec_gap_qualifies(s, layers, last_record_lsn, min_hole_range, p) ==> (exists|
            j: int,
        |
            0 <= j < holes.len() && (#[trigger] holes[j]).key_range == spec_gap_at(s, p)) || (
        holes.len() == max_holes && forall|j: int|
            0 <= j < holes.len() ==> (#[trigger] holes[j]).coverage_size
                >= crate::layer_map::LayerMap::spec_image_coverage(
                layers,
                spec_gap_at(s, p),
                last_record_lsn,
            ))
}

/// Two holes of one sorted stream keep their order end to end: holes are
/// gaps between adjacent entries, so they cannot overlap.
proof fn lemma_hole_ends_ordered(
    s: Seq<(u128, u64, ValueView)>,
    layers: Seq<crate::layer_map::Layer>,
    last_record_lsn: u64,
    min_hole_range: int,
    a: Hole,
    b: Hole,
)
    requires
        merged_sorted(s),
        min_hole_range >= 0,
        forall|p: int| 0 <= p < s.len() ==> (#[trigger] s[p]).0 < KEY_MAX,
        spec_is_hole(a, s, layers, last_record_lsn, min_hole_range),
        spec_is_hole(b, s, layers, last_record_lsn, min_hole_range),
        a.key_range.start <= b.key_range.start,
    ensures
        a.key_range.end <= b.key_range.end,
{
    let pa = choose|pa: int|
        0 < pa < s.len() && a.key_range == (KeyRange {
            start: ((#[trigger] s[pa - 1]).0 + 1) as u128,
            end: s[pa].0,
        });
    let pb = choose|pb: int|
        0 < pb < s.len() && b.key_range == (KeyRange {
            start: ((#[trigger] s[pb - 1]).0 + 1) as u128,
            end: s[pb].0,
        });
    if pa <= pb {
        assert(merged_le(s[pa], s[pb]));
    } else {
        if pb < pa - 1 {
            assert(merged_le(s[pb], s[pa - 1]));
        }
        assert(s[pb].0 <= s[pa - 1].0);
        assert(s[pa - 1].0 < KEY_MAX);
        assert(a.key_range.start == s[pa - 1].0 + 1);
        assert(a.key_range.start > b.key_range.end);
        assert(b.key_range.end >= b.key_range.start);
        assert(false);
    }
}

/// Identify up to `max_holes` holes of the merged stream: gaps between
/// consecutive distinct keys, at least `target_file_size / PAGE_SZ` keys
/// wide, outside the metadata range, covered by at least
/// [`MIN_HOLE_COVERAGE_SIZE`] image layers. Holes are ranked by coverage
/// (the best-covered kept when over budget) and returned in key order;
/// every qualifying gap is found unless the budget was reached by
/// better-covered ones.
pub fn compute_holes(
    merged: &Vec<(u128, u64, Value)>,
    layer_map: &crate::layer_map::LayerMap,
    last_record_lsn: u64,
    target_file_size: u64,
    max_holes: usize,
) -> (r: Vec<Hole>)
    requires
        forall|p: int| 0 <= p < merged@.len() ==> (#[trigger] merged@[p]).0 < KEY_MAX,
        merged_sorted(entries_view(merged@)),
    ensures
        r@.len() <= max_holes,
        forall|j: int|
            0 <= j < r@.len() ==> spec_is_hole(
                #[trigger] r@[j],
                entries_view(merged@),
                layer_map.layers@,
                last_record_lsn,
                target_file_size as int / crate::keys::PAGE_SZ as int,
            ),
        forall|j1: int, j2: int|
            0 <= j1 < j2 < r@.len() ==> (#[trigger] r@[j1]).key_range.start <= (
            #[trigger] r@[j2]).key_range.start,
        forall|j1: int, j2: int|
            0 <= j1 < j2 < r@.len() ==> (#[trigger] r@[j1]).key_range.end <= (
            #[trigger] r@[j2]).key_range.end,
        spec_holes_complete(
            r@,
            entries_view(merged@),
            layer_map.layers@,
            last_record_lsn,
            target_file_size as int / crate::keys::PAGE_SZ as int,
            max_holes as int,
        ),
{
    let ghost mev = entries_view(merged@);
    let ghost lys = layer_map.layers@;
    let ghost min_hole_range = target_file_size as int / crate::keys::PAGE_SZ as int;
    let min_range: u64 = target_file_size / (crate::keys::PAGE_SZ as u64);
    let mut heap: Vec<Hole> = Vec::new();
    let mut t: usize = 1;
    while t < merged.len()
        invariant
            1 <= t,
            merged@.len() > 0 ==> t <= merged@.len(),
            heap@.len() <= max_holes,
            min_range == min_hole_range,
            mev == entries_view(merged@),
            lys == layer_map.layers@,
            forall|p: int| 0 <= p < merged@.len() ==> (#[trigger] merged@[p]).0 < KEY_MAX,
            forall|j: int|
                0 <= j < heap@.len() ==> spec_is_hole(
                    #[trigger] heap@[j],
                    mev,
                    lys,
                    last_record_lsn,
                    min_hole_range,
                ),
            forall|p: int|
                p < t && #[trigger] spec_gap_qualifies(mev, lys, last_record_lsn, min_hole_range, p)
                    ==> (exists|j: int|
                    0 <= j < heap@.len() && (#[trigger] heap@[j]).key_range == spec_gap_at(mev, p))
                    || (heap@.len() == max_holes && forall|j: int|
                    0 <= j < heap@.len() ==> (#[trigger] heap@[j]).coverage_size
                        >= crate::layer_map::LayerMap::spec_image_coverage(
                        lys,
                        spec_gap_at(mev, p),
                        last_record_lsn,
                    )),
        decreases merged@.len() - t,
    {
        let prev_key: u128 = merged[t - 1].0 + 1;
        let next_key: u128 = merged[t].0;
        let mut qualifies = false;
        let mut coverage_size: usize = 0;
        let key_range = KeyRange { start: prev_key, end: next_key };
        if next_key >= prev_key && next_key - prev_key >= min_range as u128
            && !crate::keys::is_metadata_key(prev_key) {
            coverage_size = layer_map.image_coverage(&key_range, last_record_lsn);
            if coverage_size >= MIN_HOLE_COVERAGE_SIZE {
                qualifies = true;
            }
        }
        proof {
            assert(mev[t as int].0 == next_key && mev[t - 1].0 == merged@[t - 1].0);
            assert(spec_gap_at(mev, t as int) == key_range);
            assert(qualifies == spec_gap_qualifies(mev, lys, last_record_lsn, min_hole_range,
                t as int));
        }
        if qualifies {
            let hole = Hole { key_range, coverage_size };
            proof {
                assert(spec_is_hole(hole, mev, lys, last_record_lsn, min_hole_range));
            }
            let ghost pre_push = heap@;
            heap.push(hole);
            if heap.len() > max_holes {
                // evict the hole with the smallest coverage
                let mut min_idx: usize = 0;
                let mut k: usize = 1;
                while k < heap.len()
                    invariant
                        min_idx < k <= heap@.len(),
                        heap@.len() > 0,
                        forall|p2: int|
                            0 <= p2 < k ==> heap@[min_idx as int].coverage_size <= (
                            #[trigger] heap@[p2]).coverage_size,
                    decreases heap@.len() - k,
                {
                    if heap[k].coverage_size < heap[min_idx].coverage_size {
                        min_idx = k;
                    }
                    k = k + 1;
                }
                let ghost before = heap@;
                let ghost evicted = heap@[min_idx as int];
                heap.remove(min_idx);
                proof {
                    assert forall|j: int| 0 <= j < heap@.len() implies spec_is_hole(
                        #[trigger] heap@[j],
                        mev,
                        lys,
                        last_record_lsn,
                        min_hole_range,
                    ) by {
                        if j < min_idx {
                            assert(heap@[j] == before[j]);
                        } else {
                            assert(heap@[j] == before[j + 1]);
                        }
                    }
                    // every member kept is covered at least as well as the
                    // evicted one
                    assert forall|j: int|
                        0 <= j < heap@.len() implies (#[trigger] heap@[j]).coverage_size
                        >= evicted.coverage_size by {
                        if j < min_idx {
                            assert(heap@[j] == before[j]);
                        } else {
                            assert(heap@[j] == before[j + 1]);
                        }
                    }
                    assert forall|p: int|
                        p < t + 1 && #[trigger] spec_gap_qualifies(mev, lys, last_record_lsn,
                        min_hole_range, p) implies (exists|j: int|
                        0 <= j < heap@.len() && (#[trigger] heap@[j]).key_range == spec_gap_at(
                            mev,
                            p,
                        )) || (heap@.len() == max_holes && forall|j: int|
                        0 <= j < heap@.len() ==> (#[trigger] heap@[j]).coverage_size
                            >= crate::layer_map::LayerMap::spec_image_coverage(
                            lys,
                            spec_gap_at(mev, p),
                            last_record_lsn,
                        )) by {
                        let cov = crate::layer_map::LayerMap::spec_image_coverage(
                            lys,
                            spec_gap_at(mev, p),
                            last_record_lsn,
                        );
                        if p == t {
                            // the new hole: kept, or evicted as the worst
                            if min_idx < before.len() - 1 {
                                assert(heap@[heap@.len() - 1] == before[before.len() - 1]);
                                assert(heap@[heap@.len() - 1].key_range == spec_gap_at(mev, p));
                            } else {
                                assert(evicted == hole);
                                assert(evicted.coverage_size == cov);
                            }
                        } else if spec_gap_qualifies(mev, lys, last_record_lsn, min_hole_range,
                            p) {
                            if exists|j: int|
                                0 <= j < pre_push.len() && (#[trigger] pre_push[j]).key_range
                                    == spec_gap_at(mev, p) {
                                let j = choose|j: int|
                                    0 <= j < pre_push.len() && (#[trigger] pre_push[j]).key_range
                                        == spec_gap_at(mev, p);
                                assert(before[j] == pre_push[j]);
                                if j < min_idx {
                                    assert(heap@[j] == before[j]);
                                } else if j > min_idx {
                                    assert(heap@[j - 1] == before[j]);
                                } else {
                                    // its hole was the one evicted: all the
                                    // kept ones are covered at least as well
                                    assert(evicted.key_range == spec_gap_at(mev, p));
                                    assert(evicted.coverage_size == cov);
                                }
                            } else {
                                // already displaced earlier: the old list was
                                // full of at-least-as-covered holes, and the
                                // evicted one was no better
                                assert(pre_push.len() == max_holes);
                                assert forall|j: int|
                                    0 <= j < heap@.len() implies (
                                #[trigger] heap@[j]).coverage_size >= cov by {
                                    if j < min_idx {
                                        assert(heap@[j] == before[j]);
                                        assert(before[j] == pre_push[j]);
                                    } else {
                                        assert(heap@[j] == before[j + 1]);
                                        if j + 1 < before.len() - 1 {
                                            assert(before[j + 1] == pre_push[j + 1]);
                                        } else {
                                            // the new hole is covered at least
                                            // as well as the evicted member
                                            assert(before[j + 1] == hole);
                                            assert(evicted.coverage_size
                                                <= hole.coverage_size);
                                            assert(evicted == before[min_idx as int]);
                                            if min_idx < pre_push.len() {
                                                assert(evicted == pre_push[min_idx as int]);
                                                assert(evicted.coverage_size >= cov);
                                            } else {
                                                assert(evicted == hole);
                                            }
                                        }
                                    }
                                }
                            }
                        }
                    }
                }
            } else {
                proof {
                    assert forall|p: int|
                        p < t + 1 && #[trigger] spec_gap_qualifies(mev, lys, last_record_lsn,
                        min_hole_range, p) implies (exists|j: int|
                        0 <= j < heap@.len() && (#[trigger] heap@[j]).key_range == spec_gap_at(
                            mev,
                            p,
                        )) || (heap@.len() == max_holes && forall|j: int|
                        0 <= j < heap@.len() ==> (#[trigger] heap@[j]).coverage_size
                            >= crate::layer_map::LayerMap::spec_image_coverage(
                            lys,
                            spec_gap_at(mev, p),
                            last_record_lsn,
                        )) by {
                        if p == t {
                            assert(heap@[heap@.len() - 1].key_range == spec_gap_at(mev, p));
                        } else if spec_gap_qualifies(mev, lys, last_record_lsn, min_hole_range,
                            p) {
                            if exists|j: int|
                                0 <= j < pre_push.len() && (#[trigger] pre_push[j]).key_range
                                    == spec_gap_at(mev, p) {
                                let j = choose|j: int|
                                    0 <= j < pre_push.len() && (#[trigger] pre_push[j]).key_range
                                        == spec_gap_at(mev, p);
                                assert(heap@[j] == pre_push[j]);
                            } else {
                                assert(pre_push.len() == max_holes);
                                assert(false);
                            }
                        }
                    }
                }
            }
        }
        t = t + 1;
    }
    // order the holes by key
    let mut out: Vec<Hole> = Vec::new();
    while heap.len() > 0
        invariant
            mev == entries_view(merged@),
            lys == layer_map.layers@,
            forall|j: int|
                0 <= j < out@.len() ==> spec_is_hole(
                    #[trigger] out@[j],
                    mev,
                    lys,
                    last_record_lsn,
                    min_hole_range,
                ),
            forall|j: int|
                0 <= j < heap@.len() ==> spec_is_hole(
                    #[trigger] heap@[j],
                    mev,
                    lys,
                    last_record_lsn,
                    min_hole_range,
                ),
            forall|j1: int, j2: int|
                0 <= j1 < j2 < out@.len() ==> (#[trigger] out@[j1]).key_range.start <= (
                #[trigger] out@[j2]).key_range.start,
            forall|j1: int, j2: int|
                0 <= j1 < out@.len() && 0 <= j2 < heap@.len() ==> (
                #[trigger] out@[j1]).key_range.start <= (#[trigger] heap@[j2]).key_range.start,
            out@.len() + heap@.len() <= max_holes,
            forall|p: int|
                #[trigger] spec_gap_qualifies(mev, lys, last_record_lsn, min_hole_range, p) ==> (
                exists|j: int|
                    0 <= j < out@.len() && (#[trigger] out@[j]).key_range == spec_gap_at(mev, p))
                    || (exists|j: int|
                    0 <= j < heap@.len() && (#[trigger] heap@[j]).key_range == spec_gap_at(mev, p))
                    || (out@.len() + heap@.len() == max_holes && forall|j: int|
                    0 <= j < out@.len() + heap@.len() ==> spec_member_cov(
                        out@,
                        heap@,
                        j,
                    ) >= crate::layer_map::LayerMap::spec_image_coverage(
                        lys,
                        spec_gap_at(mev, p),
                        last_record_lsn,
                    )),
        decreases heap@.len(),
    {
        let mut min_idx: usize = 0;
        let mut k: usize = 1;
        while k < heap.len()
            invariant
                min_idx < k <= heap@.len(),
                heap@.len() > 0,
                forall|p: int|
                    0 <= p < k ==> heap@[min_idx as int].key_range.start <= (
                    #[trigger] heap@[p]).key_range.start,
            decreases heap@.len() - k,
        {
            if heap[k].key_range.start < heap[min_idx].key_range.start {
                min_idx = k;
            }
            k = k + 1;
        }
        let ghost before_out = out@;
        let ghost before = heap@;
        let picked = heap.remove(min_idx);
        out.push(picked);
        proof {
            assert forall|j2: int| 0 <= j2 < heap@.len() implies picked.key_range.start <= (
            #[trigger] heap@[j2]).key_range.start by {
                if j2 < min_idx {
                    assert(heap@[j2] == before[j2]);
                } else {
                    assert(heap@[j2] == before[j2 + 1]);
                }
            }
            assert forall|p: int|
                #[trigger] spec_gap_qualifies(mev, lys, last_record_lsn, min_hole_range, p)
                implies (exists|j: int|
                0 <= j < out@.len() && (#[trigger] out@[j]).key_range == spec_gap_at(mev, p)) || (
            exists|j: int|
                0 <= j < heap@.len() && (#[trigger] heap@[j]).key_range == spec_gap_at(mev, p)) || (
            out@.len() + heap@.len() == max_holes && forall|j: int|
                0 <= j < out@.len() + heap@.len() ==> spec_member_cov(out@, heap@, j)
                    >= crate::layer_map::LayerMap::spec_image_coverage(
                    lys,
                    spec_gap_at(mev, p),
                    last_record_lsn,
                )) by {
                let cov = crate::layer_map::LayerMap::spec_image_coverage(
                    lys,
                    spec_gap_at(mev, p),
                    last_record_lsn,
                );
                if exists|j: int|
                    0 <= j < before_out.len() && (#[trigger] before_out[j]).key_range
                        == spec_gap_at(mev, p) {
                    let j = choose|j: int|
                        0 <= j < before_out.len() && (#[trigger] before_out[j]).key_range
                            == spec_gap_at(mev, p);
                    assert(out@[j] == before_out[j]);
                } else if exists|j: int|
                    0 <= j < before.len() && (#[trigger] before[j]).key_range == spec_gap_at(
                        mev,
                        p,
                    ) {
                    let j = choose|j: int|
                        0 <= j < before.len() && (#[trigger] before[j]).key_range == spec_gap_at(
                            mev,
                            p,
                        );
                    if j == min_idx {
                        assert(out@.last() == picked);
                        assert(out@[out@.len() - 1].key_range == spec_gap_at(mev, p));
                    } else if j < min_idx {
                        assert(heap@[j] == before[j]);
                    } else {
                        assert(heap@[j - 1] == before[j]);
                    }
                } else if spec_gap_qualifies(mev, lys, last_record_lsn, min_hole_range, p) {
                    assert(before_out.len() + before.len() == max_holes);
                    assert(out@.len() + heap@.len() == max_holes);
                    assert forall|j: int|
                        0 <= j < out@.len() + heap@.len() implies spec_member_cov(out@, heap@, j)
                        >= cov by {
                        if j < before_out.len() {
                            assert(spec_member_cov(out@, heap@, j) == before_out[j].coverage_size);
                            assert(spec_member_cov(before_out, before, j)
                                == before_out[j].coverage_size);
                        } else if j == before_out.len() {
                            assert(spec_member_cov(out@, heap@, j) == picked.coverage_size);
                            assert(spec_member_cov(before_out, before, before_out.len() + min_idx)
                                == picked.coverage_size);
                        } else {
                            let h = j - before_out.len() - 1;
                            assert(spec_member_cov(out@, heap@, j) == heap@[h].coverage_size);
                            if h < min_idx {
                                assert(heap@[h] == before[h]);
                                assert(spec_member_cov(before_out, before, before_out.len() + h)
                                    == before[h].coverage_size);
                            } else {
                                assert(heap@[h] == before[h + 1]);
                                assert(spec_member_cov(
                                    before_out,
                                    before,
                                    before_out.len() + h + 1,
                                ) == before[h + 1].coverage_size);
                            }
                        }
                    }
                }
            }
        }
    }
    proof {
        assert forall|j1: int, j2: int|
            0 <= j1 < j2 < out@.len() implies (#[trigger] out@[j1]).key_range.end <= (
        #[trigger] out@[j2]).key_range.end by {
            assert forall|p: int|
                0 <= p < mev.len() implies (#[trigger] mev[p]).0 < KEY_MAX by {
                assert(mev[p] == entry_view(merged@[p]));
            }
            lemma_hole_ends_ordered(
                mev,
                lys,
                last_record_lsn,
                min_hole_range,
                out@[j1],
                out@[j2],
            );
        }
        assert forall|p: int|
            #[trigger] spec_gap_qualifies(mev, lys, last_record_lsn, min_hole_range, p) implies (
        exists|j: int|
            0 <= j < out@.len() && (#[trigger] out@[j]).key_range == spec_gap_at(mev, p)) || (
        out@.len() == max_holes && forall|j: int|
            0 <= j < out@.len() ==> (#[trigger] out@[j]).coverage_size
                >= crate::layer_map::LayerMap::spec_image_coverage(
                lys,
                spec_gap_at(mev, p),
                last_record_lsn,
            )) by {
            let cov = crate::layer_map::LayerMap::spec_image_coverage(
                lys,
                spec_gap_at(mev, p),
                last_record_lsn,
            );
            if !(exists|j: int|
                0 <= j < out@.len() && (#[trigger] out@[j]).key_range == spec_gap_at(mev, p)) 
            {
                assert forall|j: int|
                    0 <= j < out@.len() implies (#[trigger] out@[j]).coverage_size >= cov by {
                    assert(spec_member_cov(out@, heap@, j) == out@[j].coverage_size);
                }
            }
        }
        assert(spec_holes_complete(out@, mev, lys, last_record_lsn, min_hole_range,
            max_holes as int));
    }
    out
}

/// The coverage of the `j`-th hole counting through `a` then `b`.
pub open spec fn spec_member_cov(a: Seq<Hole>, b: Seq<Hole>, j: int) -> int {
    if j < a.len() {
        a[j].coverage_size as int
    } else {
        b[j - a.len()].coverage_size as int
    }
}

/// Select the maximal contiguous LSN run of L0s to compact, starting with
/// the oldest, bounded by `delta_size_limit` accumulated bytes.
pub fn select_level0_run(l0s: &Vec<DeltaLayer>, delta_size_limit: u128) -> (r: (usize, bool))
    requires
        l0s@.len() >= 1,
        delta_size_limit <= u128::MAX - u64::MAX,
    ensures
        (r.0 as int, r.1) == spec_select(l0s@, delta_size_limit as int),
        1 <= r.0 <= l0s@.len(),
{
    let mut k: usize = 1;
    let mut acc: u128 = 0;
    loop
        invariant
            1 <= k <= l0s@.len(),
            acc == 0 || acc < delta_size_limit,
            delta_size_limit <= u128::MAX - u64::MAX,
            spec_select(l0s@, delta_size_limit as int) == spec_select_rec(
                l0s@,
                delta_size_limit as int,
                k as int,
                acc as int,
            ),
        decreases l0s@.len() - k,
    {
        if k >= l0s.len() {
            return (k, true);
        }
        if l0s[k].lsn_range.start != l0s[k - 1].lsn_range.end {
            return (k, true);
        }
        let acc2: u128 = acc + l0s[k].file_size as u128;
        if acc2 >= delta_size_limit {
            return (k + 1, false);
        }
        acc = acc2;
        k = k + 1;
    }
}

} // verus!
