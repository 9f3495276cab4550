//! Persistent layers and the per-timeline map over them.
//!
//! A persistent layer is an immutable file: a *delta* layer covers a key
//! range crossed with a half-open LSN range and stores `(key, lsn, value)`
//! entries sorted by `(key, lsn)`; an *image* layer covers a key range at a
//! single LSN and stores one full page image per key. Every layer carries a
//! generation tag: a replacement is only safe when written under a different
//! generation than the layer it replaces.
//!
//! The [`LayerMap`] holds the descriptors of all persistent layers of one
//! timeline and answers the queries the compaction engine plans with.

use vstd::prelude::*;
use crate::keys::{KeyRange, LsnRange, KEY_MAX, KEY_MIN};
use crate::value::{Value, ValueView};

verus! {

/// A persistent delta layer: multiple values per key over an LSN range.
pub struct DeltaLayer {
    /// Keys this layer may hold, half-open.
    pub key_range: KeyRange,
    /// LSNs this layer may hold, half-open.
    pub lsn_range: LsnRange,
    /// `(key, lsn, value)` entries sorted strictly by `(key, lsn)`.
    pub entries: Vec<(u128, u64, Value)>,
    /// Generation under which the layer was written.
    pub generation: u64,
    /// Size of the layer file in bytes.
    pub file_size: u64,
}

/// A persistent image layer: one page image per key at a single LSN.
pub struct ImageLayer {
    /// Keys this layer may hold, half-open.
    pub key_range: KeyRange,
    /// The LSN the images were materialized at.
    pub lsn: u64,
    /// `(key, image)` entries sorted strictly by key.
    pub entries: Vec<(u128, Vec<u8>)>,
    /// Generation under which the layer was written.
    pub generation: u64,
    /// Size of the layer file in bytes.
    pub file_size: u64,
}

/// A persistent layer descriptor.
pub enum Layer {
    Delta(DeltaLayer),
    Image(ImageLayer),
}

/// Identity of a persistent layer within a timeline: two layers with the
/// same key are the same file name, distinguished only by generation.
#[derive(Clone, Copy, PartialEq, Eq, Structural, Debug)]
pub struct PersistentLayerKey {
    pub key_range: KeyRange,
    pub lsn_range: LsnRange,
    pub is_delta: bool,
}

/// Strict `(key, lsn)` order on delta entries.
pub open spec fn entry_lt(a: (u128, u64), b: (u128, u64)) -> bool {
    a.0 < b.0 || (a.0 == b.0 && a.1 < b.1)
}

/// Non-strict `(key, lsn)` order on delta entries. A merged stream may
/// carry both an image and a record at one `(key, lsn)`, so layer entries
/// are only weakly sorted.
pub open spec fn entry_le(a: (u128, u64), b: (u128, u64)) -> bool {
    a.0 < b.0 || (a.0 == b.0 && a.1 <= b.1)
}

/// View of one delta entry.
pub open spec fn entry_view(e: (u128, u64, Value)) -> (u128, u64, ValueView) {
    (e.0, e.1, e.2@)
}

/// View of a sequence of delta entries.
pub open spec fn entries_view(s: Seq<(u128, u64, Value)>) -> Seq<(u128, u64, ValueView)> {
    s.map_values(|e: (u128, u64, Value)| entry_view(e))
}

impl DeltaLayer {
    /// The entries as their mathematical model.
    pub open spec fn view_entries(self) -> Seq<(u128, u64, ValueView)> {
        entries_view(self.entries@)
    }

    /// Entries are sorted by `(key, lsn)` and lie within the layer's
    /// declared ranges.
    pub open spec fn wf(self) -> bool {
        &&& forall|i: int, j: int|
            0 <= i < j < self.entries@.len() ==> entry_le(
                (#[trigger] self.entries@[i].0, self.entries@[i].1),
                (#[trigger] self.entries@[j].0, self.entries@[j].1),
            )
        &&& forall|i: int|
            0 <= i < self.entries@.len() ==> self.key_range.spec_contains(
                #[trigger] self.entries@[i].0,
            ) && self.lsn_range.spec_contains(self.entries@[i].1)
    }

    /// Whether this is an L0 delta: L0 layers are identified by covering
    /// the full key range.
    pub open spec fn spec_is_l0(self) -> bool {
        self.key_range.start == KEY_MIN && self.key_range.end == KEY_MAX
    }

    /// Whether this is an L0 delta.
    pub fn is_l0(&self) -> (r: bool)
        ensures
            r == self.spec_is_l0(),
    {
        self.key_range.start == KEY_MIN && self.key_range.end == KEY_MAX
    }

    /// This layer's identity in the layer map.
    pub open spec fn spec_key(self) -> PersistentLayerKey {
        PersistentLayerKey { key_range: self.key_range, lsn_range: self.lsn_range, is_delta: true }
    }

    /// This layer's identity in the layer map.
    pub fn layer_key(&self) -> (r: PersistentLayerKey)
        ensures
            r == self.spec_key(),
    {
        PersistentLayerKey { key_range: self.key_range, lsn_range: self.lsn_range, is_delta: true }
    }

    /// The value stored for `(key, lsn)`: the first matching entry.
    pub open spec fn spec_get(self, key: u128, lsn: u64) -> Option<ValueView> {
        delta_entries_get(self.view_entries(), key, lsn)
    }
}

/// First entry matching `(key, lsn)` in a sequence of delta entries.
pub open spec fn delta_entries_get(s: Seq<(u128, u64, ValueView)>, key: u128, lsn: u64) -> Option<
    ValueView,
>
    decreases s.len(),
{
    if s.len() == 0 {
        None
    } else if s[0].0 == key && s[0].1 == lsn {
        Some(s[0].2)
    } else {
        delta_entries_get(s.drop_first(), key, lsn)
    }
}

impl ImageLayer {
    /// Entries are strictly sorted by key and lie within the layer's
    /// declared key range.
    pub open spec fn wf(self) -> bool {
        &&& forall|i: int, j: int|
            0 <= i < j < self.entries@.len() ==> (#[trigger] self.entries@[i]).0 < (
            #[trigger] self.entries@[j]).0
        &&& forall|i: int|
            0 <= i < self.entries@.len() ==> self.key_range.spec_contains(
                (#[trigger] self.entries@[i]).0,
            )
    }

    /// The entries as `(key, image bytes)` pairs.
    pub open spec fn view_entries(self) -> Seq<(u128, Seq<u8>)> {
        self.entries@.map_values(|e: (u128, Vec<u8>)| (e.0, e.1@))
    }

    /// This layer's identity in the layer map. An image layer at LSN `l`
    /// occupies the degenerate range `[l, l+1)`.
    pub open spec fn spec_key(self) -> PersistentLayerKey {
        PersistentLayerKey {
            key_range: self.key_range,
            lsn_range: LsnRange { start: self.lsn, end: (self.lsn + 1) as u64 },
            is_delta: false,
        }
    }

    /// This layer's identity in the layer map.
    pub fn layer_key(&self) -> (r: PersistentLayerKey)
        requires
            self.lsn < u64::MAX,
        ensures
            r == self.spec_key(),
    {
        PersistentLayerKey {
            key_range: self.key_range,
            lsn_range: LsnRange { start: self.lsn, end: self.lsn + 1 },
            is_delta: false,
        }
    }
}

impl Layer {
    /// Whether this layer is a delta layer.
    pub open spec fn spec_is_delta(self) -> bool {
        self is Delta
    }

    /// Whether this layer is a delta layer.
    pub fn is_delta(&self) -> (r: bool)
        ensures
            r == self.spec_is_delta(),
    {
        match self {
            Layer::Delta(_) => true,
            Layer::Image(_) => false,
        }
    }

    /// The key range the layer covers.
    pub open spec fn spec_key_range(self) -> KeyRange {
        match self {
            Layer::Delta(d) => d.key_range,
            Layer::Image(im) => im.key_range,
        }
    }

    /// The LSN range the layer covers; for an image layer the degenerate
    /// range at its LSN.
    pub open spec fn spec_lsn_range(self) -> LsnRange {
        match self {
            Layer::Delta(d) => d.lsn_range,
            Layer::Image(im) => LsnRange { start: im.lsn, end: (im.lsn + 1) as u64 },
        }
    }

    /// The generation the layer was written under.
    pub open spec fn spec_generation(self) -> u64 {
        match self {
            Layer::Delta(d) => d.generation,
            Layer::Image(im) => im.generation,
        }
    }

    /// The generation the layer was written under.
    pub fn generation(&self) -> (r: u64)
        ensures
            r == self.spec_generation(),
    {
        match self {
            Layer::Delta(d) => d.generation,
            Layer::Image(im) => im.generation,
        }
    }

    /// Size of the layer file in bytes.
    pub open spec fn spec_file_size(self) -> u64 {
        match self {
            Layer::Delta(d) => d.file_size,
            Layer::Image(im) => im.file_size,
        }
    }

    /// Size of the layer file in bytes.
    pub fn file_size(&self) -> (r: u64)
        ensures
            r == self.spec_file_size(),
    {
        match self {
            Layer::Delta(d) => d.file_size,
            Layer::Image(im) => im.file_size,
        }
    }

    /// This layer's identity in the layer map.
    pub open spec fn spec_key(self) -> PersistentLayerKey {
        match self {
            Layer::Delta(d) => d.spec_key(),
            Layer::Image(im) => im.spec_key(),
        }
    }

    /// This layer's identity in the layer map.
    pub fn layer_key(&self) -> (r: PersistentLayerKey)
        requires
            self is Image ==> self->Image_0.lsn < u64::MAX,
        ensures
            r == self.spec_key(),
    {
        match self {
            Layer::Delta(d) => d.layer_key(),
            Layer::Image(im) => im.layer_key(),
        }
    }
}

/// Whether `k` is among `keys`.
pub open spec fn key_in(keys: Seq<PersistentLayerKey>, k: PersistentLayerKey) -> bool {
    exists|i: int| 0 <= i < keys.len() && keys[i] == k
}

/// Whether `k` is among `keys`.
fn contains_layer_key(keys: &Vec<PersistentLayerKey>, k: &PersistentLayerKey) -> (r: bool)
    ensures
        r == key_in(keys@, *k),
{
    let mut i: usize = 0;
    while i < keys.len()
        invariant
            i <= keys@.len(),
            forall|j: int| 0 <= j < i ==> keys@[j] != *k,
        decreases keys@.len() - i,
    {
        if keys[i] == *k {
            return true;
        }
        i = i + 1;
    }
    false
}

/// The layers a commit retains: those not slated for removal, and those
/// explicitly kept.
pub open spec fn spec_retained(
    layers: Seq<Layer>,
    remove: Seq<PersistentLayerKey>,
    keep: Seq<PersistentLayerKey>,
) -> Seq<Layer>
    decreases layers.len(),
{
    if layers.len() == 0 {
        Seq::empty()
    } else {
        let rest = spec_retained(layers.drop_last(), remove, keep);
        if key_in(remove, layers.last().spec_key()) && !key_in(keep, layers.last().spec_key()) {
            rest
        } else {
            rest.push(layers.last())
        }
    }
}

/// The per-timeline collection of persistent layer descriptors.
pub struct LayerMap {
    /// All historic layers of the timeline.
    pub layers: Vec<Layer>,
}

impl LayerMap {
    /// A map holding no layers.
    pub fn new() -> (r: LayerMap)
        ensures
            r.layers@.len() == 0,
    {
        LayerMap { layers: Vec::new() }
    }

    /// Number of historic layers.
    pub fn num_layers(&self) -> (r: usize)
        ensures
            r == self.layers@.len(),
    {
        self.layers.len()
    }

    /// Borrow the layer at position `i`.
    pub fn get_layer(&self, i: usize) -> (r: &Layer)
        requires
            i < self.layers@.len(),
        ensures
            *r == self.layers@[i as int],
    {
        &self.layers[i]
    }

    /// Add a layer.
    pub fn insert_layer(&mut self, layer: Layer)
        ensures
            final(self).layers@ == old(self).layers@.push(layer),
    {
        self.layers.push(layer);
    }

    /// Positions of all L0 delta layers, in map order.
    pub fn level0_delta_indices(&self) -> (r: Vec<usize>)
        ensures
            forall|j: int|
                0 <= j < r@.len() ==> #[trigger] r@[j] < self.layers@.len()
                    && self.layers@[r@[j] as int] is Delta && self.layers@[r@[j] as int]
                    ->Delta_0.spec_is_l0(),
            forall|i: int|
                0 <= i < self.layers@.len() && self.layers@[i] is Delta && (
                #[trigger] self.layers@[i])->Delta_0.spec_is_l0() ==> r@.contains(i as usize),
            forall|j1: int, j2: int| 0 <= j1 < j2 < r@.len() ==> r@[j1] < r@[j2],
    {
        let mut out: Vec<usize> = Vec::new();
        let mut i: usize = 0;
        while i < self.layers.len()
            invariant
                i <= self.layers@.len(),
                forall|j: int|
                    0 <= j < out@.len() ==> #[trigger] out@[j] < i && self.layers@[out@[j] as int]
                        is Delta && self.layers@[out@[j] as int]->Delta_0.spec_is_l0(),
                forall|k: int|
                    0 <= k < i && self.layers@[k] is Delta && (#[trigger] self.layers@[k])
                        ->Delta_0.spec_is_l0() ==> out@.contains(k as usize),
                forall|j1: int, j2: int| 0 <= j1 < j2 < out@.len() ==> out@[j1] < out@[j2],
            decreases self.layers@.len() - i,
        {
            let is_l0 = match &self.layers[i] {
                Layer::Delta(d) => d.is_l0(),
                Layer::Image(_) => false,
            };
            let ghost prev_out = out@;
            if is_l0 {
                out.push(i);
            }
            proof {
                assert forall|k: int|
                    0 <= k < i + 1 && self.layers@[k] is Delta && (#[trigger] self.layers@[k])
                        ->Delta_0.spec_is_l0() implies out@.contains(k as usize) by {
                    if k < i {
                        let j = choose|j: int| 0 <= j < prev_out.len() && prev_out[j] == k as usize;
                        assert(out@[j] == k as usize);
                    } else {
                        assert(out@.last() == i);
                    }
                }
            }
            i = i + 1;
        }
        out
    }

    /// How many image layers cover any part of `key_range` at an LSN at or
    /// below `lsn`.
    pub fn image_coverage(&self, key_range: &KeyRange, lsn: u64) -> (r: usize)
        ensures
            r == Self::spec_image_coverage(self.layers@, *key_range, lsn),
    {
        let mut count: usize = 0;
        let mut i: usize = 0;
        while i < self.layers.len()
            invariant
                i <= self.layers@.len(),
                count == Self::spec_image_coverage(self.layers@.take(i as int), *key_range, lsn),
                count <= i,
            decreases self.layers@.len() - i,
        {
            let covers = match &self.layers[i] {
                Layer::Image(im) => im.lsn <= lsn && im.key_range.overlaps(key_range),
                Layer::Delta(_) => false,
            };
            proof {
                assert(self.layers@.take(i + 1).drop_last() =~= self.layers@.take(i as int));
                assert(self.layers@.take(i + 1).last() == self.layers@[i as int]);
            }
            if covers {
                count = count + 1;
            }
            i = i + 1;
        }
        proof {
            assert(self.layers@.take(self.layers@.len() as int) =~= self.layers@);
        }
        count
    }

    /// Number of image layers among `layers` that overlap `key_range` at
    /// an LSN at or below `lsn`.
    pub open spec fn spec_image_coverage(layers: Seq<Layer>, key_range: KeyRange, lsn: u64) -> int
        decreases layers.len(),
    {
        if layers.len() == 0 {
            0int
        } else {
            Self::spec_image_coverage(layers.drop_last(), key_range, lsn) + match layers.last() {
                Layer::Image(im) => if im.lsn <= lsn && im.key_range.spec_overlaps(key_range) {
                    1int
                } else {
                    0int
                },
                Layer::Delta(_) => 0int,
            }
        }
    }

    /// Whether some layer has this identity.
    pub open spec fn spec_contains_key(self, key: PersistentLayerKey) -> bool {
        exists|i: int| 0 <= i < self.layers@.len() && (#[trigger] self.layers@[i]).spec_key() == key
    }

    /// Atomically commit a compaction: drop every layer slated for
    /// removal — except those explicitly kept — and install the new
    /// layers. This swap is the single linearization point of a
    /// compaction; readers never observe a partial result.
    pub fn finish_gc_compaction(
        &mut self,
        remove: &Vec<PersistentLayerKey>,
        keep: &Vec<PersistentLayerKey>,
        new_layers: Vec<Layer>,
    )
        requires
            forall|i: int|
                0 <= i < old(self).layers@.len() && #[trigger] old(self).layers@[i] is Image
                    ==> old(self).layers@[i]->Image_0.lsn < u64::MAX,
        ensures
            final(self).layers@ == spec_retained(old(self).layers@, remove@, keep@) + new_layers@,
    {
        let ghost old0 = self.layers@;
        let total: usize = self.layers.len();
        let mut kept: Vec<Layer> = Vec::new();
        let mut t: usize = 0;
        proof {
            assert(old0.take(0) =~= Seq::<Layer>::empty());
            assert(old0.skip(0) =~= old0);
        }
        while self.layers.len() > 0
            invariant
                t <= old0.len(),
                old0.len() == total,
                self.layers@ == old0.skip(t as int),
                kept@ == spec_retained(old0.take(t as int), remove@, keep@),
                forall|i: int|
                    0 <= i < old0.len() && #[trigger] old0[i] is Image ==> old0[i]->Image_0.lsn
                        < u64::MAX,
            decreases self.layers@.len(),
        {
            let layer = self.layers.remove(0);
            proof {
                assert(old0.skip(t as int)[0] == old0[t as int]);
                assert(old0.skip(t as int).drop_first() =~= old0.skip(t + 1));
                assert(old0.take(t + 1).drop_last() =~= old0.take(t as int));
                assert(old0.take(t + 1).last() == old0[t as int]);
            }
            let lk = layer.layer_key();
            let slated = contains_layer_key(remove, &lk) && !contains_layer_key(keep, &lk);
            if !slated {
                kept.push(layer);
            }
            t = t + 1;
        }
        proof {
            assert(old0.take(old0.len() as int) =~= old0);
        }
        let mut rest = new_layers;
        let ghost new0 = rest@;
        let total_new: usize = rest.len();
        let mut n: usize = 0;
        proof {
            assert(kept@ + new0.take(0) =~= kept@);
        }
        while rest.len() > 0
            invariant
                n <= new0.len(),
                new0.len() == total_new,
                rest@ == new0.skip(n as int),
                kept@ == spec_retained(old0, remove@, keep@) + new0.take(n as int),
            decreases rest@.len(),
        {
            let l = rest.remove(0);
            proof {
                assert(new0.skip(n as int)[0] == new0[n as int]);
                assert(new0.skip(n as int).drop_first() =~= new0.skip(n + 1));
            }
            kept.push(l);
            proof {
                assert(kept@ =~= spec_retained(old0, remove@, keep@) + new0.take(n + 1));
            }
            n = n + 1;
        }
        proof {
            assert(new0.take(new0.len() as int) =~= new0);
        }
        self.layers = kept;
    }

    /// Commit an L0→L1 compaction: remove the consumed L0 run and install
    /// the new L1 delta layers.
    pub fn finish_compact_batch(
        &mut self,
        remove: &Vec<PersistentLayerKey>,
        new_deltas: Vec<DeltaLayer>,
    )
        requires
            forall|i: int|
                0 <= i < old(self).layers@.len() && #[trigger] old(self).layers@[i] is Image
                    ==> old(self).layers@[i]->Image_0.lsn < u64::MAX,
        ensures
            final(self).layers@ == spec_retained(
                old(self).layers@,
                remove@,
                Seq::empty(),
            ) + new_deltas@.map_values(|d: DeltaLayer| Layer::Delta(d)),
    {
        let mut wrapped: Vec<Layer> = Vec::new();
        let mut rest = new_deltas;
        let ghost new0 = rest@;
        let total_new: usize = rest.len();
        let mut n: usize = 0;
        proof {
            assert(wrapped@ =~= new0.take(0).map_values(|d: DeltaLayer| Layer::Delta(d)));
        }
        while rest.len() > 0
            invariant
                n <= new0.len(),
                new0.len() == total_new,
                rest@ == new0.skip(n as int),
                wrapped@ == new0.take(n as int).map_values(|d: DeltaLayer| Layer::Delta(d)),
            decreases rest@.len(),
        {
            let d = rest.remove(0);
            proof {
                assert(new0.skip(n as int)[0] == new0[n as int]);
                assert(new0.skip(n as int).drop_first() =~= new0.skip(n + 1));
            }
            wrapped.push(Layer::Delta(d));
            proof {
                assert(wrapped@ =~= new0.take(n + 1).map_values(|d2: DeltaLayer| Layer::Delta(d2)));
            }
            n = n + 1;
        }
        proof {
            assert(new0.take(new0.len() as int) =~= new0);
        }
        let keep: Vec<PersistentLayerKey> = Vec::new();
        self.finish_gc_compaction(remove, &keep, wrapped);
    }

    /// Find the position of the layer with this identity, if any.
    pub fn find_key(&self, key: &PersistentLayerKey) -> (r: Option<usize>)
        requires
            forall|i: int|
                0 <= i < self.layers@.len() && #[trigger] self.layers@[i] is Image
                    ==> self.layers@[i]->Image_0.lsn < u64::MAX,
        ensures
            match r {
                Some(i) => i < self.layers@.len() && self.layers@[i as int].spec_key() == *key
                    && forall|j: int|
                    0 <= j < i ==> (#[trigger] self.layers@[j]).spec_key() != *key,
                None => !self.spec_contains_key(*key),
            },
    {
        let mut i: usize = 0;
        while i < self.layers.len()
            invariant
                i <= self.layers@.len(),
                forall|k: int|
                    0 <= k < self.layers@.len() && #[trigger] self.layers@[k] is Image
                        ==> self.layers@[k]->Image_0.lsn < u64::MAX,
                forall|k: int| 0 <= k < i ==> (#[trigger] self.layers@[k]).spec_key() != *key,
            decreases self.layers@.len() - i,
        {
            let lk = self.layers[i].layer_key();
            if lk == *key {
                return Some(i);
            }
            i = i + 1;
        }
        None
    }
}

} // verus!
