//! Shard-split ancestor cleanup.
//!
//! After a shard split, layers inherited from an ancestor shard still hold
//! keys that other shards now own. Each such layer is either dropped (it
//! has no locally-owned page at all), skipped (rewriting is not worth it,
//! or not safe yet), or rewritten as an image layer holding only the keys
//! this shard owns. At most `rewrite_max` layers are rewritten per pass to
//! bound the I/O of one compaction round.

use vstd::prelude::*;
use crate::layer_map::{ImageLayer, Layer, LayerMap, PersistentLayerKey};
use crate::shard::ShardIdentity;

verus! {

/// The keys of a layer's entries, delta or image.
pub open spec fn layer_entry_keys(l: Layer) -> Seq<u128> {
    match l {
        Layer::Delta(d) => d.entries@.map_values(|e: (u128, u64, crate::value::Value)| e.0),
        Layer::Image(im) => im.entries@.map_values(|e: (u128, Vec<u8>)| e.0),
    }
}

/// The image entries whose keys this shard owns, in order.
pub open spec fn owned_image_entries(s: Seq<(u128, Seq<u8>)>, shard: ShardIdentity) -> Seq<
    (u128, Seq<u8>),
>
    decreases s.len(),
{
    if s.len() == 0 {
        Seq::empty()
    } else if !shard.spec_is_key_disposable(s.last().0) {
        owned_image_entries(s.drop_last(), shard).push(s.last())
    } else {
        owned_image_entries(s.drop_last(), shard)
    }
}

/// What one rewrite pass decided: layers to drop outright and layers to
/// replace with their locally-filtered image form. The layer map is only
/// updated, and uploads awaited, once the whole pass is decided.
pub struct ShardRewriteResult {
    /// Inherited layers with no locally-owned page: dropped.
    pub drop_layers: Vec<PersistentLayerKey>,
    /// Inherited image layers replaced by a rewrite that keeps only the
    /// locally-owned keys.
    pub replace_layers: Vec<(PersistentLayerKey, ImageLayer)>,
}

/// Sound description of a rewrite: the source layer at `i` was created on
/// an ancestor shard, lies wholly below the GC cutoff, was written under
/// an older generation, and the replacement keeps exactly the keys this
/// shard owns, under the current generation.
pub open spec fn spec_rewrite_ok(
    layers: Seq<Layer>,
    shard_counts: Seq<u32>,
    shard: ShardIdentity,
    latest_gc_cutoff: u64,
    current_generation: u64,
    src: PersistentLayerKey,
    im: ImageLayer,
) -> bool {
    exists|i: int|
        {
            &&& 0 <= i < layers.len()
            &&& (#[trigger] layers[i]).spec_key() == src
            &&& layers[i] is Image
            &&& shard_counts[i] != shard.count
            &&& spec_owned_key_count(layer_entry_keys(layers[i]), shard) > 0
            &&& spec_owned_key_count(layer_entry_keys(layers[i]), shard) <= layer_entry_keys(
                layers[i],
            ).len() / 2
            &&& layers[i].spec_lsn_range().end < latest_gc_cutoff
            &&& layers[i].spec_generation() != current_generation
            &&& im.key_range == layers[i]->Image_0.key_range
            &&& im.lsn == layers[i]->Image_0.lsn
            &&& im.generation == current_generation
            &&& im.view_entries() == owned_image_entries(
                layers[i]->Image_0.view_entries(),
                shard,
            )
        }
}

/// Sound description of a drop: the source layer at `i` was created on an
/// ancestor shard and holds no key this shard owns.
pub open spec fn spec_drop_ok(
    layers: Seq<Layer>,
    shard_counts: Seq<u32>,
    shard: ShardIdentity,
    src: PersistentLayerKey,
) -> bool {
    exists|i: int|
        {
            &&& 0 <= i < layers.len()
            &&& (#[trigger] layers[i]).spec_key() == src
            &&& shard_counts[i] != shard.count
            &&& forall|p: int|
                0 <= p < layer_entry_keys(layers[i]).len() ==> shard.spec_is_key_disposable(
                    #[trigger] layer_entry_keys(layers[i])[p],
                )
        }
}

/// A layer the pass must drop: inherited from an ancestor shard, holding
/// no key this shard owns.
pub open spec fn spec_drop_eligible(
    layers: Seq<Layer>,
    shard_counts: Seq<u32>,
    shard: ShardIdentity,
    i: int,
) -> bool {
    &&& 0 <= i < layers.len()
    &&& shard_counts[i] != shard.count
    &&& spec_owned_key_count(layer_entry_keys(layers[i]), shard) == 0
}

/// A layer the pass must rewrite, budget permitting: an inherited image
/// layer wholly below the GC cutoff, written under an older generation,
/// whose locally owned pages are some but at most half of its pages.
pub open spec fn spec_rewrite_eligible(
    layers: Seq<Layer>,
    shard_counts: Seq<u32>,
    shard: ShardIdentity,
    latest_gc_cutoff: u64,
    current_generation: u64,
    i: int,
) -> bool {
    let keys = layer_entry_keys(layers[i]);
    let local = spec_owned_key_count(keys, shard);
    &&& 0 <= i < layers.len()
    &&& shard_counts[i] != shard.count
    &&& local > 0
    &&& local <= keys.len() / 2
    &&& layers[i].spec_lsn_range().end < latest_gc_cutoff
    &&& layers[i] is Image
    &&& layers[i].spec_generation() != current_generation
}

/// How many of `keys` this shard owns.
pub open spec fn spec_owned_key_count(keys: Seq<u128>, shard: ShardIdentity) -> int
    decreases keys.len(),
{
    if keys.len() == 0 {
        0int
    } else {
        spec_owned_key_count(keys.drop_last(), shard) + if shard.spec_is_key_disposable(
            keys.last(),
        ) {
            0int
        } else {
            1int
        }
    }
}

/// A layer with no key this shard owns has owned count zero, and so on.
proof fn lemma_owned_count_zero(keys: Seq<u128>, shard: ShardIdentity)
    requires
        spec_owned_key_count(keys, shard) >= 0,
        spec_owned_key_count(keys, shard) == 0,
    ensures
        forall|p: int| 0 <= p < keys.len() ==> shard.spec_is_key_disposable(#[trigger] keys[p]),
    decreases keys.len(),
{
    if keys.len() > 0 {
        lemma_owned_count_bounds(keys.drop_last(), shard);
        lemma_owned_count_zero(keys.drop_last(), shard);
        assert forall|p: int|
            0 <= p < keys.len() implies shard.spec_is_key_disposable(#[trigger] keys[p]) by {
            if p < keys.len() - 1 {
                assert(keys.drop_last()[p] == keys[p]);
            }
        }
    }
}

/// The owned count lies between zero and the key count.
proof fn lemma_owned_count_bounds(keys: Seq<u128>, shard: ShardIdentity)
    ensures
        0 <= spec_owned_key_count(keys, shard) <= keys.len(),
    decreases keys.len(),
{
    if keys.len() > 0 {
        lemma_owned_count_bounds(keys.drop_last(), shard);
    }
}

/// Count the entries of a layer whose keys this shard owns.
fn count_owned(layer: &Layer, shard: &ShardIdentity) -> (r: (usize, usize))
    requires
        shard.wf(),
    ensures
        r.1 == layer_entry_keys(*layer).len(),
        r.0 <= r.1,
        r.0 as int == spec_owned_key_count(layer_entry_keys(*layer), *shard),
{
    let ghost keys = layer_entry_keys(*layer);
    let mut owned: usize = 0;
    let mut t: usize = 0;
    let total: usize = match layer {
        Layer::Delta(d) => d.entries.len(),
        Layer::Image(im) => im.entries.len(),
    };
    proof {
        assert(keys.take(0) =~= Seq::<u128>::empty());
    }
    while t < total
        invariant
            t <= total,
            shard.wf(),
            keys == layer_entry_keys(*layer),
            total == keys.len(),
            owned <= t,
            owned as int == spec_owned_key_count(keys.take(t as int), *shard),
        decreases total - t,
    {
        let key: u128 = match layer {
            Layer::Delta(d) => d.entries[t].0,
            Layer::Image(im) => im.entries[t].0,
        };
        proof {
            assert(keys[t as int] == key);
            assert(keys.take(t + 1).drop_last() =~= keys.take(t as int));
            assert(keys.take(t + 1).last() == keys[t as int]);
        }
        if !shard.is_key_disposable(key) {
            owned = owned + 1;
        }
        t = t + 1;
    }
    proof {
        assert(keys.take(keys.len() as int) =~= keys);
    }
    (owned, total)
}

/// Rewrite an inherited image layer: keep only the keys this shard owns,
/// under the current generation.
fn filter_image_layer(im: &ImageLayer, shard: &ShardIdentity, current_generation: u64) -> (r:
    ImageLayer)
    requires
        shard.wf(),
    ensures
        r.key_range == im.key_range,
        r.lsn == im.lsn,
        r.generation == current_generation,
        r.view_entries() == owned_image_entries(im.view_entries(), *shard),
{
    let mut entries: Vec<(u128, Vec<u8>)> = Vec::new();
    let mut t: usize = 0;
    proof {
        assert(im.view_entries().take(0) =~= Seq::<(u128, Seq<u8>)>::empty());
        assert(crate::gc_compaction::iw_view(entries@) =~= owned_image_entries(
            im.view_entries().take(0),
            *shard,
        ));
    }
    while t < im.entries.len()
        invariant
            t <= im.entries@.len(),
            shard.wf(),
            crate::gc_compaction::iw_view(entries@) == owned_image_entries(
                im.view_entries().take(t as int),
                *shard,
            ),
        decreases im.entries@.len() - t,
    {
        let (key, ref img) = im.entries[t];
        proof {
            assert(im.view_entries().take(t + 1).drop_last() =~= im.view_entries().take(t as int));
            assert(im.view_entries().take(t + 1).last() == im.view_entries()[t as int]);
            assert(im.view_entries()[t as int] == (key, im.entries@[t as int].1@));
        }
        if !shard.is_key_disposable(key) {
            let ghost before = entries@;
            entries.push((key, crate::value::clone_bytes(img)));
            proof {
                assert(crate::gc_compaction::iw_view(entries@) =~= crate::gc_compaction::iw_view(
                    before,
                ).push((key, im.entries@[t as int].1@)));
            }
        }
        t = t + 1;
    }
    proof {
        assert(im.view_entries().take(im.entries@.len() as int) =~= im.view_entries());
    }
    ImageLayer {
        key_range: im.key_range,
        lsn: im.lsn,
        entries,
        generation: current_generation,
        file_size: im.file_size,
    }
}

/// Check every historic layer inherited from an ancestor shard and decide
/// its fate: dropped when it holds no locally-owned page; skipped when it
/// is entirely or mostly local, still within the PITR window, a delta
/// layer, written under the current generation, or the pass already
/// reached `rewrite_max` rewrites; otherwise rewritten as an image layer
/// holding only the locally-owned keys.
///
/// `layer_shard_counts` carries, per layer, the shard count the layer was
/// created under — the metadata the remote index keeps.
pub fn compact_shard_ancestors(
    layer_map: &LayerMap,
    layer_shard_counts: &Vec<u32>,
    shard: &ShardIdentity,
    latest_gc_cutoff: u64,
    current_generation: u64,
    rewrite_max: usize,
) -> (r: ShardRewriteResult)
    requires
        shard.wf(),
        layer_shard_counts@.len() == layer_map.layers@.len(),
        forall|i: int|
            0 <= i < layer_map.layers@.len() && #[trigger] layer_map.layers@[i] is Image
                ==> layer_map.layers@[i]->Image_0.lsn < u64::MAX,
    ensures
        r.replace_layers@.len() <= rewrite_max,
        forall|j: int|
            0 <= j < r.replace_layers@.len() ==> spec_rewrite_ok(
                layer_map.layers@,
                layer_shard_counts@,
                *shard,
                latest_gc_cutoff,
                current_generation,
                (#[trigger] r.replace_layers@[j]).0,
                r.replace_layers@[j].1,
            ),
        forall|j: int|
            0 <= j < r.drop_layers@.len() ==> spec_drop_ok(
                layer_map.layers@,
                layer_shard_counts@,
                *shard,
                #[trigger] r.drop_layers@[j],
            ),
        forall|i: int|
            #[trigger] spec_drop_eligible(layer_map.layers@, layer_shard_counts@, *shard, i)
                ==> crate::layer_map::key_in(r.drop_layers@, layer_map.layers@[i].spec_key()),
        forall|i: int|
            #[trigger] spec_rewrite_eligible(
                layer_map.layers@,
                layer_shard_counts@,
                *shard,
                latest_gc_cutoff,
                current_generation,
                i,
            ) ==> crate::layer_map::key_in(
                r.replace_layers@.map_values(|p: (PersistentLayerKey, ImageLayer)| p.0),
                layer_map.layers@[i].spec_key(),
            ) || r.replace_layers@.len() == rewrite_max,
{
    let mut drop_layers: Vec<PersistentLayerKey> = Vec::new();
    let mut replace_layers: Vec<(PersistentLayerKey, ImageLayer)> = Vec::new();
    let mut i: usize = 0;
    while i < layer_map.num_layers()
        invariant
            i <= layer_map.layers@.len(),
            shard.wf(),
            layer_shard_counts@.len() == layer_map.layers@.len(),
            forall|k: int|
                0 <= k < layer_map.layers@.len() && #[trigger] layer_map.layers@[k] is Image
                    ==> layer_map.layers@[k]->Image_0.lsn < u64::MAX,
            replace_layers@.len() <= rewrite_max,
            forall|j: int|
                0 <= j < replace_layers@.len() ==> spec_rewrite_ok(
                    layer_map.layers@,
                    layer_shard_counts@,
                    *shard,
                    latest_gc_cutoff,
                    current_generation,
                    (#[trigger] replace_layers@[j]).0,
                    replace_layers@[j].1,
                ),
            forall|j: int|
                0 <= j < drop_layers@.len() ==> spec_drop_ok(
                    layer_map.layers@,
                    layer_shard_counts@,
                    *shard,
                    #[trigger] drop_layers@[j],
                ),
            forall|k: int|
                k < i && #[trigger] spec_drop_eligible(
                    layer_map.layers@,
                    layer_shard_counts@,
                    *shard,
                    k,
                ) ==> crate::layer_map::key_in(drop_layers@, layer_map.layers@[k].spec_key()),
            forall|k: int|
                k < i && #[trigger] spec_rewrite_eligible(
                    layer_map.layers@,
                    layer_shard_counts@,
                    *shard,
                    latest_gc_cutoff,
                    current_generation,
                    k,
                ) ==> crate::layer_map::key_in(
                    replace_layers@.map_values(|p: (PersistentLayerKey, ImageLayer)| p.0),
                    layer_map.layers@[k].spec_key(),
                ) || replace_layers@.len() == rewrite_max,
        decreases layer_map.layers@.len() - i,
    {
        let layer = layer_map.get_layer(i);
        if layer_shard_counts[i] == shard.count {
            // this layer does not belong to a historic ancestor
            i = i + 1;
            continue ;
        }
        let (local_page_count, raw_page_count) = count_owned(layer, shard);
        if local_page_count == 0 {
            // covers only keys that belong to other shards
            let ghost before = drop_layers@;
            drop_layers.push(layer.layer_key());
            proof {
                lemma_owned_count_bounds(layer_entry_keys(*layer), *shard);
                lemma_owned_count_zero(layer_entry_keys(*layer), *shard);
                assert forall|j: int| 0 <= j < drop_layers@.len() implies spec_drop_ok(
                    layer_map.layers@,
                    layer_shard_counts@,
                    *shard,
                    #[trigger] drop_layers@[j],
                ) by {
                    if j < before.len() {
                        assert(drop_layers@[j] == before[j]);
                    } else {
                        assert(drop_layers@[j] == layer_map.layers@[i as int].spec_key());
                    }
                }
                assert forall|k: int|
                    k < i + 1 && #[trigger] spec_drop_eligible(
                        layer_map.layers@,
                        layer_shard_counts@,
                        *shard,
                        k,
                    ) implies crate::layer_map::key_in(
                    drop_layers@,
                    layer_map.layers@[k].spec_key(),
                ) by {
                    if k < i {
                        let w = choose|w: int|
                            0 <= w < before.len() && before[w] == layer_map.layers@[k].spec_key();
                        assert(drop_layers@[w] == layer_map.layers@[k].spec_key());
                    } else {
                        assert(drop_layers@.last() == layer_map.layers@[i as int].spec_key());
                    }
                }
            }
            i = i + 1;
            continue ;
        }
        if local_page_count == raw_page_count {
            // entirely shard-local: nothing to filter
            i = i + 1;
            continue ;
        }
        if local_page_count > raw_page_count / 2 {
            // mostly local already: a rewrite would not halve its size
            i = i + 1;
            continue ;
        }
        let in_pitr = match layer {
            Layer::Delta(d) => d.lsn_range.end >= latest_gc_cutoff,
            Layer::Image(im) => im.lsn + 1 >= latest_gc_cutoff,
        };
        if in_pitr {
            // still inside the PITR window: it will age out by itself
            i = i + 1;
            continue ;
        }
        let im = match layer {
            Layer::Delta(_) => {
                // rewriting delta layers is not implemented
                i = i + 1;
                continue ;
            }
            Layer::Image(im) => im,
        };
        if im.generation == current_generation {
            // same generation: the rewrite would collide on the local path
            i = i + 1;
            continue ;
        }
        if replace_layers.len() >= rewrite_max {
            // bound the work of one pass; rewrite on a future compaction
            i = i + 1;
            continue ;
        }
        let rewritten = filter_image_layer(im, shard, current_generation);
        let ghost before = replace_layers@;
        replace_layers.push((layer.layer_key(), rewritten));
        proof {
            assert forall|j: int| 0 <= j < replace_layers@.len() implies spec_rewrite_ok(
                layer_map.layers@,
                layer_shard_counts@,
                *shard,
                latest_gc_cutoff,
                current_generation,
                (#[trigger] replace_layers@[j]).0,
                replace_layers@[j].1,
            ) by {
                if j < before.len() {
                    assert(replace_layers@[j] == before[j]);
                } else {
                    assert(replace_layers@[j].0 == layer_map.layers@[i as int].spec_key());
                    assert(layer_map.layers@[i as int].spec_lsn_range().end == im.lsn + 1);
                }
            }
            let keyed = replace_layers@.map_values(|p: (PersistentLayerKey, ImageLayer)| p.0);
            assert(keyed =~= before.map_values(|p: (PersistentLayerKey, ImageLayer)| p.0).push(
                layer_map.layers@[i as int].spec_key(),
            ));
            assert forall|k: int|
                k < i + 1 && #[trigger] spec_rewrite_eligible(
                    layer_map.layers@,
                    layer_shard_counts@,
                    *shard,
                    latest_gc_cutoff,
                    current_generation,
                    k,
                ) implies crate::layer_map::key_in(
                keyed,
                layer_map.layers@[k].spec_key(),
            ) || replace_layers@.len() == rewrite_max by {
                let prior = before.map_values(|p: (PersistentLayerKey, ImageLayer)| p.0);
                if k < i {
                    assert(crate::layer_map::key_in(prior, layer_map.layers@[k].spec_key())
                        || before.len() == rewrite_max);
                    if crate::layer_map::key_in(prior, layer_map.layers@[k].spec_key()) {
                        let w = choose|w: int|
                            0 <= w < prior.len() && prior[w] == layer_map.layers@[k].spec_key();
                        assert(keyed[w] == layer_map.layers@[k].spec_key());
                    }
                } else {
                    assert(keyed.last() == layer_map.layers@[i as int].spec_key());
                }
            }
        }
        i = i + 1;
    }
    ShardRewriteResult { drop_layers, replace_layers }
}

} // verus!
