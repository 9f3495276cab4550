//! GC-compaction: per-key retention, piping, and the full pass.

use pageserver::compaction::{CancelToken, CompactionStatistics};
use pageserver::errors::EngineError;
use pageserver::gc_compaction::{
    compact_with_gc, generate_key_retention, reconstruct_page, KeyHistoryRetention,
};
use pageserver::keys::{KeyRange, LsnRange, KEY_MAX, KEY_MIN};
use pageserver::layer_map::{DeltaLayer, ImageLayer, Layer, LayerMap};
use pageserver::shard_rewrite::compact_shard_ancestors;
use pageserver::shard::ShardIdentity;
use pageserver::value::{Value, WalRecord};

fn image(bytes: &[u8]) -> Value {
    Value::Image(bytes.to_vec())
}

fn record(bytes: &[u8]) -> Value {
    Value::WalRecord(WalRecord { will_init: false, data: bytes.to_vec() })
}

/// The page a base image plus appended records replays to under the
/// engine's reconstruction model.
fn replayed(parts: &[&[u8]]) -> Vec<u8> {
    let mut out = Vec::new();
    for p in parts {
        out.extend_from_slice(p);
    }
    out
}

#[test]
fn retention_across_branch() {
    // horizon 100, retain LSNs [30]; history image@10, +rec@20, +rec@40,
    // +rec@80
    let history = vec![
        (1u128, 10u64, image(b"base")),
        (1, 20, record(b"+a")),
        (1, 40, record(b"+b")),
        (1, 80, record(b"+c")),
    ];
    let kr = generate_key_retention(1, &history, 100, &vec![30], 5, None).unwrap();

    assert_eq!(kr.below_horizon.len(), 2);
    // at the retain LSN: a single image reconstructed from image@10 + rec@20
    assert_eq!(kr.below_horizon[0].0, 30);
    assert_eq!(
        kr.below_horizon[0].1 .0,
        vec![(30, Value::Image(replayed(&[b"base", b"+a"])))]
    );
    // at the horizon: only two records since the last image, below the
    // threshold of five, so the deltas stay
    assert_eq!(kr.below_horizon[1].0, 100);
    assert_eq!(
        kr.below_horizon[1].1 .0,
        vec![(40, record(b"+b")), (80, record(b"+c"))]
    );
    // nothing above the horizon
    assert!(kr.above_horizon.0.is_empty());
}

#[test]
fn retention_keeps_history_above_horizon() {
    let history = vec![
        (1u128, 10u64, image(b"base")),
        (1, 120, record(b"+z")),
    ];
    let kr = generate_key_retention(1, &history, 100, &vec![], 5, None).unwrap();
    assert_eq!(kr.below_horizon.len(), 1);
    assert_eq!(kr.below_horizon[0].0, 100);
    assert_eq!(kr.below_horizon[0].1 .0, vec![(100, image(b"base"))]);
    assert_eq!(kr.above_horizon.0, vec![(120, record(b"+z"))]);
}

#[test]
fn retention_emits_image_past_delta_threshold() {
    // five records accumulate between the two retain LSNs: the second
    // cutoff is materialized as an image
    let history = vec![
        (1u128, 1u64, image(b"i")),
        (1, 11, record(b"+1")),
        (1, 12, record(b"+2")),
        (1, 13, record(b"+3")),
        (1, 14, record(b"+4")),
        (1, 15, record(b"+5")),
    ];
    let kr = generate_key_retention(1, &history, 100, &vec![10, 20], 3, None).unwrap();
    assert_eq!(kr.below_horizon.len(), 3);
    assert_eq!(kr.below_horizon[0].1 .0, vec![(10, image(b"i"))]);
    assert_eq!(
        kr.below_horizon[1].1 .0,
        vec![(
            20,
            Value::Image(replayed(&[b"i", b"+1", b"+2", b"+3", b"+4", b"+5"])),
        )]
    );
    assert_eq!(kr.below_horizon[2].1 .0, Vec::<(u64, Value)>::new());
}

#[test]
fn retention_dedups_image_record_pairs() {
    // the merge of an image layer and a delta layer put both an image and
    // a record at LSN 20: the image wins, the record is dropped
    let history = vec![
        (1u128, 10u64, image(b"base")),
        (1, 20, image(b"materialized")),
        (1, 20, record(b"+dup")),
    ];
    let kr = generate_key_retention(1, &history, 100, &vec![], 5, None).unwrap();
    assert_eq!(kr.below_horizon.len(), 1);
    assert_eq!(kr.below_horizon[0].1 .0, vec![(100, image(b"materialized"))]);
}

#[test]
fn retention_with_ancestor_base_image() {
    // with an ancestor image no image is forced at the lowest bucket: the
    // deltas stay, to be replayed on top of the ancestor
    let history = vec![(1u128, 20u64, record(b"+a"))];
    let kr =
        generate_key_retention(1, &history, 100, &vec![30], 5, Some((10, b"anc".to_vec()))).unwrap();
    assert_eq!(kr.below_horizon.len(), 2);
    assert_eq!(kr.below_horizon[0].1 .0, vec![(20, record(b"+a"))]);
    assert_eq!(kr.below_horizon[1].1 .0, Vec::<(u64, Value)>::new());
}

#[test]
fn retention_incomplete_history() {
    // a bare record with neither base image nor ancestor cannot be
    // reconstructed
    let history = vec![(1u128, 20u64, record(b"+a"))];
    let kr = generate_key_retention(1, &history, 100, &vec![30], 5, None);
    assert!(matches!(kr, Err(EngineError::IncompleteHistory)));
}

#[test]
fn retention_recovers_from_late_initialization() {
    // the history opens with a bare record, but an image follows in the
    // same bucket: replay truncates to the image and the pass succeeds
    let history = vec![
        (1u128, 10u64, record(b"+early")),
        (1, 20, image(b"late")),
    ];
    let kr = generate_key_retention(1, &history, 100, &vec![], 5, None).unwrap();
    assert_eq!(kr.below_horizon.len(), 1);
    assert_eq!(kr.below_horizon[0].1 .0, vec![(100, image(b"late"))]);
}

#[test]
fn retention_fails_when_only_a_later_bucket_initializes() {
    // the first populated cutoff sees only the bare record; the image
    // arrives above that cutoff, too late to ground the replay
    let history = vec![
        (1u128, 10u64, record(b"+early")),
        (1, 40, image(b"late")),
    ];
    let kr = generate_key_retention(1, &history, 100, &vec![30], 5, None);
    assert!(matches!(kr, Err(EngineError::IncompleteHistory)));
}

#[test]
fn reconstruct_page_replays_records() {
    let history = vec![
        (10u64, image(b"base")),
        (20, record(b"+a")),
        (30, record(b"+b")),
    ];
    assert_eq!(reconstruct_page(&history), replayed(&[b"base", b"+a", b"+b"]));

    let reinit = vec![
        (10u64, image(b"old")),
        (20, Value::WalRecord(WalRecord { will_init: true, data: b"new".to_vec() })),
        (30, record(b"+t")),
    ];
    assert_eq!(reconstruct_page(&reinit), replayed(&[b"new", b"+t"]));
}

#[test]
fn pipe_to_routes_single_images_and_deltas() {
    let kr = KeyHistoryRetention {
        below_horizon: vec![
            (30, pageserver::gc_compaction::KeyLogAtLsn(vec![(30, image(b"img"))])),
            (100, pageserver::gc_compaction::KeyLogAtLsn(vec![(40, record(b"+b"))])),
        ],
        above_horizon: pageserver::gc_compaction::KeyLogAtLsn(vec![(120, record(b"+z"))]),
    };
    let mut delta_writer = Vec::new();
    let mut image_writer = Vec::new();
    let mut stat = CompactionStatistics::default();
    kr.pipe_to(7, &mut delta_writer, &mut image_writer, true, &mut stat);
    assert_eq!(image_writer, vec![(7u128, b"img".to_vec())]);
    assert_eq!(delta_writer, vec![(7u128, 40u64, record(b"+b")), (7, 120, record(b"+z"))]);
    assert_eq!(stat.num_unique_keys_visited, 1);

    // without an image writer the image goes into the delta stream at the
    // cutoff LSN
    let kr2 = KeyHistoryRetention {
        below_horizon: vec![
            (30, pageserver::gc_compaction::KeyLogAtLsn(vec![(30, image(b"img"))])),
        ],
        above_horizon: pageserver::gc_compaction::KeyLogAtLsn(Vec::new()),
    };
    let mut dw2 = Vec::new();
    let mut iw2 = Vec::new();
    kr2.pipe_to(7, &mut dw2, &mut iw2, false, &mut stat);
    assert!(iw2.is_empty());
    assert_eq!(dw2, vec![(7u128, 30u64, image(b"img"))]);
}

#[test]
fn gc_compaction_collapses_history() {
    // one delta layer below the horizon holding a key's full history
    let mut layer_map = LayerMap::new();
    layer_map.insert_layer(Layer::Delta(DeltaLayer {
        key_range: KeyRange { start: KEY_MIN, end: KEY_MAX },
        lsn_range: LsnRange { start: 0, end: 90 },
        entries: vec![
            (1, 10, image(b"base")),
            (1, 20, record(b"+a")),
            (1, 40, record(b"+b")),
            (1, 80, record(b"+c")),
        ],
        generation: 1,
        file_size: 40,
    }));
    let cancel = CancelToken::new();
    let mut stat = CompactionStatistics::default();
    let res = compact_with_gc(&layer_map, 100, &vec![30], 9, &cancel, &mut stat).unwrap();

    // the consumed layer is slated for removal
    assert_eq!(res.layers_to_remove.len(), 1);
    assert!(res.keep_layers.is_empty());
    // the image layer at the lowest retain LSN holds the page at LSN 30
    let im = res.new_image.unwrap();
    assert_eq!(im.lsn, 30);
    assert_eq!(im.generation, 9);
    assert_eq!(im.entries, vec![(1u128, replayed(&[b"base", b"+a"]))]);
    // the deltas between the retain LSN and the horizon stay
    assert_eq!(res.new_deltas.len(), 1);
    assert_eq!(
        res.new_deltas[0].entries,
        vec![(1u128, 40u64, record(b"+b")), (1, 80, record(b"+c"))]
    );
    assert_eq!(res.new_deltas[0].generation, 9);

    // committing swaps the old layer out and the new layers in
    let mut new_layers: Vec<Layer> = Vec::new();
    for d in res.new_deltas {
        new_layers.push(Layer::Delta(d));
    }
    new_layers.push(Layer::Image(im));
    layer_map.finish_gc_compaction(&res.layers_to_remove, &res.keep_layers, new_layers);
    assert_eq!(layer_map.num_layers(), 2);
    assert!(layer_map.get_layer(0).is_delta());
    assert!(!layer_map.get_layer(1).is_delta());
}

#[test]
fn gc_compaction_images_follow_key_order() {
    // two keys below the horizon: the image layer reconstructs one page
    // per key, in key order, and only key 1 leaves a delta behind
    let mut layer_map = LayerMap::new();
    layer_map.insert_layer(Layer::Delta(DeltaLayer {
        key_range: KeyRange { start: KEY_MIN, end: KEY_MAX },
        lsn_range: LsnRange { start: 0, end: 90 },
        entries: vec![
            (1, 10, image(b"one")),
            (1, 50, record(b"+x")),
            (2, 20, image(b"two")),
        ],
        generation: 1,
        file_size: 30,
    }));
    let cancel = CancelToken::new();
    let mut stat = CompactionStatistics::default();
    let res = compact_with_gc(&layer_map, 100, &vec![30], 9, &cancel, &mut stat).unwrap();
    let im = res.new_image.unwrap();
    assert_eq!(im.lsn, 30);
    assert_eq!(
        im.entries,
        vec![(1u128, replayed(&[b"one"])), (2, replayed(&[b"two"]))]
    );
    assert_eq!(res.new_deltas.len(), 1);
    assert_eq!(res.new_deltas[0].entries, vec![(1u128, 50u64, record(b"+x"))]);
}

#[test]
fn gc_compaction_honors_cancellation() {
    let layer_map = LayerMap::new();
    let cancel = CancelToken { cancelled: true };
    let mut stat = CompactionStatistics::default();
    let outcome = compact_with_gc(&layer_map, 100, &vec![], 9, &cancel, &mut stat);
    assert!(matches!(outcome, Err(EngineError::ShuttingDown)));
}

#[test]
fn shard_ancestor_rewrite_filters_keys() {
    let shard = ShardIdentity { count: 2, number: 0, stripe_size: 1 };
    let mut layer_map = LayerMap::new();
    // inherited from the unsharded ancestor: a mixed image layer
    layer_map.insert_layer(Layer::Image(ImageLayer {
        key_range: KeyRange { start: 0, end: 100 },
        lsn: 10,
        entries: vec![
            (2, b"two".to_vec()),
            (3, b"three".to_vec()),
            (5, b"five".to_vec()),
            (7, b"seven".to_vec()),
        ],
        generation: 1,
        file_size: 10,
    }));
    // inherited, but holding only foreign keys: dropped
    layer_map.insert_layer(Layer::Image(ImageLayer {
        key_range: KeyRange { start: 0, end: 100 },
        lsn: 11,
        entries: vec![(3, b"three".to_vec()), (5, b"five".to_vec())],
        generation: 1,
        file_size: 10,
    }));
    // created on this shard already: untouched
    layer_map.insert_layer(Layer::Image(ImageLayer {
        key_range: KeyRange { start: 0, end: 100 },
        lsn: 12,
        entries: vec![(9, b"nine".to_vec())],
        generation: 1,
        file_size: 10,
    }));
    let shard_counts = vec![1u32, 1, 2];
    let res = compact_shard_ancestors(&layer_map, &shard_counts, &shard, 1000, 4, 10);

    assert_eq!(res.drop_layers.len(), 1);
    assert_eq!(res.drop_layers[0].lsn_range, LsnRange { start: 11, end: 12 });
    assert_eq!(res.replace_layers.len(), 1);
    let (src, rewritten) = &res.replace_layers[0];
    assert_eq!(src.lsn_range, LsnRange { start: 10, end: 11 });
    assert_eq!(rewritten.entries, vec![(2u128, b"two".to_vec())]);
    assert_eq!(rewritten.generation, 4);
    assert_eq!(rewritten.lsn, 10);
}

#[test]
fn shard_ancestor_rewrite_skips_pitr_and_generation() {
    let shard = ShardIdentity { count: 2, number: 0, stripe_size: 1 };
    let mut layer_map = LayerMap::new();
    // still inside the PITR window (lsn end >= cutoff): skipped
    layer_map.insert_layer(Layer::Image(ImageLayer {
        key_range: KeyRange { start: 0, end: 100 },
        lsn: 500,
        entries: vec![(2, b"a".to_vec()), (3, b"b".to_vec()), (5, b"c".to_vec())],
        generation: 1,
        file_size: 10,
    }));
    // written under the current generation: skipped
    layer_map.insert_layer(Layer::Image(ImageLayer {
        key_range: KeyRange { start: 0, end: 100 },
        lsn: 10,
        entries: vec![(2, b"a".to_vec()), (3, b"b".to_vec()), (5, b"c".to_vec())],
        generation: 4,
        file_size: 10,
    }));
    let shard_counts = vec![1u32, 1];
    let res = compact_shard_ancestors(&layer_map, &shard_counts, &shard, 100, 4, 10);
    assert!(res.drop_layers.is_empty());
    assert!(res.replace_layers.is_empty());
}
