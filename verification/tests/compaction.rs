//! L0→L1 compaction: run selection, merging, hole splitting, rewrites.

use pageserver::compaction::{
    compact_level0_phase1, compute_holes, merge_delta_entries, select_level0_run, CancelToken,
    CompactionStatistics,
};
use pageserver::keys::{KeyRange, LsnRange, KEY_MAX, KEY_MIN};
use pageserver::layer_map::{DeltaLayer, ImageLayer, Layer, LayerMap};
use pageserver::shard::ShardIdentity;
use pageserver::value::{Value, WalRecord};

fn image(bytes: &[u8]) -> Value {
    Value::Image(bytes.to_vec())
}

fn record(bytes: &[u8]) -> Value {
    Value::WalRecord(WalRecord { will_init: false, data: bytes.to_vec() })
}

fn l0(lsn_start: u64, lsn_end: u64, entries: Vec<(u128, u64, Value)>, file_size: u64) -> DeltaLayer {
    DeltaLayer {
        key_range: KeyRange { start: KEY_MIN, end: KEY_MAX },
        lsn_range: LsnRange { start: lsn_start, end: lsn_end },
        entries,
        generation: 1,
        file_size,
    }
}

#[test]
fn l0_run_select() {
    // LSN ranges [0,10), [10,20), [20,30), [40,50): the first three form
    // the contiguous run, the gap before [40,50) ends it
    let l0s = vec![
        l0(0, 10, Vec::new(), 10),
        l0(10, 20, Vec::new(), 10),
        l0(20, 30, Vec::new(), 10),
        l0(40, 50, Vec::new(), 10),
    ];
    let (n, fully) = select_level0_run(&l0s, 1 << 40);
    assert_eq!(n, 3);
    assert!(fully);
}

#[test]
fn l0_run_select_size_limit() {
    let l0s = vec![
        l0(0, 10, Vec::new(), 100),
        l0(10, 20, Vec::new(), 100),
        l0(20, 30, Vec::new(), 100),
        l0(30, 40, Vec::new(), 100),
    ];
    // the size limit is reached after the second added layer: the run is
    // cut short and the pass marked not fully compacted
    let (n, fully) = select_level0_run(&l0s, 150);
    assert_eq!(n, 3);
    assert!(!fully);
}

#[test]
fn merge_orders_images_before_records() {
    let a = l0(0, 10, vec![(1, 5, record(b"rec")), (2, 5, image(b"i2"))], 10);
    let b = l0(0, 10, vec![(1, 5, image(b"img"))], 10);
    let layers = vec![a, b];
    let cancel = CancelToken::new();
    let merged = merge_delta_entries(&layers, 2, &cancel).unwrap();
    assert_eq!(
        merged,
        vec![
            (1, 5, image(b"img")),
            (1, 5, record(b"rec")),
            (2, 5, image(b"i2")),
        ]
    );
}

#[test]
fn merge_honors_cancellation() {
    let layers = vec![l0(0, 10, vec![(1, 5, image(b"x"))], 10)];
    let cancel = CancelToken { cancelled: true };
    let merged = merge_delta_entries(&layers, 1, &cancel);
    assert!(matches!(merged, Err(pageserver::errors::EngineError::ShuttingDown)));
}

#[test]
fn hole_split_produces_two_l1s() {
    // keys jump from 0x100 to 0x10000000 across a region covered by four
    // image layers: compaction closes one L1 at the hole and opens another
    let mut layer_map = LayerMap::new();
    for i in 0..4u64 {
        layer_map.insert_layer(Layer::Image(ImageLayer {
            key_range: KeyRange { start: 0x200, end: 0x10000000 },
            lsn: i,
            entries: Vec::new(),
            generation: 1,
            file_size: 0,
        }));
    }
    let l0s = vec![
        l0(0, 10, vec![(0x100, 5, image(b"low"))], 10),
        l0(10, 20, vec![(0x10000000, 15, image(b"high"))], 10),
    ];
    let shard = ShardIdentity::unsharded();
    let cancel = CancelToken::new();
    let res = compact_level0_phase1(
        l0s,
        &layer_map,
        &shard,
        2,        // compaction_threshold
        65536,    // target_file_size: hole width threshold 65536 / 4096 = 16 keys
        100,      // last_record_lsn
        &cancel,
        7,
    )
    .unwrap();
    assert!(res.fully_compacted);
    assert_eq!(res.deltas_to_compact.len(), 2);
    assert_eq!(res.new_layers.len(), 2);
    assert_eq!(res.new_layers[0].entries, vec![(0x100, 5, image(b"low"))]);
    assert_eq!(res.new_layers[1].entries, vec![(0x10000000, 15, image(b"high"))]);
    assert_eq!(res.new_layers[0].generation, 7);
    // both L1s carry the run's LSN range
    assert_eq!(res.new_layers[0].lsn_range, LsnRange { start: 0, end: 20 });
    assert_eq!(res.new_layers[1].lsn_range, LsnRange { start: 0, end: 20 });
}

#[test]
fn without_hole_one_l1() {
    let layer_map = LayerMap::new();
    let l0s = vec![
        l0(0, 10, vec![(0x100, 5, image(b"low"))], 10),
        l0(10, 20, vec![(0x10000000, 15, image(b"high"))], 10),
    ];
    let shard = ShardIdentity::unsharded();
    let cancel = CancelToken::new();
    let res = compact_level0_phase1(
        l0s, &layer_map, &shard, 2, 65536, 100, &cancel, 7,
    )
    .unwrap();
    // no image coverage, no hole: a single L1 spans both keys
    assert_eq!(res.new_layers.len(), 1);
    assert_eq!(res.new_layers[0].entries.len(), 2);
}

#[test]
fn below_threshold_is_a_no_op() {
    let layer_map = LayerMap::new();
    let l0s = vec![l0(0, 10, vec![(1, 5, image(b"x"))], 10)];
    let shard = ShardIdentity::unsharded();
    let cancel = CancelToken::new();
    let res = compact_level0_phase1(
        l0s, &layer_map, &shard, 10, 65536, 100, &cancel, 7,
    )
    .unwrap();
    assert!(res.new_layers.is_empty());
    assert!(res.deltas_to_compact.is_empty());
    assert!(res.fully_compacted);
}

#[test]
fn disposable_keys_are_dropped() {
    // two shards, stripe of one key: shard 0 owns even stripes
    let shard = ShardIdentity { count: 2, number: 0, stripe_size: 1 };
    let layer_map = LayerMap::new();
    let l0s = vec![
        l0(0, 10, vec![(2, 5, image(b"mine")), (3, 5, image(b"other"))], 10),
        l0(10, 20, vec![(4, 15, image(b"also-mine"))], 10),
    ];
    let cancel = CancelToken::new();
    let res = compact_level0_phase1(
        l0s, &layer_map, &shard, 2, 65536, 100, &cancel, 7,
    )
    .unwrap();
    assert_eq!(res.new_layers.len(), 1);
    assert_eq!(
        res.new_layers[0].entries,
        vec![(2, 5, image(b"mine")), (4, 15, image(b"also-mine"))]
    );
}

#[test]
fn hole_budget_keeps_the_best_covered() {
    // three qualifying gaps, budget of two: the best-covered stay
    let mut layer_map = LayerMap::new();
    for (start, end, copies) in [
        (0x200u128, 0x10000u128, 3u64),
        (0x20000u128, 0x30000u128, 5),
        (0x40000u128, 0x50000u128, 4),
    ] {
        for i in 0..copies {
            layer_map.insert_layer(Layer::Image(ImageLayer {
                key_range: KeyRange { start, end },
                lsn: i,
                entries: Vec::new(),
                generation: 1,
                file_size: 0,
            }));
        }
    }
    let merged = vec![
        (0x100u128, 5u64, image(b"a")),
        (0x10000, 6, image(b"b")),
        (0x30000, 7, image(b"c")),
        (0x50000, 8, image(b"d")),
    ];
    let holes = compute_holes(&merged, &layer_map, 100, 65536, 2);
    assert_eq!(holes.len(), 2);
    // the 3-covered gap was evicted; the 5- and 4-covered ones stay, in
    // key order
    assert_eq!(holes[0].key_range, KeyRange { start: 0x10001, end: 0x30000 });
    assert_eq!(holes[0].coverage_size, 5);
    assert_eq!(holes[1].key_range, KeyRange { start: 0x30001, end: 0x50000 });
    assert_eq!(holes[1].coverage_size, 4);
}

#[test]
fn writer_splits_once_per_hole_even_when_keys_jump_far() {
    // the key between the two holes belongs to another shard, so one
    // owned group jumps past both holes at once: the writer still closes
    // the open layer and no output spans either hole
    let shard = ShardIdentity { count: 2, number: 0, stripe_size: 1 };
    let mut layer_map = LayerMap::new();
    for gap_start in [0x200u128, 0x20000] {
        for i in 0..3u64 {
            layer_map.insert_layer(Layer::Image(ImageLayer {
                key_range: KeyRange { start: gap_start, end: gap_start + 0x8000 },
                lsn: i,
                entries: Vec::new(),
                generation: 1,
                file_size: 0,
            }));
        }
    }
    let l0s = vec![
        l0(0, 10, vec![(0x100, 5, image(b"low")), (0x10001, 6, image(b"foreign"))], 10),
        l0(10, 20, vec![(0x40000, 15, image(b"high"))], 10),
    ];
    let cancel = CancelToken::new();
    let res = compact_level0_phase1(
        l0s, &layer_map, &shard, 2, 65536, 100, &cancel, 7,
    )
    .unwrap();
    assert_eq!(res.new_layers.len(), 2);
    assert_eq!(res.new_layers[0].entries, vec![(0x100, 5, image(b"low"))]);
    assert_eq!(res.new_layers[1].entries, vec![(0x40000, 15, image(b"high"))]);
}

#[test]
fn size_target_closes_between_key_groups() {
    // two key groups of 28 estimated bytes each (10-byte image + 18-byte
    // key overhead): a 40-byte target forces a split between them, a
    // 60-byte target lets them share one layer
    let layer_map = LayerMap::new();
    let shard = ShardIdentity::unsharded();
    let cancel = CancelToken::new();
    let l0s = vec![
        l0(0, 10, vec![(1, 5, image(b"0123456789"))], 10),
        l0(10, 20, vec![(2, 15, image(b"9876543210"))], 10),
    ];
    let res = compact_level0_phase1(
        l0s, &layer_map, &shard, 2, 40, 100, &cancel, 7,
    )
    .unwrap();
    assert_eq!(res.new_layers.len(), 2);
    assert_eq!(res.new_layers[0].entries, vec![(1, 5, image(b"0123456789"))]);
    assert_eq!(res.new_layers[1].entries, vec![(2, 15, image(b"9876543210"))]);

    let l0s2 = vec![
        l0(0, 10, vec![(1, 5, image(b"0123456789"))], 10),
        l0(10, 20, vec![(2, 15, image(b"9876543210"))], 10),
    ];
    let res2 = compact_level0_phase1(
        l0s2, &layer_map, &shard, 2, 60, 100, &cancel, 7,
    )
    .unwrap();
    assert_eq!(res2.new_layers.len(), 1);
    assert_eq!(res2.new_layers[0].entries.len(), 2);
}

#[test]
fn oversized_key_splits_into_adjacent_lsn_ranges() {
    // one key's 84-byte history exceeds a 40-byte target: it is emitted
    // into two layers of its own, split on LSN into adjacent sub-ranges
    let layer_map = LayerMap::new();
    let shard = ShardIdentity::unsharded();
    let cancel = CancelToken::new();
    let l0s = vec![l0(
        0,
        30,
        vec![
            (1, 5, image(b"0123456789")),
            (1, 15, image(b"0123456789")),
            (1, 25, image(b"0123456789")),
        ],
        30,
    )];
    let res = compact_level0_phase1(l0s, &layer_map, &shard, 1, 40, 100, &cancel, 7).unwrap();
    assert_eq!(res.new_layers.len(), 2);
    assert_eq!(res.new_layers[0].key_range, res.new_layers[1].key_range);
    assert_eq!(res.new_layers[0].lsn_range, LsnRange { start: 0, end: 25 });
    assert_eq!(res.new_layers[1].lsn_range, LsnRange { start: 25, end: 30 });
}

#[test]
fn statistics_track_layers() {
    let mut stat = CompactionStatistics::default();
    stat.visit_delta_layer(100);
    stat.visit_delta_layer(50);
    stat.visit_image_layer(7);
    stat.produce_delta_layer(30);
    stat.on_unique_key_visited();
    stat.discard_image_layer();
    assert_eq!(stat.delta_layer_visited.num, 2);
    assert_eq!(stat.delta_layer_visited.size, 150);
    assert_eq!(stat.image_layer_visited.num, 1);
    assert_eq!(stat.image_layer_visited.size, 7);
    assert_eq!(stat.delta_layer_produced.num, 1);
    assert_eq!(stat.num_unique_keys_visited, 1);
    assert_eq!(stat.num_image_layer_discarded, 1);
}
