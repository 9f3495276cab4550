//! In-memory layer: batched writes, reads, freezing and flushing.

use pageserver::errors::EngineError;
use pageserver::gate::Gate;
use pageserver::global_resources::GlobalResources;
use pageserver::inmemory_layer::{
    InMemoryLayer, InMemoryLayerInfo, SerializedBatch, ValueReconstructSituation,
    ValuesReconstructState,
};
use pageserver::keys::{KeyRange, KEY_MAX, KEY_MIN};
use pageserver::value::Value;

fn image(bytes: &[u8]) -> Value {
    Value::Image(bytes.to_vec())
}

fn full_range() -> Vec<KeyRange> {
    vec![KeyRange { start: KEY_MIN, end: KEY_MAX }]
}

fn read_one(layer: &InMemoryLayer, key: u128, end_lsn: u64) -> Option<(u64, Value)> {
    let mut state = ValuesReconstructState::new();
    layer.get_values_reconstruct_data(&full_range(), end_lsn, &mut state);
    for kr in state.keys {
        if kr.key == key {
            assert!(kr.situation == ValueReconstructSituation::Complete);
            assert_eq!(kr.values.len(), 1);
            let (lsn, value) = kr.values.into_iter().next().unwrap();
            return Some((lsn, value));
        }
    }
    None
}

#[test]
fn small_blobs_read_back() {
    let mut gate = Gate::new();
    let mut res = GlobalResources::new(0);
    let mut layer = InMemoryLayer::create(5, gate.enter(), &mut res);

    let batch = SerializedBatch::from_values(vec![
        (1, 10, image(b"foo")),
        (1, 20, image(b"bar")),
        (2, 15, image(b"baz")),
    ]);
    layer.put_batch(batch, &mut res).unwrap();

    assert_eq!(read_one(&layer, 1, 11), Some((10, image(b"foo"))));
    assert_eq!(read_one(&layer, 1, 21), Some((20, image(b"bar"))));
    assert_eq!(read_one(&layer, 2, 16), Some((15, image(b"baz"))));
    assert_eq!(read_one(&layer, 2, 15), None);

    gate.leave(layer.release(&mut res));
}

#[test]
fn large_blob_spanning_pages() {
    let mut gate = Gate::new();
    let mut res = GlobalResources::new(0);
    let mut layer = InMemoryLayer::create(0, gate.enter(), &mut res);

    let mut big = Vec::with_capacity(20000);
    let mut x: u64 = 77;
    for _ in 0..20000 {
        x = x.wrapping_mul(6364136223846793005).wrapping_add(1442695040888963407);
        big.push((x >> 33) as u8);
    }
    let batch = SerializedBatch::from_values(vec![(9, 3, Value::Image(big.clone()))]);
    layer.put_batch(batch, &mut res).unwrap();

    assert_eq!(read_one(&layer, 9, 4), Some((3, Value::Image(big))));
    gate.leave(layer.release(&mut res));
}

#[test]
fn freeze_rejects_writes() {
    let mut gate = Gate::new();
    let mut res = GlobalResources::new(0);
    let mut layer = InMemoryLayer::create(0, gate.enter(), &mut res);

    let batch = SerializedBatch::from_values(vec![
        (1, 10, image(b"a")),
        (1, 50, image(b"b")),
    ]);
    layer.put_batch(batch, &mut res).unwrap();

    assert_eq!(layer.info(), InMemoryLayerInfo::Open { lsn_start: 0 });
    layer.freeze(100);
    assert_eq!(layer.end_lsn_or_max(), 100);
    assert_eq!(layer.get_lsn_range().end, 100);
    assert_eq!(layer.info(), InMemoryLayerInfo::Frozen { lsn_start: 0, lsn_end: 100 });

    let late = SerializedBatch::from_values(vec![(1, 60, image(b"c"))]);
    assert_eq!(layer.put_batch(late, &mut res), Err(EngineError::Writable));

    // the frozen contents are intact
    assert_eq!(read_one(&layer, 1, 101), Some((50, image(b"b"))));
    gate.leave(layer.release(&mut res));
}

#[test]
fn flush_preserves_history() {
    let mut gate = Gate::new();
    let mut res = GlobalResources::new(0);
    let mut layer = InMemoryLayer::create(0, gate.enter(), &mut res);

    let batch = SerializedBatch::from_values(vec![
        (3, 7, image(b"three-seven")),
        (3, 9, image(b"three-nine")),
        (8, 2, image(b"eight-two")),
    ]);
    layer.put_batch(batch, &mut res).unwrap();
    layer.freeze(50);

    let delta = layer.write_to_disk(None, 11).unwrap();
    assert_eq!(delta.generation, 11);
    assert_eq!(delta.key_range, KeyRange { start: KEY_MIN, end: KEY_MAX });
    assert_eq!(delta.lsn_range.start, 0);
    assert_eq!(delta.lsn_range.end, 50);
    // ascending by key, then LSN, each value as written
    assert_eq!(
        delta.entries,
        vec![
            (3, 7, image(b"three-seven")),
            (3, 9, image(b"three-nine")),
            (8, 2, image(b"eight-two")),
        ]
    );

    // a key-range filter keeps only the selected keys
    let filtered = layer
        .write_to_disk(Some(KeyRange { start: 8, end: 9 }), 11)
        .unwrap();
    assert_eq!(filtered.entries, vec![(8, 2, image(b"eight-two"))]);

    // an empty filter yields no layer at all
    assert!(layer.write_to_disk(Some(KeyRange { start: 100, end: 200 }), 11).is_none());

    gate.leave(layer.release(&mut res));
}

#[test]
fn duplicate_key_lsn_overwrites() {
    let mut gate = Gate::new();
    let mut res = GlobalResources::new(0);
    let mut layer = InMemoryLayer::create(0, gate.enter(), &mut res);

    let batch = SerializedBatch::from_values(vec![
        (4, 10, image(b"first")),
        (4, 10, image(b"second")),
    ]);
    layer.put_batch(batch, &mut res).unwrap();
    assert_eq!(read_one(&layer, 4, 11), Some((10, image(b"second"))));
    gate.leave(layer.release(&mut res));
}

#[test]
fn cached_lsn_bounds_the_walk() {
    let mut gate = Gate::new();
    let mut res = GlobalResources::new(0);
    let mut layer = InMemoryLayer::create(0, gate.enter(), &mut res);

    let batch = SerializedBatch::from_values(vec![
        (6, 10, image(b"old")),
        (6, 20, Value::WalRecord(pageserver::value::WalRecord {
            will_init: false,
            data: b"+x".to_vec(),
        })),
    ]);
    layer.put_batch(batch, &mut res).unwrap();

    // with a cached page at LSN 10, only the record above it is visited,
    // and the walk reports that more history is needed
    let mut state = ValuesReconstructState::new();
    state.set_cached_lsn(6, 10);
    layer.get_values_reconstruct_data(&full_range(), 100, &mut state);
    assert_eq!(state.keys.len(), 1);
    assert_eq!(state.keys[0].key, 6);
    assert_eq!(state.keys[0].values.len(), 1);
    assert_eq!(state.keys[0].values[0].0, 20);
    assert!(state.keys[0].situation == ValueReconstructSituation::Continuing);
    gate.leave(layer.release(&mut res));
}

#[test]
fn batch_max_lsn_and_file_growth() {
    let batch = SerializedBatch::from_values(vec![
        (1, 30, image(b"x")),
        (2, 10, image(b"y")),
    ]);
    assert_eq!(batch.max_lsn, 30);
    assert_eq!(batch.offsets.len(), 2);
    // each blob: 1-byte header + tag byte + payload
    assert_eq!(batch.offsets[0].offset, 0);
    assert_eq!(batch.offsets[1].offset, 3);
    assert_eq!(batch.raw.len(), 6);

    let empty = SerializedBatch::from_values(Vec::new());
    assert_eq!(empty.max_lsn, 0);
    assert_eq!(empty.raw.len(), 0);
}
