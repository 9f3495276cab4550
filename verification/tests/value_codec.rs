//! The value wire format and the end-to-end L0→L1 driver.

use pageserver::compaction::{compact_level0, CancelToken};
use pageserver::errors::EngineError;
use pageserver::keys::{KeyRange, LsnRange, KEY_MAX, KEY_MIN};
use pageserver::layer_map::{DeltaLayer, Layer, LayerMap};
use pageserver::shard::ShardIdentity;
use pageserver::value::{value_des, value_ser, Value, WalRecord};

#[test]
fn value_wire_format_round_trips() {
    let image = Value::Image(b"page".to_vec());
    let bytes = value_ser(&image);
    assert_eq!(bytes, vec![0, b'p', b'a', b'g', b'e']);
    assert_eq!(value_des(&bytes).unwrap(), image);

    let rec = Value::WalRecord(WalRecord { will_init: true, data: b"r".to_vec() });
    let bytes = value_ser(&rec);
    assert_eq!(bytes, vec![1, 1, b'r']);
    assert_eq!(value_des(&bytes).unwrap(), rec);

    let plain = Value::WalRecord(WalRecord { will_init: false, data: Vec::new() });
    assert_eq!(value_ser(&plain), vec![1, 0]);
    assert_eq!(value_des(&vec![1, 0]).unwrap(), plain);
}

#[test]
fn corrupt_values_fail_to_deserialize() {
    // an empty buffer, an unknown tag, a record missing its flag, and a
    // flag outside 0/1 are all corrupt
    assert_eq!(value_des(&Vec::new()), Err(EngineError::Deserialize));
    assert_eq!(value_des(&vec![9, 1, 2]), Err(EngineError::Deserialize));
    assert_eq!(value_des(&vec![1]), Err(EngineError::Deserialize));
    assert_eq!(value_des(&vec![1, 7, 0]), Err(EngineError::Deserialize));
    assert_eq!(EngineError::Deserialize.as_str(), "deserialize error");
}

#[test]
fn level0_driver_commits_the_swap() {
    let mut layer_map = LayerMap::new();
    for (start, end, key, val) in [
        (0u64, 10u64, 5u128, b"one".to_vec()),
        (10, 20, 6, b"two".to_vec()),
    ] {
        layer_map.insert_layer(Layer::Delta(DeltaLayer {
            key_range: KeyRange { start: KEY_MIN, end: KEY_MAX },
            lsn_range: LsnRange { start, end },
            entries: vec![(key, start + 1, Value::Image(val))],
            generation: 1,
            file_size: 10,
        }));
    }
    let shard = ShardIdentity::unsharded();
    let cancel = CancelToken::new();
    let fully = compact_level0(&mut layer_map, &shard, 2, 65536, 100, &cancel, 3).unwrap();
    assert!(fully);
    // the two L0s were consumed; one key-partitioned L1 replaces them
    assert_eq!(layer_map.num_layers(), 1);
    match layer_map.get_layer(0) {
        Layer::Delta(d) => {
            assert_eq!(d.generation, 3);
            assert_eq!(
                d.entries,
                vec![
                    (5, 1, Value::Image(b"one".to_vec())),
                    (6, 11, Value::Image(b"two".to_vec())),
                ]
            );
            assert!(!d.is_l0());
        }
        Layer::Image(_) => panic!("expected a delta layer"),
    }
    // with too few L0s the driver is a no-op
    let fully2 = compact_level0(&mut layer_map, &shard, 2, 65536, 100, &cancel, 3).unwrap();
    assert!(fully2);
    assert_eq!(layer_map.num_layers(), 1);
}

#[test]
fn cancellation_aborts_the_driver() {
    let mut layer_map = LayerMap::new();
    layer_map.insert_layer(Layer::Delta(DeltaLayer {
        key_range: KeyRange { start: KEY_MIN, end: KEY_MAX },
        lsn_range: LsnRange { start: 0, end: 10 },
        entries: vec![(5, 1, Value::Image(b"x".to_vec()))],
        generation: 1,
        file_size: 10,
    }));
    let shard = ShardIdentity::unsharded();
    let cancel = CancelToken { cancelled: true };
    let r = compact_level0(&mut layer_map, &shard, 1, 65536, 100, &cancel, 3);
    assert_eq!(r, Err(EngineError::ShuttingDown));
    // nothing was committed
    assert_eq!(layer_map.num_layers(), 1);
}
