//! Spill-file blob round-trips and gate behavior.

use pageserver::ephemeral_file::{is_ephemeral_file, EphemeralFile};
use pageserver::gate::Gate;

/// Deterministic byte stream standing in for random test data.
fn pseudo_random_bytes(n: usize, seed: u64) -> Vec<u8> {
    let mut out = Vec::with_capacity(n);
    let mut x = seed;
    for _ in 0..n {
        x = x.wrapping_mul(6364136223846793005).wrapping_add(1442695040888963407);
        out.push((x >> 33) as u8);
    }
    out
}

#[test]
fn test_ephemeral_blobs() {
    let mut gate = Gate::new();
    let entered = gate.enter();
    let mut file = EphemeralFile::create(entered);

    let pos_foo = file.write_blob(&b"foo".to_vec());
    assert_eq!(b"foo".to_vec(), file.read_blob(pos_foo).unwrap());
    let pos_bar = file.write_blob(&b"bar".to_vec());
    assert_eq!(b"foo".to_vec(), file.read_blob(pos_foo).unwrap());
    assert_eq!(b"bar".to_vec(), file.read_blob(pos_bar).unwrap());

    let mut blobs = Vec::new();
    for i in 0..10000 {
        let data = Vec::from(format!("blob{}", i).as_bytes());
        let pos = file.write_blob(&data);
        blobs.push((pos, data));
    }
    // also test with large blobs
    for i in 0..100 {
        let data = format!("blob{}", i).as_bytes().repeat(100);
        let pos = file.write_blob(&data);
        blobs.push((pos, data));
    }

    for (pos, expected) in blobs {
        let actual = file.read_blob(pos).unwrap();
        assert_eq!(actual, expected);
    }

    // a large blob that spans multiple pages
    let large_data = pseudo_random_bytes(20000, 0x5eed);
    let pos_large = file.write_blob(&large_data);
    let result = file.read_blob(pos_large).unwrap();
    assert_eq!(result, large_data);

    let guard = file.release();
    gate.leave(guard);
}

#[test]
fn ephemeral_file_holds_gate_open() {
    let mut gate = Gate::new();

    let entered = gate.enter();
    let file = EphemeralFile::create(entered);

    assert!(
        !gate.close_ready(),
        "closing cannot complete before dropping"
    );

    let guard = file.release();
    gate.leave(guard);

    assert!(gate.close_ready(), "closing completes right away");
}

#[test]
fn blob_header_boundaries() {
    let mut gate = Gate::new();
    let mut file = EphemeralFile::create(gate.enter());

    // largest one-byte header and smallest four-byte header
    let short = vec![7u8; 0x7f];
    let long = vec![9u8; 0x80];
    let empty: Vec<u8> = Vec::new();
    let p0 = file.write_blob(&empty);
    let p1 = file.write_blob(&short);
    let p2 = file.write_blob(&long);
    assert_eq!(file.read_blob(p0).unwrap(), empty);
    assert_eq!(file.read_blob(p1).unwrap(), short);
    assert_eq!(file.read_blob(p2).unwrap(), long);
    // 0x7f bytes take a 1-byte header, 0x80 bytes a 4-byte header
    assert_eq!(p1, 1);
    assert_eq!(p2, 1 + 1 + 0x7f);

    // reading past the end fails
    assert!(file.read_blob(file.len()).is_err());
}

#[test]
fn load_to_vec_pads_to_page_size() {
    let mut gate = Gate::new();
    let mut file = EphemeralFile::create(gate.enter());
    file.write_raw(&vec![1u8; 5000]);
    let all = file.load_to_vec();
    assert_eq!(all.len(), 8192);
    assert_eq!(&all[..5000], &vec![1u8; 5000][..]);
    assert!(all[5000..].iter().all(|b| *b == 0));

    // page reads: the tail page is zero-padded
    let page1 = file.read_blk(1);
    assert_eq!(page1.len(), 4096);
    assert_eq!(page1[903], 1);
    assert_eq!(page1[904], 0);
}

#[test]
fn ephemeral_file_name_recognition() {
    assert!(is_ephemeral_file("ephemeral-1"));
    assert!(is_ephemeral_file("ephemeral-4294967296"));
    assert!(is_ephemeral_file("ephemeral-18446744073709551615"));
    assert!(is_ephemeral_file("ephemeral-007"));
    assert!(!is_ephemeral_file("ephemeral-18446744073709551616"));
    assert!(!is_ephemeral_file("ephemeral-"));
    assert!(!is_ephemeral_file("ephemeral-12a"));
    assert!(!is_ephemeral_file("ephemeral-+42"));
    assert!(!is_ephemeral_file("ephemeral"));
    assert!(!is_ephemeral_file("delta-12"));
    assert!(!is_ephemeral_file(""));
}
