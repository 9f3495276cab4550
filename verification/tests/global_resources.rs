//! Dirty-byte accounting and the advisory freeze ceiling.

use pageserver::global_resources::{GlobalResourceUnits, GlobalResources, MAX_SIZE_DRIFT};

#[test]
fn publish_size_reconciles_and_returns_ceiling() {
    let mut res = GlobalResources::new(100);
    let mut a = GlobalResourceUnits::new(&mut res);
    let mut b = GlobalResourceUnits::new(&mut res);
    assert_eq!(res.dirty_layers(), 2);
    assert_eq!(res.dirty_bytes(), 0);

    // below the limit: no ceiling
    assert_eq!(a.publish_size(&mut res, 60), None);
    assert_eq!(res.dirty_bytes(), 60);

    // 60 + 90 = 150 > 100: ceiling is the average layer size
    assert_eq!(b.publish_size(&mut res, 90), Some(75));
    assert_eq!(res.dirty_bytes(), 150);

    // shrinking back below the limit clears the ceiling
    assert_eq!(a.publish_size(&mut res, 10), None);
    assert_eq!(res.dirty_bytes(), 100);

    // releasing takes each contribution back out
    a.release(&mut res);
    assert_eq!(res.dirty_bytes(), 90);
    assert_eq!(res.dirty_layers(), 1);
    b.release(&mut res);
    assert_eq!(res.dirty_bytes(), 0);
    assert_eq!(res.dirty_layers(), 0);
}

#[test]
fn zero_max_disables_the_ceiling() {
    let mut res = GlobalResources::new(0);
    let mut a = GlobalResourceUnits::new(&mut res);
    assert_eq!(a.publish_size(&mut res, u64::MAX / 2), None);
    a.release(&mut res);
}

#[test]
fn maybe_publish_respects_the_drift_threshold() {
    let mut res = GlobalResources::new(0);
    let mut a = GlobalResourceUnits::new(&mut res);

    // a drift at the threshold is not published
    a.maybe_publish_size(&mut res, MAX_SIZE_DRIFT);
    assert_eq!(res.dirty_bytes(), 0);

    // one past it is
    a.maybe_publish_size(&mut res, MAX_SIZE_DRIFT + 1);
    assert_eq!(res.dirty_bytes(), MAX_SIZE_DRIFT + 1);

    // shrinking drift below the threshold is ignored too
    a.maybe_publish_size(&mut res, 2);
    assert_eq!(res.dirty_bytes(), MAX_SIZE_DRIFT + 1);

    a.release(&mut res);
    assert_eq!(res.dirty_bytes(), 0);
}

#[test]
fn dirty_bytes_match_sum_of_contributions() {
    // the global counter always equals the sum of the last published
    // sizes of the open layers
    let mut res = GlobalResources::new(0);
    let mut units = Vec::new();
    for _ in 0..4 {
        units.push(GlobalResourceUnits::new(&mut res));
    }
    let sizes = [5u64, 17, 0, 100];
    let mut expected = 0u64;
    for (u, s) in units.iter_mut().zip(sizes.iter()) {
        u.publish_size(&mut res, *s);
        expected += *s;
        assert_eq!(res.dirty_bytes(), expected);
    }
    for u in units {
        u.release(&mut res);
    }
    assert_eq!(res.dirty_bytes(), 0);
}
