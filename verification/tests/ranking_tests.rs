use findme::ranking::{RankedEntry, Ranking};
use findme::{Direction, WalkError};

fn keys(results: &Vec<RankedEntry>) -> Vec<u128> {
    let mut out = Vec::new();
    for e in results {
        out.push(e.key);
    }
    out
}

#[test]
fn keeps_the_largest_two() {
    let mut r = Ranking::new(2, Direction::GreaterIsBetter);
    for (p, k) in [("a", 10u128), ("b", 5), ("c", 20), ("d", 5)] {
        r.consider(p.to_string(), Some(k)).unwrap();
    }
    let out = r.finish();
    assert_eq!(keys(&out), vec![20, 10]);
    assert_eq!(out[0].path, "c");
    assert_eq!(out[1].path, "a");
}

#[test]
fn keeps_the_smallest_three_with_ties_in_discovery_order() {
    let mut r = Ranking::new(3, Direction::LesserIsBetter);
    for (p, k) in [("a", 10u128), ("b", 5), ("c", 20), ("d", 5)] {
        r.consider(p.to_string(), Some(k)).unwrap();
    }
    let out = r.finish();
    assert_eq!(keys(&out), vec![5, 5, 10]);
    assert_eq!(out[0].path, "b");
    assert_eq!(out[1].path, "d");
    assert_eq!(out[2].path, "a");
}

#[test]
fn capacity_one_keeps_the_single_best() {
    let mut r = Ranking::new(1, Direction::GreaterIsBetter);
    for k in [3u128, 9, 1, 9, 7] {
        r.consider(format!("p{}", k), Some(k)).unwrap();
    }
    let out = r.finish();
    assert_eq!(keys(&out), vec![9]);
    // The first-seen entry with the best key is the one kept.
    assert_eq!(out[0].path, "p9");
}

#[test]
fn capacity_one_with_no_candidates_keeps_nothing() {
    let r = Ranking::new(1, Direction::LesserIsBetter);
    let out = r.finish();
    assert!(out.is_empty());
}

#[test]
fn kept_keys_do_not_depend_on_arrival_order() {
    let forward = [4u128, 8, 15, 16, 23, 42, 8];
    let mut shuffled = forward;
    shuffled.reverse();
    let mut r1 = Ranking::new(3, Direction::GreaterIsBetter);
    for k in forward {
        r1.consider(format!("f{}", k), Some(k)).unwrap();
    }
    let mut r2 = Ranking::new(3, Direction::GreaterIsBetter);
    for k in shuffled {
        r2.consider(format!("s{}", k), Some(k)).unwrap();
    }
    let k1 = keys(&r1.finish());
    let k2 = keys(&r2.finish());
    // The displayed order is fixed by the direction, so the sorted
    // sequences agree outright.
    assert_eq!(k1, vec![42, 23, 16]);
    assert_eq!(k2, vec![42, 23, 16]);
}

#[test]
fn result_is_sorted_and_never_longer_than_capacity() {
    let mut r = Ranking::new(4, Direction::LesserIsBetter);
    for (i, k) in [50u128, 20, 90, 20, 10, 60, 30].iter().enumerate() {
        r.consider(format!("p{}", i), Some(*k)).unwrap();
    }
    let out = r.finish();
    assert_eq!(keys(&out), vec![10, 20, 20, 30]);
}

#[test]
fn fewer_candidates_than_capacity_keeps_them_all() {
    let mut r = Ranking::new(10, Direction::GreaterIsBetter);
    for k in [2u128, 7, 5] {
        r.consider(format!("p{}", k), Some(k)).unwrap();
    }
    let out = r.finish();
    assert_eq!(keys(&out), vec![7, 5, 2]);
}

#[test]
fn missing_metric_is_reported_and_skipped() {
    let mut r = Ranking::new(2, Direction::GreaterIsBetter);
    r.consider("ok".to_string(), Some(1)).unwrap();
    let err = r.consider("broken".to_string(), None).unwrap_err();
    assert!(matches!(err, WalkError::MetricUnavailable(p) if p == "broken"));
    // The failed candidate mutated nothing.
    let out = r.finish();
    assert_eq!(keys(&out), vec![1]);
    assert_eq!(out[0].path, "ok");
}

#[test]
fn equal_keys_beyond_capacity_are_dropped() {
    let mut r = Ranking::new(2, Direction::GreaterIsBetter);
    for (p, k) in [("first", 5u128), ("second", 5), ("third", 5)] {
        r.consider(p.to_string(), Some(k)).unwrap();
    }
    let out = r.finish();
    assert_eq!(keys(&out), vec![5, 5]);
    assert_eq!(out[0].path, "first");
    assert_eq!(out[1].path, "second");
}
