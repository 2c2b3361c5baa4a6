use findme::traversal::{EntryKind, Traversal};
use findme::{Direction, WalkError};

fn result_keys(results: &Vec<findme::ranking::RankedEntry>) -> Vec<u128> {
    let mut out = Vec::new();
    for e in results {
        out.push(e.key);
    }
    out
}

#[test]
fn largest_two_of_four_files() {
    // A root directory holding files of sizes {10, 5, 20, 5} bytes,
    // subject files, op largest, count 2.
    let mut t = Traversal::new(
        2,
        Direction::GreaterIsBetter,
        true,
        false,
        false,
        false,
        0,
        vec!["root".to_string()],
    );
    let item = t.next_dir().unwrap();
    assert_eq!(item.path, "root");
    assert_eq!(item.depth, 0);
    for (p, sz) in [("root/a", 10u128), ("root/b", 5), ("root/c", 20), ("root/d", 5)] {
        t.handle_entry(p.to_string(), item.depth, EntryKind::File, Some(sz)).unwrap();
    }
    assert!(t.next_dir().is_none());
    let (files_checked, dirs_checked, results) = t.finish();
    assert_eq!(files_checked, 4);
    assert_eq!(dirs_checked, 0);
    assert_eq!(result_keys(&results), vec![20, 10]);
}

#[test]
fn smallest_three_of_four_files() {
    // The same directory with op smallest, count 3: both 5-byte entries
    // are kept, in discovery order.
    let mut t = Traversal::new(
        3,
        Direction::LesserIsBetter,
        true,
        false,
        false,
        false,
        0,
        vec!["root".to_string()],
    );
    let item = t.next_dir().unwrap();
    for (p, sz) in [("root/a", 10u128), ("root/b", 5), ("root/c", 20), ("root/d", 5)] {
        t.handle_entry(p.to_string(), item.depth, EntryKind::File, Some(sz)).unwrap();
    }
    let (_, _, results) = t.finish();
    assert_eq!(result_keys(&results), vec![5, 5, 10]);
    assert_eq!(results[0].path, "root/b");
    assert_eq!(results[1].path, "root/d");
    assert_eq!(results[2].path, "root/a");
}

#[test]
fn unreadable_directory_mid_walk_is_isolated() {
    // Two roots; the one visited first cannot be opened. The failure is
    // reported once and costs neither counters nor the other root.
    let mut t = Traversal::new(
        2,
        Direction::GreaterIsBetter,
        true,
        false,
        false,
        false,
        0,
        vec!["good".to_string(), "bad".to_string()],
    );
    // Roots pop last-pushed-first.
    let first = t.next_dir().unwrap();
    assert_eq!(first.path, "bad");
    // Opening it fails; the application reports and moves on.
    let report = WalkError::DirUnreadable(first.path);
    assert!(matches!(report, WalkError::DirUnreadable(p) if p == "bad"));
    let second = t.next_dir().unwrap();
    assert_eq!(second.path, "good");
    t.handle_entry("good/a".to_string(), second.depth, EntryKind::File, Some(7)).unwrap();
    assert!(t.next_dir().is_none());
    let (files_checked, dirs_checked, results) = t.finish();
    assert_eq!(files_checked, 1);
    assert_eq!(dirs_checked, 0);
    assert_eq!(result_keys(&results), vec![7]);
}

#[test]
fn depth_ceiling_zero_never_descends() {
    let mut t = Traversal::new(
        1,
        Direction::GreaterIsBetter,
        true,
        false,
        true,
        false,
        0,
        vec!["root".to_string()],
    );
    let item = t.next_dir().unwrap();
    // A subdirectory is counted but not scheduled: depth 0 is the ceiling.
    t.handle_entry("root/sub".to_string(), item.depth, EntryKind::Dir, Some(0)).unwrap();
    t.handle_entry("root/f".to_string(), item.depth, EntryKind::File, Some(3)).unwrap();
    assert!(t.next_dir().is_none());
    let (files_checked, dirs_checked, _) = t.finish();
    assert_eq!(files_checked, 1);
    assert_eq!(dirs_checked, 1);
}

#[test]
fn depth_ceiling_one_descends_one_level_only() {
    let mut t = Traversal::new(
        1,
        Direction::GreaterIsBetter,
        true,
        false,
        true,
        false,
        1,
        vec!["root".to_string()],
    );
    let root = t.next_dir().unwrap();
    t.handle_entry("root/sub".to_string(), root.depth, EntryKind::Dir, Some(0)).unwrap();
    let sub = t.next_dir().unwrap();
    assert_eq!(sub.path, "root/sub");
    assert_eq!(sub.depth, 1);
    // One level down the ceiling is reached: no further scheduling.
    t.handle_entry("root/sub/deeper".to_string(), sub.depth, EntryKind::Dir, Some(0)).unwrap();
    assert!(t.next_dir().is_none());
}

#[test]
fn non_recursive_walk_never_descends() {
    let mut t = Traversal::new(
        1,
        Direction::GreaterIsBetter,
        true,
        false,
        false,
        false,
        5,
        vec!["root".to_string()],
    );
    let root = t.next_dir().unwrap();
    t.handle_entry("root/sub".to_string(), root.depth, EntryKind::Dir, Some(0)).unwrap();
    assert!(t.next_dir().is_none());
}

#[test]
fn directories_are_ranked_when_selected() {
    let mut t = Traversal::new(
        2,
        Direction::GreaterIsBetter,
        false,
        true,
        false,
        false,
        0,
        vec!["root".to_string()],
    );
    let root = t.next_dir().unwrap();
    t.handle_entry("root/f".to_string(), root.depth, EntryKind::File, Some(100)).unwrap();
    t.handle_entry("root/d1".to_string(), root.depth, EntryKind::Dir, Some(30)).unwrap();
    t.handle_entry("root/d2".to_string(), root.depth, EntryKind::Dir, Some(40)).unwrap();
    let (files_checked, dirs_checked, results) = t.finish();
    // The file is counted but not ranked: files are not selected.
    assert_eq!(files_checked, 1);
    assert_eq!(dirs_checked, 2);
    assert_eq!(result_keys(&results), vec![40, 30]);
}

#[test]
fn other_entry_kinds_are_neither_counted_nor_ranked() {
    let mut t = Traversal::new(
        1,
        Direction::GreaterIsBetter,
        true,
        true,
        false,
        false,
        0,
        vec!["root".to_string()],
    );
    let root = t.next_dir().unwrap();
    t.handle_entry("root/socket".to_string(), root.depth, EntryKind::Other, Some(9)).unwrap();
    let (files_checked, dirs_checked, results) = t.finish();
    assert_eq!(files_checked, 0);
    assert_eq!(dirs_checked, 0);
    assert!(results.is_empty());
}

#[test]
fn metric_failure_mid_walk_skips_only_that_candidate() {
    let mut t = Traversal::new(
        2,
        Direction::GreaterIsBetter,
        true,
        false,
        false,
        false,
        0,
        vec!["root".to_string()],
    );
    let root = t.next_dir().unwrap();
    t.handle_entry("root/a".to_string(), root.depth, EntryKind::File, Some(1)).unwrap();
    let err = t
        .handle_entry("root/b".to_string(), root.depth, EntryKind::File, None)
        .unwrap_err();
    assert!(matches!(err, WalkError::MetricUnavailable(p) if p == "root/b"));
    t.handle_entry("root/c".to_string(), root.depth, EntryKind::File, Some(2)).unwrap();
    let (files_checked, _, results) = t.finish();
    // The failed candidate is still counted as examined, as the walk saw it.
    assert_eq!(files_checked, 3);
    assert_eq!(result_keys(&results), vec![2, 1]);
}
