use chart_dedup::{Date, DedupState, Error, FoundFile, ScanOutcome};

fn file(key: &str, date: Date, path: &str) -> FoundFile {
    FoundFile { path: String::from(key), date, full_path: String::from(path) }
}

fn day(d: u8) -> Date {
    Date { year: 2023, month: 1, day: d }
}

#[test]
fn first_sighting_is_kept() {
    let mut s = DedupState::new();
    s.offer(file("A", day(1), "p1"));
    assert_eq!(s.keep_count(), 1);
    assert_eq!(s.remove_count(), 0);
    assert_eq!(s.keep_files()[0].full_path, "p1");
}

#[test]
fn later_date_replaces_earlier() {
    let mut s = DedupState::new();
    s.offer(file("A", day(1), "p1"));
    s.offer(file("A", day(2), "p2"));
    assert_eq!(s.keep_count(), 1);
    assert_eq!(s.keep_files()[0].full_path, "p2");
    assert_eq!(s.keep_files()[0].date, day(2));
    assert_eq!(s.remove_paths().as_slice(), ["p1"]);
}

#[test]
fn earlier_date_loses_on_arrival() {
    let mut s = DedupState::new();
    s.offer(file("A", day(2), "p2"));
    s.offer(file("A", day(1), "p1"));
    assert_eq!(s.keep_count(), 1);
    assert_eq!(s.keep_files()[0].full_path, "p2");
    assert_eq!(s.remove_paths().as_slice(), ["p1"]);
}

#[test]
fn winner_does_not_depend_on_arrival_order() {
    for order in [[1u8, 2u8], [2u8, 1u8]] {
        let mut s = DedupState::new();
        for d in order {
            let path = format!("p{d}");
            s.offer(file("A", day(d), &path));
        }
        assert_eq!(s.keep_count(), 1);
        assert_eq!(s.keep_files()[0].full_path, "p2");
        assert_eq!(s.remove_paths().as_slice(), ["p1"]);
    }
}

#[test]
fn equal_dates_keep_first_seen() {
    let mut s = DedupState::new();
    s.offer(file("A", day(5), "first"));
    s.offer(file("A", day(5), "second"));
    assert_eq!(s.keep_count(), 1);
    assert_eq!(s.keep_files()[0].full_path, "first");
    assert_eq!(s.remove_paths().as_slice(), ["second"]);
}

#[test]
fn different_groups_do_not_interact() {
    let mut s = DedupState::new();
    s.offer(file("A", day(1), "pa"));
    s.offer(file("B", day(1), "pb"));
    assert_eq!(s.keep_count(), 2);
    assert_eq!(s.remove_count(), 0);
}

#[test]
fn example_scenario() {
    let mut s = DedupState::new();
    assert!(matches!(s.process_path("A_20230101_1200_TIF"), Ok(ScanOutcome::Recorded)));
    assert!(matches!(s.process_path("A_20230215_0900_TIF"), Ok(ScanOutcome::Recorded)));
    assert!(matches!(s.process_path("B_20230101_1200_TIF"), Ok(ScanOutcome::Recorded)));
    assert_eq!(s.keep_count(), 2);
    assert_eq!(s.remove_count(), 1);
    let keep = s.keep_files();
    assert_eq!(keep[0].path, "A");
    assert_eq!(keep[0].date, Date { year: 2023, month: 2, day: 15 });
    assert_eq!(keep[0].full_path, "A_20230215_0900_TIF");
    assert_eq!(keep[1].path, "B");
    assert_eq!(keep[1].date, Date { year: 2023, month: 1, day: 1 });
    assert_eq!(s.remove_paths().as_slice(), ["A_20230101_1200_TIF"]);
}

#[test]
fn skipped_path_touches_nothing() {
    let mut s = DedupState::new();
    assert!(matches!(s.process_path("plainname"), Ok(ScanOutcome::Skipped)));
    assert!(matches!(s.process_path("A_20230101"), Ok(ScanOutcome::Skipped)));
    assert_eq!(s.keep_count(), 0);
    assert_eq!(s.remove_count(), 0);
}

#[test]
fn bad_date_aborts_and_leaves_state() {
    let mut s = DedupState::new();
    assert!(matches!(s.process_path("A_20230101_1200_TIF"), Ok(ScanOutcome::Recorded)));
    let r = s.process_path("B_2023-99-99_1200_TIF");
    assert!(matches!(r, Err(Error::FormatError(_))));
    assert_eq!(s.keep_count(), 1);
    assert_eq!(s.remove_count(), 0);
}

#[test]
fn walk_partitions_parsed_files() {
    let paths = [
        "A_20230101_1200_TIF",
        "A_20230215_0900_TIF",
        "B_20230101_1200_TIF",
        "B_20221231_0800_TIF",
        "C_20230601_1000_TIF",
        "skipped_name",
    ];
    let mut s = DedupState::new();
    let mut parsed: Vec<&str> = Vec::new();
    for p in paths {
        match s.process_path(p) {
            Ok(ScanOutcome::Recorded) => parsed.push(p),
            Ok(ScanOutcome::Skipped) => {}
            Err(e) => panic!("unexpected error {e:?}"),
        }
    }
    let kept: Vec<String> = s.keep_files().iter().map(|f| f.full_path.clone()).collect();
    let removed: Vec<String> = s.remove_paths().clone();
    // disjoint
    for k in &kept {
        assert!(!removed.contains(k));
    }
    // union covers exactly the parsed files
    for p in &parsed {
        let p = String::from(*p);
        assert!(kept.contains(&p) || removed.contains(&p));
    }
    assert_eq!(kept.len() + removed.len(), parsed.len());
    // the kept file of each group is the latest-dated one
    assert_eq!(s.keep_count(), 3);
    assert_eq!(s.remove_count(), 2);
}

#[test]
fn removal_order_is_sorted() {
    let mut s = DedupState::new();
    s.offer(file("A", day(9), "keep"));
    s.offer(file("A", day(1), "zebra"));
    s.offer(file("A", day(2), "alpha"));
    s.offer(file("A", day(3), "mike"));
    assert_eq!(s.remove_paths().as_slice(), ["zebra", "alpha", "mike"]);
    assert_eq!(s.sorted_remove_paths().as_slice(), ["alpha", "mike", "zebra"]);
}

#[test]
fn duplicate_path_is_not_removed_twice() {
    let mut s = DedupState::new();
    s.offer(file("A", day(2), "keeper"));
    s.offer(file("A", day(1), "loser"));
    s.offer(file("A", day(1), "loser"));
    assert_eq!(s.remove_count(), 1);
    assert_eq!(s.remove_paths().as_slice(), ["loser"]);
}
