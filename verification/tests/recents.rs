use boot_workspace::recents::{
    infer_status, list, load, load_at, normalize_path, prune, remove, sort_items, touch, touch_at,
    Listing, Observed, RecentStatus, RecentWorkspace, Stored, Timestamp, MAX_RECENT,
};

fn at(secs: i64) -> Timestamp {
    Timestamp { secs, nanos: 0 }
}

fn record(path: &str, secs: i64, pinned: bool) -> RecentWorkspace {
    RecentWorkspace {
        path: path.to_string(),
        last_opened_at: at(secs),
        pinned,
        last_status: RecentStatus::Okay,
        node_count: None,
        locale: None,
    }
}

fn paths(items: &[RecentWorkspace]) -> Vec<&str> {
    items.iter().map(|r| r.path.as_str()).collect()
}

fn seen(record: RecentWorkspace, root_exists: bool, state_db_exists: bool) -> Observed {
    Observed { record, root_exists, state_db_exists }
}

#[test]
fn limit_is_ten() {
    assert_eq!(MAX_RECENT, 10);
}

#[test]
fn ledger_key_exact_values() {
    assert_eq!(normalize_path("\\\\?\\C:\\Work\\Space"), "c:\\work\\space");
    assert_eq!(normalize_path("  c:/work/SPACE \n"), "c:\\work\\space");
    assert_eq!(normalize_path("[C:]\\x"), "[c:]\\x");
    assert_eq!(normalize_path(""), "");
}

#[test]
fn later_than_orders_by_seconds_then_nanoseconds() {
    let a = Timestamp { secs: 5, nanos: 1 };
    let b = Timestamp { secs: 5, nanos: 2 };
    let c = Timestamp { secs: 6, nanos: 0 };
    let d = Timestamp { secs: -1, nanos: 999_999_999 };
    assert!(b.is_later_than(&a));
    assert!(!a.is_later_than(&b));
    assert!(c.is_later_than(&b));
    assert!(!a.is_later_than(&a));
    assert!(a.is_later_than(&d));
}

#[test]
fn sorts_pinned_first_then_latest_first() {
    let mut items = vec![
        record("a", 10, false),
        record("b", 30, false),
        record("c", 5, true),
        record("d", 20, false),
        record("e", 7, true),
    ];
    sort_items(&mut items);
    assert_eq!(paths(&items), vec!["e", "c", "b", "d", "a"]);
}

#[test]
fn sort_keeps_the_order_of_ties() {
    let mut items = vec![
        record("first", 10, false),
        record("second", 10, false),
        record("newer", 11, false),
        record("third", 10, false),
    ];
    sort_items(&mut items);
    assert_eq!(paths(&items), vec!["newer", "first", "second", "third"]);
}

#[test]
fn touching_twice_leaves_one_record_with_the_later_status() {
    let mut items = Vec::new();
    touch_at(&mut items, "C:\\Work", RecentStatus::Okay, None, None, at(100));
    touch_at(&mut items, "\\\\?\\c:/work", RecentStatus::MissingRoot, None, None, at(200));
    assert_eq!(items.len(), 1);
    assert_eq!(items[0].last_status, RecentStatus::MissingRoot);
    assert_eq!(items[0].last_opened_at, at(200));
    assert_eq!(items[0].path, "\\\\?\\c:/work");
    assert!(!items[0].pinned);
}

#[test]
fn touching_keeps_what_is_not_given() {
    let mut items = vec![RecentWorkspace {
        path: "C:\\Work".to_string(),
        last_opened_at: at(1),
        pinned: true,
        last_status: RecentStatus::InitFailed,
        node_count: Some(4),
        locale: Some("en".to_string()),
    }];
    touch_at(&mut items, "c:\\work", RecentStatus::Okay, None, None, at(2));
    assert_eq!(items.len(), 1);
    assert_eq!(items[0].node_count, Some(4));
    assert_eq!(items[0].locale, Some("en".to_string()));
    assert!(items[0].pinned);
    assert_eq!(items[0].last_status, RecentStatus::Okay);
    touch_at(&mut items, "c:\\work", RecentStatus::Okay, Some("de".to_string()), Some(9), at(3));
    assert_eq!(items[0].node_count, Some(9));
    assert_eq!(items[0].locale, Some("de".to_string()));
    assert_eq!(items[0].last_opened_at, at(3));
}

#[test]
fn touching_a_new_workspace_adds_an_unpinned_record_in_front() {
    let mut items = vec![record("a", 10, false), record("p", 1, true)];
    touch_at(&mut items, "b", RecentStatus::Okay, Some("fr".to_string()), Some(2), at(50));
    assert_eq!(paths(&items), vec!["p", "b", "a"]);
    assert_eq!(items[1].locale, Some("fr".to_string()));
    assert_eq!(items[1].node_count, Some(2));
    assert!(!items[1].pinned);
}

#[test]
fn touching_renews_the_first_of_two_records_with_one_key() {
    let mut items = vec![record("C:\\w", 10, false), record("c:/W", 20, false)];
    touch_at(&mut items, "c:\\w", RecentStatus::MissingStateDb, None, None, at(5));
    assert_eq!(items.len(), 2);
    assert_eq!(paths(&items), vec!["c:/W", "c:\\w"]);
    assert_eq!(items[1].last_status, RecentStatus::MissingStateDb);
    assert_eq!(items[0].last_status, RecentStatus::Okay);
}

#[test]
fn eleven_unpinned_records_lose_the_oldest() {
    let mut items: Vec<RecentWorkspace> =
        (0..11).map(|i| record(&format!("w{i}"), 100 + ((i * 7) % 11), false)).collect();
    prune(&mut items);
    assert_eq!(items.len(), 10);
    assert!(items.iter().all(|r| r.path != "w0"));
    assert_eq!(items[0].path, "w3");
    assert_eq!(items[9].last_opened_at, at(101));
}

#[test]
fn eleven_unpinned_records_are_ten_after_a_touch() {
    let mut items: Vec<RecentWorkspace> =
        (0..11).map(|i| record(&format!("w{i}"), 100 + i, false)).collect();
    touch_at(&mut items, "w5", RecentStatus::Okay, None, None, at(500));
    assert_eq!(items.len(), 10);
    assert_eq!(items[0].path, "w5");
    assert!(items.iter().all(|r| r.path != "w0"));
    assert_eq!(items[9].path, "w1");
}

#[test]
fn eleven_pinned_records_all_stay() {
    let mut items: Vec<RecentWorkspace> =
        (0..11).map(|i| record(&format!("w{i}"), 100 + i, true)).collect();
    prune(&mut items);
    assert_eq!(items.len(), 11);
    assert_eq!(items[0].path, "w10");
    assert_eq!(items[10].path, "w0");
}

#[test]
fn pruning_leaves_a_collection_within_the_limit_alone() {
    let mut items = vec![record("a", 1, false), record("b", 2, false), record("c", 3, true)];
    prune(&mut items);
    assert_eq!(paths(&items), vec!["a", "b", "c"]);
}

#[test]
fn pruning_drops_unpinned_records_only() {
    let mut items: Vec<RecentWorkspace> =
        (0..9).map(|i| record(&format!("p{i}"), i, true)).collect();
    items.push(record("u1", 1000, false));
    items.push(record("u2", 2000, false));
    items.push(record("u3", 3000, false));
    prune(&mut items);
    assert_eq!(items.len(), 10);
    assert_eq!(items.iter().filter(|r| r.pinned).count(), 9);
    assert_eq!(items[9].path, "u3");
}

#[test]
fn a_new_workspace_leaves_at_once_where_ten_are_pinned() {
    let mut items: Vec<RecentWorkspace> =
        (0..10).map(|i| record(&format!("p{i}"), i, true)).collect();
    touch_at(&mut items, "new", RecentStatus::Okay, None, None, at(9999));
    assert_eq!(items.len(), 10);
    assert!(items.iter().all(|r| r.pinned));
}

#[test]
fn removing_takes_every_record_of_the_key() {
    let mut items = vec![
        record("C:\\w", 10, false),
        record("d:\\other", 30, false),
        record("\\\\?\\c:/W", 20, true),
    ];
    remove(&mut items, " c:\\W ");
    assert_eq!(paths(&items), vec!["d:\\other"]);
}

#[test]
fn removing_what_is_not_there_only_sorts() {
    let mut items = vec![record("a", 10, false), record("b", 30, false)];
    remove(&mut items, "zzz");
    assert_eq!(paths(&items), vec!["b", "a"]);
    let mut none: Vec<RecentWorkspace> = Vec::new();
    remove(&mut none, "zzz");
    assert!(none.is_empty());
}

#[test]
fn status_is_inferred_from_what_exists() {
    let mut r = record("a", 1, false);
    assert_eq!(infer_status(&r, false, false), RecentStatus::MissingRoot);
    assert_eq!(infer_status(&r, false, true), RecentStatus::MissingRoot);
    assert_eq!(infer_status(&r, true, false), RecentStatus::MissingStateDb);
    assert_eq!(infer_status(&r, true, true), RecentStatus::Okay);
    r.last_status = RecentStatus::InitFailed;
    assert_eq!(infer_status(&r, true, true), RecentStatus::InitFailed);
    r.last_status = RecentStatus::MissingRoot;
    assert_eq!(infer_status(&r, true, true), RecentStatus::MissingRoot);
}

#[test]
fn listing_refreshes_and_sorts() {
    let observed = vec![
        seen(record("gone", 10, false), false, false),
        seen(record("half", 30, false), true, false),
        seen(record("fine", 20, true), true, true),
    ];
    let Listing { items, changed } = list(observed);
    assert!(changed);
    assert_eq!(paths(&items), vec!["fine", "half", "gone"]);
    assert_eq!(items[0].last_status, RecentStatus::Okay);
    assert_eq!(items[1].last_status, RecentStatus::MissingStateDb);
    assert_eq!(items[2].last_status, RecentStatus::MissingRoot);
}

#[test]
fn listing_reports_no_change_where_nothing_changed() {
    let mut gone = record("gone", 10, false);
    gone.last_status = RecentStatus::MissingRoot;
    let observed = vec![seen(gone, false, false), seen(record("fine", 20, false), true, true)];
    let listing = list(observed);
    assert!(!listing.changed);
    assert_eq!(paths(&listing.items), vec!["fine", "gone"]);
    assert_eq!(listing.items[1].last_status, RecentStatus::MissingRoot);
}

#[test]
fn a_cleared_ledger_lists_empty() {
    let items = load_at(Stored::Missing, at(5));
    assert!(items.is_empty());
    let observed: Vec<Observed> = items.into_iter().map(|r| seen(r, true, true)).collect();
    let listing = list(observed);
    assert!(listing.items.is_empty());
    assert!(!listing.changed);
}

#[test]
fn an_unreadable_ledger_loads_empty() {
    assert!(load_at(Stored::Unparseable, at(5)).is_empty());
    assert!(load(Stored::Unparseable).is_empty());
    assert!(load(Stored::Missing).is_empty());
}

#[test]
fn loading_repairs_the_epoch() {
    let stored = Stored::Records(vec![
        record("a", 0, false),
        record("b", 7, true),
        RecentWorkspace { last_opened_at: Timestamp { secs: 0, nanos: 1 }, ..record("c", 0, false) },
    ]);
    let items = load_at(stored, at(1234));
    assert_eq!(paths(&items), vec!["a", "b", "c"]);
    assert_eq!(items[0].last_opened_at, at(1234));
    assert_eq!(items[1].last_opened_at, at(7));
    assert_eq!(items[2].last_opened_at, Timestamp { secs: 0, nanos: 1 });
    assert!(items[1].pinned);
}

#[test]
fn loading_reads_the_clock_for_a_lost_time() {
    let items = load(Stored::Records(vec![record("a", 0, false), record("b", 7, false)]));
    assert_eq!(items.len(), 2);
    assert!(items[0].last_opened_at.secs > 1_600_000_000);
    assert!(items[0].last_opened_at.nanos < 2_000_000_000);
    assert_eq!(items[1].last_opened_at, at(7));
}

#[test]
fn touching_reads_the_clock() {
    let mut items = vec![record("old", 1_000_000_000, false)];
    touch(&mut items, "new", RecentStatus::InitFailed, None, Some(3));
    assert_eq!(paths(&items), vec!["new", "old"]);
    assert!(items[0].last_opened_at.secs > 1_600_000_000);
    assert_eq!(items[0].last_status, RecentStatus::InitFailed);
    assert_eq!(items[0].node_count, Some(3));
}
