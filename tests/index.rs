use niko::config::NiKoDbConfig;
use niko::entry::{CreateOrUpdate, Entry, FileStat};
use niko::scan::{is_stale, may_need_scanning, needs_rescan, scan, ScanError, KEY_WALKING_DIR};
use niko::store::{
    create, create_key, create_or_update, delete_by_parent, delete_by_path, fetch_by_id,
    fetch_one_by_path, find_key_updated_at, paged_fetch, update_by_id, update_key, EntryStore,
    StoreError,
};
use niko::watch::{process_event, EventKind, EventPath, FsEvent, RemoveKind};

const HOUR: i64 = 3600;

fn file(len: u64) -> FileStat {
    FileStat { is_dir: false, len, mode: 0o644, created: 100, modified: 200 }
}

fn dir() -> FileStat {
    FileStat { is_dir: true, len: 4096, mode: 0o755, created: 100, modified: 200 }
}

fn entry(parent: &str, name: &str, stat: FileStat) -> Entry {
    Entry::from_metadata(stat, parent.to_string(), name.to_string())
}

fn path(parent: &str, name: &str, stat: Option<FileStat>) -> EventPath {
    EventPath { parent: parent.to_string(), name: name.to_string(), stat }
}

fn s(x: &str) -> String {
    x.to_string()
}

#[test]
fn db_url_has_every_part() {
    let c = NiKoDbConfig::new(s("localhost"), 3306, s("root"), s("pw"), s("mysql"), s("niko"));
    assert_eq!(c.db_url(), "mysql://root:pw@localhost:3306/niko");
    assert_eq!(c.db_type(), "mysql");
}

#[test]
fn db_url_port_zero_and_large() {
    let c = NiKoDbConfig::new(s("h"), 0, s("u"), s("p"), s("t"), s("d"));
    assert_eq!(c.db_url(), "t://u:p@h:0/d");
    let c = NiKoDbConfig::new(s("h"), 4294967295, s("u"), s("p"), s("t"), s("d"));
    assert_eq!(c.db_url(), "t://u:p@h:4294967295/d");
}

#[test]
fn from_metadata_directory_has_size_zero() {
    let d = entry("/root", "sub", dir());
    assert_eq!(d.size, 0);
    assert!(d.is_dir);
    assert_eq!(d.permission, 0o755);
    let f = entry("/root", "a.txt", file(10));
    assert_eq!(f.size, 10);
    assert_eq!(f.id, 0);
    assert_eq!(f.created_at, 100);
    assert_eq!(f.updated_at, 200);
    assert_eq!(f.deleted_at, None);
}

#[test]
fn full_path_joins_with_one_separator() {
    assert_eq!(entry("/root", "a.txt", file(1)).full_path(), "/root/a.txt");
    assert_eq!(entry("/", "a", file(1)).full_path(), "/a");
    assert_eq!(entry("", "a", file(1)).full_path(), "a");
}

#[test]
fn create_assigns_ids_and_refuses_a_second_live_row() {
    let mut st = EntryStore::new();
    assert_eq!(create(&mut st, entry("/r", "a", file(1))), Ok(1));
    assert_eq!(create(&mut st, entry("/r", "b", file(1))), Ok(2));
    assert_eq!(create(&mut st, entry("/r", "a", file(5))), Err(StoreError::Duplicate));
    let a = fetch_one_by_path(&st, &s("/r"), &s("a")).unwrap();
    assert_eq!(a.id, 1);
    assert_eq!(a.size, 1);
    assert_eq!(fetch_by_id(&st, 2).unwrap().name, "b");
    assert_eq!(fetch_by_id(&st, 3).unwrap_err(), StoreError::RowNotFound);
    assert_eq!(fetch_by_id(&st, 0).unwrap_err(), StoreError::RowNotFound);
    assert_eq!(fetch_one_by_path(&st, &s("/r"), &s("c")).unwrap_err(), StoreError::RowNotFound);
}

#[test]
fn update_by_id_reports_affected_rows() {
    let mut st = EntryStore::new();
    create(&mut st, entry("/r", "a", file(1))).unwrap();
    create(&mut st, entry("/r", "b", file(1))).unwrap();
    let mut e = entry("/r", "a", file(7));
    e.id = 1;
    assert_eq!(update_by_id(&mut st, e), Ok(1));
    assert_eq!(fetch_by_id(&st, 1).unwrap().size, 7);
    let mut missing = entry("/r", "z", file(7));
    missing.id = 9;
    assert_eq!(update_by_id(&mut st, missing), Ok(0));
    let mut clash = entry("/r", "b", file(7));
    clash.id = 1;
    assert_eq!(update_by_id(&mut st, clash), Err(StoreError::Duplicate));
    assert_eq!(fetch_by_id(&st, 1).unwrap().name, "a");
}

#[test]
fn create_or_update_creates_then_updates_same_row() {
    let mut st = EntryStore::new();
    assert_eq!(create_or_update(&mut st, entry("/r", "a", file(1))), Ok(CreateOrUpdate::Create(1)));
    assert_eq!(create_or_update(&mut st, entry("/r", "a", file(2))), Ok(CreateOrUpdate::Update(1)));
    let page = paged_fetch(&st, 1, 10);
    assert_eq!(page.len(), 1);
    assert_eq!(page[0].id, 1);
    assert_eq!(page[0].size, 2);
}

#[test]
fn create_then_modify_notifications_keep_one_row() {
    let mut st = EntryStore::new();
    let create_ev = FsEvent { kind: EventKind::Create, paths: vec![path("/r", "a", Some(file(3)))] };
    process_event(&mut st, &create_ev, 1000).unwrap();
    let id = fetch_one_by_path(&st, &s("/r"), &s("a")).unwrap().id;
    let modify_ev = FsEvent { kind: EventKind::Modify, paths: vec![path("/r", "a", Some(file(9)))] };
    process_event(&mut st, &modify_ev, 1001).unwrap();
    let row = fetch_one_by_path(&st, &s("/r"), &s("a")).unwrap();
    assert_eq!(row.id, id);
    assert_eq!(row.size, 9);
    assert_eq!(paged_fetch(&st, 1, 10).len(), 1);
}

#[test]
fn unreadable_path_is_skipped() {
    let mut st = EntryStore::new();
    let ev = FsEvent {
        kind: EventKind::Create,
        paths: vec![path("/r", "gone", None), path("/r", "b", Some(file(1)))],
    };
    assert_eq!(process_event(&mut st, &ev, 5), Ok(()));
    assert!(fetch_one_by_path(&st, &s("/r"), &s("gone")).is_err());
    assert!(fetch_one_by_path(&st, &s("/r"), &s("b")).is_ok());
}

#[test]
fn remove_file_soft_deletes_and_hides_row() {
    let mut st = EntryStore::new();
    create(&mut st, entry("/r", "a", file(1))).unwrap();
    let ev = FsEvent { kind: EventKind::Remove(RemoveKind::File), paths: vec![path("/r", "a", None)] };
    process_event(&mut st, &ev, 77).unwrap();
    assert_eq!(fetch_one_by_path(&st, &s("/r"), &s("a")).unwrap_err(), StoreError::RowNotFound);
    assert!(paged_fetch(&st, 1, 10).is_empty());
    assert_eq!(fetch_by_id(&st, 1).unwrap_err(), StoreError::RowNotFound);
    assert_eq!(delete_by_path(&mut st, &s("/r"), &s("a"), 78), 0);
}

#[test]
fn remove_of_unindexed_path_is_a_no_op() {
    let mut st = EntryStore::new();
    create(&mut st, entry("/r", "a", file(1))).unwrap();
    let ev = FsEvent { kind: EventKind::Remove(RemoveKind::File), paths: vec![path("/r", "x", None)] };
    assert_eq!(process_event(&mut st, &ev, 77), Ok(()));
    assert_eq!(paged_fetch(&st, 1, 10).len(), 1);
}

#[test]
fn recreate_after_delete_gives_fresh_live_row() {
    let mut st = EntryStore::new();
    create(&mut st, entry("/r", "a", file(1))).unwrap();
    assert_eq!(delete_by_path(&mut st, &s("/r"), &s("a"), 50), 1);
    assert_eq!(create_or_update(&mut st, entry("/r", "a", file(4))), Ok(CreateOrUpdate::Create(2)));
    let row = fetch_one_by_path(&st, &s("/r"), &s("a")).unwrap();
    assert_eq!(row.id, 2);
    assert_eq!(row.deleted_at, None);
}

#[test]
fn remove_folder_cascades_to_direct_children_only() {
    let mut st = EntryStore::new();
    create(&mut st, entry("/r", "sub", dir())).unwrap();
    create(&mut st, entry("/r/sub", "x", file(1))).unwrap();
    create(&mut st, entry("/r/sub", "deep", dir())).unwrap();
    create(&mut st, entry("/r/sub/deep", "y", file(1))).unwrap();
    let ev = FsEvent { kind: EventKind::Remove(RemoveKind::Folder), paths: vec![path("/r", "sub", None)] };
    process_event(&mut st, &ev, 9).unwrap();
    assert!(fetch_one_by_path(&st, &s("/r/sub"), &s("x")).is_err());
    assert!(fetch_one_by_path(&st, &s("/r/sub"), &s("deep")).is_err());
    assert!(fetch_one_by_path(&st, &s("/r/sub/deep"), &s("y")).is_ok());
    assert!(fetch_one_by_path(&st, &s("/r"), &s("sub")).is_err());
    assert_eq!(st.row_by_id(1).unwrap().deleted_at, Some(9));
    assert_eq!(st.row_by_id(4).unwrap().deleted_at, None);
    assert_eq!(delete_by_parent(&mut st, &s("/r/sub/deep"), 10), 1);
    assert_eq!(delete_by_parent(&mut st, &s("/r/sub/deep"), 11), 0);
}

#[test]
fn other_kinds_change_nothing() {
    let mut st = EntryStore::new();
    let ev = FsEvent { kind: EventKind::Other, paths: vec![path("/r", "a", Some(file(1)))] };
    assert_eq!(process_event(&mut st, &ev, 1), Ok(()));
    let ev = FsEvent { kind: EventKind::Remove(RemoveKind::Other), paths: vec![path("/r", "a", None)] };
    assert_eq!(process_event(&mut st, &ev, 1), Ok(()));
    assert!(paged_fetch(&st, 1, 10).is_empty());
}

#[test]
fn paged_fetch_splits_live_rows_into_pages() {
    let mut st = EntryStore::new();
    for n in ["a", "b", "c", "d", "e"] {
        create(&mut st, entry("/r", n, file(1))).unwrap();
    }
    delete_by_path(&mut st, &s("/r"), &s("b"), 3);
    let p1: Vec<String> = paged_fetch(&st, 1, 2).into_iter().map(|e| e.name).collect();
    let p2: Vec<String> = paged_fetch(&st, 2, 2).into_iter().map(|e| e.name).collect();
    let p3: Vec<String> = paged_fetch(&st, 3, 2).into_iter().map(|e| e.name).collect();
    assert_eq!(p1, vec!["a", "c"]);
    assert_eq!(p2, vec!["d", "e"]);
    assert!(p3.is_empty());
    assert!(paged_fetch(&st, 1, 0).is_empty());
    assert!(paged_fetch(&st, u64::MAX, u64::MAX).is_empty());
}

#[test]
fn scan_twice_is_idempotent() {
    let mut st = EntryStore::new();
    let walk = vec![entry("/root", "a.txt", file(10)), entry("/root", "sub", dir())];
    scan(&mut st, &walk).unwrap();
    let first: Vec<(u64, String, u64, Option<i64>)> = paged_fetch(&st, 1, 10)
        .into_iter()
        .map(|e| (e.id, e.name, e.size, e.deleted_at))
        .collect();
    scan(&mut st, &walk).unwrap();
    let second: Vec<(u64, String, u64, Option<i64>)> = paged_fetch(&st, 1, 10)
        .into_iter()
        .map(|e| (e.id, e.name, e.size, e.deleted_at))
        .collect();
    assert_eq!(first, second);
    assert_eq!(second.len(), 2);
}

#[test]
fn scan_does_not_delete_missing_objects() {
    let mut st = EntryStore::new();
    scan(&mut st, &vec![entry("/r", "a", file(1)), entry("/r", "b", file(1))]).unwrap();
    scan(&mut st, &vec![entry("/r", "a", file(2))]).unwrap();
    assert_eq!(paged_fetch(&st, 1, 10).len(), 2);
    assert_eq!(fetch_by_id(&st, 1).unwrap().size, 2);
}

#[test]
fn staleness_thresholds() {
    let now = 1_700_000_000;
    assert!(is_stale(None, now));
    assert!(is_stale(Some(now - 13 * HOUR), now));
    assert!(!is_stale(Some(now - HOUR), now));
    assert!(!is_stale(Some(now - 12 * HOUR), now));
    assert!(is_stale(Some(now - 12 * HOUR - 1), now));
    assert!(is_stale(Some(now - 12 * HOUR - HOUR / 2), now));
    assert!(is_stale(Some(now - 13 * HOUR + 1), now));
    assert!(is_stale(Some(i64::MIN), i64::MAX));
    assert!(!is_stale(Some(i64::MAX), i64::MIN));
    assert!(!is_stale(Some(now + 20 * HOUR), now));
}

#[test]
fn startup_scans_when_never_scanned() {
    let mut st = EntryStore::new();
    let walk = vec![entry("/r", "a", file(1))];
    assert!(needs_rescan(&st, 500));
    assert_eq!(may_need_scanning(&mut st, &walk, 500, 510), Ok(true));
    assert_eq!(find_key_updated_at(&st, &s(KEY_WALKING_DIR)), Ok(510));
    assert_eq!(paged_fetch(&st, 1, 10).len(), 1);
}

#[test]
fn startup_rescans_after_thirteen_hours() {
    let mut st = EntryStore::new();
    let now = 1_000_000;
    create_key(&mut st, s(KEY_WALKING_DIR), s("done"), now - 13 * HOUR).unwrap();
    let walk = vec![entry("/r", "a", file(1))];
    assert!(needs_rescan(&st, now));
    assert_eq!(may_need_scanning(&mut st, &walk, now, now + 3), Ok(true));
    assert_eq!(find_key_updated_at(&st, &s(KEY_WALKING_DIR)), Ok(now + 3));
    assert_eq!(paged_fetch(&st, 1, 10).len(), 1);
}

#[test]
fn startup_rescans_after_twelve_and_a_half_hours() {
    let mut st = EntryStore::new();
    let now = 1_000_000;
    create_key(&mut st, s(KEY_WALKING_DIR), s("done"), now - 12 * HOUR - HOUR / 2).unwrap();
    create_key(&mut st, s("other"), s("kept"), 7).unwrap();
    let walk = vec![entry("/r", "a", file(1))];
    assert_eq!(may_need_scanning(&mut st, &walk, now, now + 3), Ok(true));
    assert_eq!(find_key_updated_at(&st, &s(KEY_WALKING_DIR)), Ok(now + 3));
    assert_eq!(find_key_updated_at(&st, &s("other")), Ok(7));
}

#[test]
fn restore_accepts_gaps_and_create_continues_after_last_id() {
    let mut a = entry("/r", "a", file(1));
    a.id = 3;
    let mut b = entry("/r", "b", file(1));
    b.id = 10;
    b.deleted_at = Some(5);
    let mut st = EntryStore::restore(vec![a, b], vec![]).unwrap();
    assert_eq!(fetch_by_id(&st, 3).unwrap().name, "a");
    assert_eq!(fetch_by_id(&st, 10).unwrap_err(), StoreError::RowNotFound);
    assert_eq!(st.row_by_id(10).unwrap().deleted_at, Some(5));
    assert!(st.row_by_id(4).is_none());
    assert_eq!(create(&mut st, entry("/r", "c", file(1))), Ok(11));
    let mut e = entry("/r", "a", file(8));
    e.id = 3;
    assert_eq!(update_by_id(&mut st, e), Ok(1));
    assert_eq!(fetch_by_id(&st, 3).unwrap().size, 8);
}

#[test]
fn restore_refuses_bad_snapshots() {
    let mut a = entry("/r", "a", file(1));
    a.id = 4;
    let mut b = entry("/r", "b", file(1));
    b.id = 2;
    assert!(EntryStore::restore(vec![a.clone(), b], vec![]).is_none());
    let mut c = entry("/r", "a", file(1));
    c.id = 9;
    assert!(EntryStore::restore(vec![a.clone(), c], vec![]).is_none());
    let mut z = entry("/r", "z", file(1));
    z.id = 0;
    assert!(EntryStore::restore(vec![z], vec![]).is_none());
    let m = || niko::store::Metadata { key: s("k"), value: s("v"), updated_at: 1 };
    assert!(EntryStore::restore(vec![a], vec![m(), m()]).is_none());
}

#[test]
fn create_refuses_when_identifiers_run_out() {
    let mut a = entry("/r", "a", file(1));
    a.id = u64::MAX;
    let mut st = EntryStore::restore(vec![a], vec![]).unwrap();
    assert_eq!(create(&mut st, entry("/r", "b", file(1))), Err(StoreError::Capacity));
    assert_eq!(
        create_or_update(&mut st, entry("/r", "b", file(1))),
        Err(StoreError::Capacity)
    );
    let ev = FsEvent { kind: EventKind::Remove(RemoveKind::File), paths: vec![path("/r", "a", None)] };
    assert_eq!(process_event(&mut st, &ev, 3), Ok(()));
}

#[test]
fn scan_stops_at_the_entry_that_needs_an_insert_when_ids_run_out() {
    let mut a = entry("/r", "a", file(1));
    a.id = u64::MAX;
    let mut st = EntryStore::restore(vec![a], vec![]).unwrap();
    let walk = vec![entry("/r", "a", file(5)), entry("/r", "b", file(1)), entry("/r", "a", file(6))];
    assert_eq!(scan(&mut st, &walk), Err(ScanError::Store(StoreError::Capacity)));
    assert_eq!(fetch_by_id(&st, u64::MAX).unwrap().size, 5);
    assert_eq!(st.all_rows().len(), 1);
    // every walked key already indexed: nothing to insert, so the scan succeeds
    assert_eq!(scan(&mut st, &vec![entry("/r", "a", file(7))]), Ok(()));
    let ev = FsEvent { kind: EventKind::Modify, paths: vec![path("/r", "a", Some(file(9)))] };
    assert_eq!(process_event(&mut st, &ev, 1), Ok(()));
    assert_eq!(fetch_by_id(&st, u64::MAX).unwrap().size, 9);
    let ev = FsEvent { kind: EventKind::Create, paths: vec![path("/r", "c", Some(file(9)))] };
    assert_eq!(process_event(&mut st, &ev, 1), Err(StoreError::Capacity));
}

#[test]
fn startup_scan_failure_leaves_bookkeeping_alone() {
    let mut a = entry("/r", "a", file(1));
    a.id = u64::MAX;
    let mut st = EntryStore::restore(vec![a], vec![]).unwrap();
    let walk = vec![entry("/r", "b", file(1))];
    assert_eq!(may_need_scanning(&mut st, &walk, 100, 101), Err(ScanError::Store(StoreError::Capacity)));
    assert_eq!(find_key_updated_at(&st, &s(KEY_WALKING_DIR)), Err(StoreError::RowNotFound));
}

#[test]
fn startup_skips_scan_within_the_hour() {
    let mut st = EntryStore::new();
    let now = 1_000_000;
    create_key(&mut st, s(KEY_WALKING_DIR), s("done"), now - HOUR).unwrap();
    let walk = vec![entry("/r", "a", file(1))];
    assert!(!needs_rescan(&st, now));
    assert_eq!(may_need_scanning(&mut st, &walk, now, now + 3), Ok(false));
    assert_eq!(find_key_updated_at(&st, &s(KEY_WALKING_DIR)), Ok(now - HOUR));
    assert!(paged_fetch(&st, 1, 10).is_empty());
}

#[test]
fn bookkeeping_errors() {
    let mut st = EntryStore::new();
    assert_eq!(find_key_updated_at(&st, &s("k")), Err(StoreError::RowNotFound));
    assert_eq!(update_key(&mut st, s("k"), s("v"), 1), Err(StoreError::RowNotFound));
    assert_eq!(create_key(&mut st, s("k"), s("v"), 2), Ok(2));
    assert_eq!(create_key(&mut st, s("k"), s("v"), 3), Err(StoreError::Duplicate));
    assert_eq!(update_key(&mut st, s("k"), s("w"), 4), Ok(4));
    assert_eq!(find_key_updated_at(&st, &s("k")), Ok(4));
}

#[test]
fn scenario_scan_then_remove_folder() {
    let mut st = EntryStore::new();
    let walk = vec![entry("/root", "a.txt", file(10)), entry("/root", "sub", dir())];
    scan(&mut st, &walk).unwrap();
    let page = paged_fetch(&st, 1, 10);
    assert_eq!(page.len(), 2);
    assert_eq!((page[0].parent.as_str(), page[0].name.as_str()), ("/root", "a.txt"));
    assert_eq!((page[0].size, page[0].is_dir), (10, false));
    assert_eq!((page[1].parent.as_str(), page[1].name.as_str()), ("/root", "sub"));
    assert_eq!((page[1].size, page[1].is_dir), (0, true));
    let ev = FsEvent { kind: EventKind::Remove(RemoveKind::Folder), paths: vec![path("/root", "sub", None)] };
    process_event(&mut st, &ev, 42).unwrap();
    // both rows stay in the table; the folder's own row is now marked deleted
    let all = st.all_rows();
    assert_eq!(all.len(), 2);
    assert_eq!(all[1].name, "sub");
    assert_eq!(all[1].deleted_at, Some(42));
    assert_eq!(all[0].deleted_at, None);
    let page = paged_fetch(&st, 1, 10);
    assert_eq!(page.len(), 1);
    assert_eq!(page[0].name, "a.txt");
}
