use vstd::prelude::*;

use crate::entry::{CreateOrUpdate, Entry, EntryV};
use crate::store::{
    create_key, create_or_update, find_key_updated_at, all_indexed, has_live, has_record, lemma_upserted_keeps_live, meta_wf, next_id, record_index, update_key,
    upserted_all, EntryStore, MetadataV, StoreError,
};

verus! {

/// The key of the bookkeeping record that stamps the last full scan.
pub const KEY_WALKING_DIR: &'static str = "WALKING_DIR";

/// The value written into the bookkeeping record after a full scan.
pub const SCAN_DONE: &'static str = "done";

/// A full scan is due once the last one is more than this many seconds old:
/// twelve hours.
pub const STALE_AFTER_SECS: i64 = 12 * 3600;

/// Why a scan stopped.
#[derive(Clone, Copy, Debug, PartialEq, Eq, Structural)]
pub enum ScanError {
    Store(StoreError),
    /// An update touched a number of rows other than one.
    RowCount(u64),
}

/// Whether a full scan is due at `now`, given when the last one finished.
pub open spec fn needs_scan(last: Option<i64>, now: i64) -> bool {
    match last {
        None => true,
        Some(t) => now - t > STALE_AFTER_SECS,
    }
}

pub open spec fn walking_dir_key() -> Seq<char> {
    KEY_WALKING_DIR@
}

/// When the last full scan finished, as the bookkeeping table records it.
pub open spec fn last_scan(meta: Seq<MetadataV>) -> Option<i64> {
    if has_record(meta, walking_dir_key()) {
        Some(meta[record_index(meta, walking_dir_key())].updated_at)
    } else {
        None
    }
}

/// The scan stopped at some entry: the rows are those after the entries
/// before it, and that entry needed an insert for which no identifier was
/// left.
pub open spec fn stopped_at(start: Seq<EntryV>, es: Seq<EntryV>, rows: Seq<EntryV>) -> bool {
    exists|k: int|
        0 <= k < es.len() && rows == upserted_all(start, es.take(k)) && !has_live(
            rows,
            #[trigger] es[k].parent,
            es[k].name,
        ) && next_id(rows) > u64::MAX
}

pub open spec fn entry_views(entries: Seq<Entry>) -> Seq<EntryV> {
    entries.map_values(|e: Entry| e@)
}

/// The staleness policy: no record, or one more than twelve hours old, calls
/// for a scan.
pub fn is_stale(last: Option<i64>, now: i64) -> (r: bool)
    ensures
        r == needs_scan(last, now),
{
    match last {
        None => true,
        Some(t) => now as i128 - t as i128 > STALE_AFTER_SECS as i128,
    }
}

/// Whether the store's bookkeeping calls for a full scan at `now`.
pub fn needs_rescan(store: &EntryStore, now: i64) -> (r: bool)
    requires
        store.wf(),
    ensures
        r == needs_scan(last_scan(store.meta()), now),
{
    let key = String::from_str(KEY_WALKING_DIR);
    match find_key_updated_at(store, &key) {
        Ok(t) => is_stale(Some(t), now),
        Err(_) => true,
    }
}

/// The reconciling scan: creates or updates a row for each walked entry, in
/// order. Rows of objects that are gone are left as they are.
pub fn scan(store: &mut EntryStore, entries: &Vec<Entry>) -> (r: Result<(), ScanError>)
    requires
        old(store).wf(),
    ensures
        final(store).wf(),
        final(store).meta() == old(store).meta(),
        next_id(old(store).rows()) + entries@.len() <= u64::MAX ==> r is Ok,
        all_indexed(old(store).rows(), entry_views(entries@)) ==> r is Ok,
        r is Ok ==> final(store).rows() == upserted_all(old(store).rows(), entry_views(entries@)),
        r is Err ==> r == Err::<(), ScanError>(ScanError::Store(StoreError::Capacity)) && stopped_at(
            old(store).rows(),
            entry_views(entries@),
            final(store).rows(),
        ),
{
    let ghost es = entry_views(entries@);
    let ghost start = store.rows();
    let mut i: usize = 0;
    while i < entries.len()
        invariant
            i <= entries.len(),
            es == entry_views(entries@),
            store.wf(),
            store.meta() == old(store).meta(),
            start == old(store).rows(),
            store.rows() == upserted_all(start, es.take(i as int)),
            next_id(store.rows()) <= next_id(start) + i,
            all_indexed(start, es) ==> all_indexed(store.rows(), es),
        decreases entries.len() - i,
    {
        assert(es.take(i + 1).drop_last() =~= es.take(i as int));
        assert(es.take(i + 1).last() == entries@[i as int]@);
        let ghost before = store.rows();
        proof {
            if all_indexed(start, es) {
                assert(has_live(before, es[i as int].parent, es[i as int].name));
                lemma_upserted_keeps_live(before, es[i as int], es);
            }
        }
        let item = entries[i].snapshot();
        match create_or_update(store, item) {
            Ok(CreateOrUpdate::Update(n)) => {
                if n != 1 {
                    return Err(ScanError::RowCount(n));
                }
            },
            Ok(CreateOrUpdate::Create(_)) => {},
            Err(e) => {
                assert(stopped_at(start, es, store.rows())) by {
                    assert(store.rows() == upserted_all(start, es.take(i as int)));
                    assert(es[i as int] == entries@[i as int]@);
                }
                return Err(ScanError::Store(e));
            },
        }
        i = i + 1;
    }
    assert(es.take(entries.len() as int) =~= es);
    Ok(())
}

/// The startup pass: when a scan is due at `now`, scans `entries` and stamps
/// the bookkeeping record with `finished_at`, the time the walk that produced
/// `entries` completed; otherwise leaves the store as it is. Returns whether
/// it scanned.
pub fn may_need_scanning(store: &mut EntryStore, entries: &Vec<Entry>, now: i64, finished_at: i64) -> (r:
    Result<bool, ScanError>)
    requires
        old(store).wf(),
    ensures
        final(store).wf(),
        !needs_scan(last_scan(old(store).meta()), now) ==> r == Ok::<bool, ScanError>(false) && final(store).rows() == old(store).rows() && final(store).meta() == old(store).meta(),
        needs_scan(last_scan(old(store).meta()), now) && next_id(old(store).rows()) + entries@.len()
            <= u64::MAX ==> r == Ok::<bool, ScanError>(true),
        r == Ok::<bool, ScanError>(true) ==> final(store).rows() == upserted_all(
            old(store).rows(),
            entry_views(entries@),
        ) && final(store).meta() == scan_stamped(old(store).meta(), finished_at) && last_scan(
            final(store).meta(),
        ) == Some(finished_at),
        r == Ok::<bool, ScanError>(false) ==> !needs_scan(last_scan(old(store).meta()), now),
        r is Err ==> r == Err::<bool, ScanError>(ScanError::Store(StoreError::Capacity)) && final(store).meta()
            == old(store).meta(),
{
    let key = String::from_str(KEY_WALKING_DIR);
    let found = find_key_updated_at(store, &key);
    if !is_stale(match found { Ok(t) => Some(t), Err(_) => None }, now) {
        return Ok(false);
    }
    match scan(store, entries) {
        Ok(()) => {},
        Err(e) => {
            return Err(e);
        },
    }
    let ghost before = store.meta();
    let written = match found {
        Ok(_) => update_key(store, key, String::from_str(SCAN_DONE), finished_at),
        Err(_) => create_key(store, key, String::from_str(SCAN_DONE), finished_at),
    };
    proof {
        lemma_record_written(before, store.meta(), finished_at);
    }
    match written {
        Ok(_) => Ok(true),
        Err(e) => Err(ScanError::Store(e)),
    }
}

/// The bookkeeping table after a completed scan at `now`: the last-scan
/// record holds `done` stamped `now`, rewritten in place if it existed and
/// added otherwise; every other record is kept.
pub open spec fn scan_stamped(meta: Seq<MetadataV>, now: i64) -> Seq<MetadataV> {
    let rec = MetadataV { key: walking_dir_key(), value: SCAN_DONE@, updated_at: now };
    if has_record(meta, walking_dir_key()) {
        meta.update(record_index(meta, walking_dir_key()), rec)
    } else {
        meta.push(rec)
    }
}

/// After the bookkeeping record is created or rewritten with stamp `now`,
/// the last scan reads `now`.
proof fn lemma_record_written(before: Seq<MetadataV>, after: Seq<MetadataV>, now: i64)
    requires
        meta_wf(after),
        after == scan_stamped(before, now),
    ensures
        last_scan(after) == Some(now),
{
    let k = walking_dir_key();
    let i = if has_record(before, k) { record_index(before, k) } else { before.len() as int };
    assert(0 <= i < after.len() && after[i].key == k);
    let j = record_index(after, k);
    assert(after[j].key == k);
}

} // verus!

verus! {

/// A record thirteen hours old, or even a second over twelve, calls for a
/// rescan; one an hour old, or exactly twelve hours old, does not.
pub proof fn lemma_staleness_policy(now: i64)
    requires
        now >= i64::MIN + 13 * 3600,
    ensures
        needs_scan(Some((now - 13 * 3600) as i64), now),
        needs_scan(Some((now - 12 * 3600 - 1) as i64), now),
        !needs_scan(Some((now - 12 * 3600) as i64), now),
        !needs_scan(Some((now - 3600) as i64), now),
{
}

} // verus!
