use vstd::prelude::*;

use crate::entry::{joined, observed, Entry, EntryV, FileStat};
use crate::store::{
    children_deleted, create_or_update, delete_by_parent, delete_by_path, has_live, lemma_upserted_keeps_key, next_id, path_deleted, upserted,
    EntryStore, StoreError,
};

verus! {

/// The kinds of removal a notification can report.
#[derive(Clone, Copy, Debug, PartialEq, Eq, Structural)]
pub enum RemoveKind {
    File,
    Folder,
    Other,
}

/// The coarse kind of a filesystem change notification.
#[derive(Clone, Copy, Debug, PartialEq, Eq, Structural)]
pub enum EventKind {
    Create,
    Modify,
    Remove(RemoveKind),
    Other,
}

/// A path that a notification names, split into parent and name, with what
/// the filesystem reported of it when the notification was handled (`None`
/// when it could no longer be read).
#[derive(Clone, Debug)]
pub struct EventPath {
    pub parent: String,
    pub name: String,
    pub stat: Option<FileStat>,
}

/// One change notification.
#[derive(Clone, Debug)]
pub struct FsEvent {
    pub kind: EventKind,
    pub paths: Vec<EventPath>,
}

/// The rows after handling one path of a notification of kind `kind`.
pub open spec fn path_applied(rows: Seq<EntryV>, kind: EventKind, p: EventPath, now: i64) -> Seq<EntryV> {
    match kind {
        EventKind::Create | EventKind::Modify => match p.stat {
            Some(st) => upserted(rows, observed(st, p.parent@, p.name@)),
            None => rows,
        },
        EventKind::Remove(RemoveKind::File) => path_deleted(rows, p.parent@, p.name@, now),
        EventKind::Remove(RemoveKind::Folder) => children_deleted(
            path_deleted(rows, p.parent@, p.name@, now),
            joined(p.parent@, p.name@),
            now,
        ),
        _ => rows,
    }
}

/// The rows after handling each path of a notification, in order.
pub open spec fn event_applied(rows: Seq<EntryV>, kind: EventKind, paths: Seq<EventPath>, now: i64) -> Seq<
    EntryV,
>
    decreases paths.len(),
{
    if paths.len() == 0 {
        rows
    } else {
        path_applied(event_applied(rows, kind, paths.drop_last(), now), kind, paths.last(), now)
    }
}

/// A notification of an unhandled kind leaves the rows as they are.
proof fn lemma_other_changes_nothing(rows: Seq<EntryV>, paths: Seq<EventPath>, now: i64)
    ensures
        event_applied(rows, EventKind::Other, paths, now) == rows,
    decreases paths.len(),
{
    if paths.len() > 0 {
        lemma_other_changes_nothing(rows, paths.drop_last(), now);
    }
}

/// Each readable path of `paths` already has a live row under its key, so
/// that a create or a modify of them inserts nothing.
pub open spec fn paths_indexed(rows: Seq<EntryV>, paths: Seq<EventPath>) -> bool {
    forall|k: int|
        0 <= k < paths.len() && (#[trigger] paths[k]).stat is Some ==> has_live(rows, paths[k].parent@, paths[k].name@)
}

/// Handling stopped at some path: the rows are those after the paths before
/// it, and that path needed an insert for which no identifier was left.
pub open spec fn event_stopped_at(start: Seq<EntryV>, kind: EventKind, paths: Seq<EventPath>, now: i64, rows: Seq<
    EntryV,
>) -> bool {
    exists|k: int|
        0 <= k < paths.len() && rows == event_applied(start, kind, paths.take(k), now) && (#[trigger] paths[k]).stat is Some
            && !has_live(rows, paths[k].parent@, paths[k].name@) && next_id(rows) > u64::MAX
}

/// Handles a removal: a removed file loses its live row, a removed folder
/// its own live row and the live rows directly under it.
pub fn process_remove_event(store: &mut EntryStore, rk: RemoveKind, paths: &Vec<EventPath>, now: i64)
    requires
        old(store).wf(),
    ensures
        final(store).wf(),
        final(store).meta() == old(store).meta(),
        final(store).rows() == event_applied(old(store).rows(), EventKind::Remove(rk), paths@, now),
{
    let ghost kind = EventKind::Remove(rk);
    let mut i: usize = 0;
    while i < paths.len()
        invariant
            i <= paths.len(),
            store.wf(),
            kind == EventKind::Remove(rk),
            store.meta() == old(store).meta(),
            store.rows() == event_applied(old(store).rows(), kind, paths@.take(i as int), now),
        decreases paths.len() - i,
    {
        assert(paths@.take(i + 1).drop_last() =~= paths@.take(i as int));
        assert(paths@.take(i + 1).last() == paths@[i as int]);
        let p = &paths[i];
        match rk {
            RemoveKind::File => {
                delete_by_path(store, &p.parent, &p.name, now);
            },
            RemoveKind::Folder => {
                let folder = Entry::from_metadata(
                    FileStat { is_dir: true, len: 0, mode: 0, created: 0, modified: 0 },
                    p.parent.clone(),
                    p.name.clone(),
                );
                delete_by_path(store, &p.parent, &p.name, now);
                delete_by_parent(store, &folder.full_path(), now);
            },
            RemoveKind::Other => {},
        }
        i = i + 1;
    }
    assert(paths@.take(paths.len() as int) =~= paths@);
}

/// Applies one notification to the store: a create or a modify creates or
/// updates the row of each path that could be read (and skips the others),
/// a removal soft-deletes, and any other kind changes nothing.
pub fn process_event(store: &mut EntryStore, event: &FsEvent, now: i64) -> (r: Result<(), StoreError>)
    requires
        old(store).wf(),
    ensures
        final(store).wf(),
        final(store).meta() == old(store).meta(),
        next_id(old(store).rows()) + event.paths@.len() <= u64::MAX ==> r is Ok,
        !(event.kind == EventKind::Create || event.kind == EventKind::Modify) ==> r is Ok,
        paths_indexed(old(store).rows(), event.paths@) ==> r is Ok,
        r is Ok ==> final(store).rows() == event_applied(old(store).rows(), event.kind, event.paths@, now),
        r is Err ==> r == Err::<(), StoreError>(StoreError::Capacity) && event_stopped_at(
            old(store).rows(),
            event.kind,
            event.paths@,
            now,
            final(store).rows(),
        ),
{
    match event.kind {
        EventKind::Create | EventKind::Modify => {
            let ghost start = store.rows();
            let mut i: usize = 0;
            while i < event.paths.len()
                invariant
                    i <= event.paths.len(),
                    store.wf(),
                    store.meta() == old(store).meta(),
                    start == old(store).rows(),
                    event.kind == EventKind::Create || event.kind == EventKind::Modify,
                    store.rows() == event_applied(start, event.kind, event.paths@.take(i as int), now),
                    next_id(store.rows()) <= next_id(start) + i,
                    paths_indexed(start, event.paths@) ==> paths_indexed(store.rows(), event.paths@),
                decreases event.paths.len() - i,
            {
                assert(event.paths@.take(i + 1).drop_last() =~= event.paths@.take(i as int));
                assert(event.paths@.take(i + 1).last() == event.paths@[i as int]);
                let ghost before = store.rows();
                let p = &event.paths[i];
                match p.stat {
                    Some(st) => {
                        let e = Entry::from_metadata(st, p.parent.clone(), p.name.clone());
                        let ghost ev = e@;
                        match create_or_update(store, e) {
                            Ok(_) => {},
                            Err(err) => {
                                assert(event_stopped_at(start, event.kind, event.paths@, now, store.rows())) by {
                                    assert(event.paths@[i as int].stat is Some);
                                }
                                return Err(err);
                            },
                        }
                        proof {
                            if paths_indexed(start, event.paths@) {
                                assert forall|k: int|
                                    0 <= k < event.paths@.len() && (#[trigger] event.paths@[k]).stat is Some implies has_live(
                                    store.rows(),
                                    event.paths@[k].parent@,
                                    event.paths@[k].name@,
                                ) by {
                                    lemma_upserted_keeps_key(before, ev, event.paths@[k].parent@, event.paths@[k].name@);
                                }
                            }
                        }
                    },
                    None => {},
                }
                i = i + 1;
            }
            assert(event.paths@.take(event.paths.len() as int) =~= event.paths@);
            Ok(())
        },
        EventKind::Remove(rk) => {
            process_remove_event(store, rk, &event.paths, now);
            Ok(())
        },
        EventKind::Other => {
            proof {
                lemma_other_changes_nothing(store.rows(), event.paths@, now);
            }
            Ok(())
        },
    }
}

} // verus!
