use vstd::prelude::*;

use crate::entry::{joined, CreateOrUpdate, Entry, EntryV};

verus! {

/// Why a store operation did not go through.
#[derive(Clone, Copy, Debug, PartialEq, Eq, Structural)]
pub enum StoreError {
    /// No live row, or no bookkeeping record, under the key asked for.
    RowNotFound,
    /// The write would give a key a second live row (or a second record).
    Duplicate,
    /// No identifier is left to assign.
    Capacity,
}

/// The row index `i` holds a live entry under `parent`/`name`.
pub open spec fn live_at(rows: Seq<EntryV>, i: int, parent: Seq<char>, name: Seq<char>) -> bool {
    0 <= i < rows.len() && rows[i].is_live() && rows[i].has_key(parent, name)
}

pub open spec fn has_live(rows: Seq<EntryV>, parent: Seq<char>, name: Seq<char>) -> bool {
    exists|i: int| live_at(rows, i, parent, name)
}

pub open spec fn live_index(rows: Seq<EntryV>, parent: Seq<char>, name: Seq<char>) -> int {
    choose|i: int| live_at(rows, i, parent, name)
}

/// Under well-formed rows, the live row at a key is the one that `live_index` names.
pub proof fn lemma_live_index_unique(rows: Seq<EntryV>, i: int, parent: Seq<char>, name: Seq<char>)
    requires
        rows_wf(rows),
        live_at(rows, i, parent, name),
    ensures
        has_live(rows, parent, name),
        live_index(rows, parent, name) == i,
{
    let j = live_index(rows, parent, name);
    assert(live_at(rows, j, parent, name));
    assert(rows[i].is_live() && rows[j].is_live());
}

/// Identifiers are positive and increase in row order, and no key has two
/// live rows.
pub open spec fn rows_wf(rows: Seq<EntryV>) -> bool {
    &&& forall|i: int| 0 <= i < rows.len() ==> rows[i].id >= 1
    &&& forall|i: int, j: int| 0 <= i < j < rows.len() ==> rows[i].id < rows[j].id
    &&& forall|i: int, j: int|
        0 <= i < rows.len() && 0 <= j < rows.len() && rows[i].is_live() && rows[j].is_live()
            && rows[i].parent == rows[j].parent && rows[i].name == rows[j].name ==> i == j
}

/// The identifier the next insert assigns: one past the last, or 1 for an
/// empty table.
pub open spec fn next_id(rows: Seq<EntryV>) -> int {
    if rows.len() == 0 {
        1
    } else {
        rows.last().id + 1
    }
}

pub open spec fn has_id(rows: Seq<EntryV>, id: u64) -> bool {
    exists|i: int| 0 <= i < rows.len() && rows[i].id == id
}

pub open spec fn id_index(rows: Seq<EntryV>, id: u64) -> int {
    choose|i: int| 0 <= i < rows.len() && rows[i].id == id
}

/// Under well-formed rows, row `i` is the one that its identifier names, and
/// every identifier lies below the next one.
pub proof fn lemma_id_index(rows: Seq<EntryV>, i: int)
    requires
        rows_wf(rows),
        0 <= i < rows.len(),
    ensures
        has_id(rows, rows[i].id),
        id_index(rows, rows[i].id) == i,
        rows[i].id < next_id(rows),
{
    let j = id_index(rows, rows[i].id);
    assert(0 <= j < rows.len() && rows[j].id == rows[i].id);
    if i < rows.len() - 1 {
        assert(rows[i].id < rows[rows.len() - 1].id);
    }
}

/// A full-row replace: the observed attributes of `e`, the identity and
/// deletion mark of `row`.
pub open spec fn overwritten(row: EntryV, e: EntryV) -> EntryV {
    EntryV { id: row.id, deleted_at: row.deleted_at, ..e }
}

/// The row that an insert stores for `e` under identifier `id`.
pub open spec fn inserted(id: u64, e: EntryV) -> EntryV {
    EntryV { id, deleted_at: None, ..e }
}

/// The rows after a create-or-update of `e`.
pub open spec fn upserted(rows: Seq<EntryV>, e: EntryV) -> Seq<EntryV> {
    if has_live(rows, e.parent, e.name) {
        let i = live_index(rows, e.parent, e.name);
        rows.update(i, overwritten(rows[i], e))
    } else {
        rows.push(inserted(next_id(rows) as u64, e))
    }
}

/// The rows after a create-or-update of each of `es`, in order.
pub open spec fn upserted_all(rows: Seq<EntryV>, es: Seq<EntryV>) -> Seq<EntryV>
    decreases es.len(),
{
    if es.len() == 0 {
        rows
    } else {
        upserted(upserted_all(rows, es.drop_last()), es.last())
    }
}

pub open spec fn deleted(e: EntryV, now: i64) -> EntryV {
    EntryV { deleted_at: Some(now), ..e }
}

/// The rows after soft-deleting the live row at `parent`/`name`, if any.
pub open spec fn path_deleted(rows: Seq<EntryV>, parent: Seq<char>, name: Seq<char>, now: i64) -> Seq<EntryV> {
    if has_live(rows, parent, name) {
        let i = live_index(rows, parent, name);
        rows.update(i, deleted(rows[i], now))
    } else {
        rows
    }
}

pub open spec fn is_live_child(e: EntryV, parent: Seq<char>) -> bool {
    e.is_live() && e.parent == parent
}

/// The rows after soft-deleting every live row directly under `parent`.
pub open spec fn children_deleted(rows: Seq<EntryV>, parent: Seq<char>, now: i64) -> Seq<EntryV> {
    Seq::new(rows.len(), |i: int| if is_live_child(rows[i], parent) { deleted(rows[i], now) } else { rows[i] })
}

/// How many live rows stand directly under `parent`.
pub open spec fn child_count(rows: Seq<EntryV>, parent: Seq<char>) -> nat
    decreases rows.len(),
{
    if rows.len() == 0 {
        0
    } else {
        child_count(rows.drop_last(), parent) + if is_live_child(rows.last(), parent) { 1nat } else { 0nat }
    }
}

/// The live rows, in identifier order.
pub open spec fn live_rows(rows: Seq<EntryV>) -> Seq<EntryV>
    decreases rows.len(),
{
    if rows.len() == 0 {
        Seq::empty()
    } else if rows.last().is_live() {
        live_rows(rows.drop_last()).push(rows.last())
    } else {
        live_rows(rows.drop_last())
    }
}

/// Page `page_num` (counted from 1) of `page_size` live rows.
pub open spec fn page_of(rows: Seq<EntryV>, page_num: int, page_size: int) -> Seq<EntryV> {
    let live = live_rows(rows);
    let start = (page_num - 1) * page_size;
    if start >= live.len() {
        Seq::empty()
    } else if start + page_size >= live.len() {
        live.subrange(start, live.len() as int)
    } else {
        live.subrange(start, start + page_size)
    }
}

/// A key/value bookkeeping record and when it was last written.
#[derive(Clone, Debug)]
pub struct Metadata {
    pub key: String,
    pub value: String,
    pub updated_at: i64,
}

pub ghost struct MetadataV {
    pub key: Seq<char>,
    pub value: Seq<char>,
    pub updated_at: i64,
}

impl View for Metadata {
    type V = MetadataV;

    open spec fn view(&self) -> MetadataV {
        MetadataV { key: self.key@, value: self.value@, updated_at: self.updated_at }
    }
}

pub open spec fn meta_wf(meta: Seq<MetadataV>) -> bool {
    forall|i: int, j: int| 0 <= i < meta.len() && 0 <= j < meta.len() && meta[i].key == meta[j].key ==> i == j
}

pub open spec fn has_record(meta: Seq<MetadataV>, key: Seq<char>) -> bool {
    exists|i: int| 0 <= i < meta.len() && meta[i].key == key
}

pub open spec fn record_index(meta: Seq<MetadataV>, key: Seq<char>) -> int {
    choose|i: int| 0 <= i < meta.len() && meta[i].key == key
}

/// The entry table and the bookkeeping table, held in memory. Persisting them
/// is the caller's part: it loads a snapshot with `restore` and writes back
/// the rows that each operation changed.
pub struct EntryStore {
    rows: Vec<Entry>,
    meta: Vec<Metadata>,
}

impl EntryStore {
    pub closed spec fn rows(&self) -> Seq<EntryV> {
        self.rows@.map_values(|e: Entry| e@)
    }

    pub closed spec fn meta(&self) -> Seq<MetadataV> {
        self.meta@.map_values(|m: Metadata| m@)
    }

    pub open spec fn wf(&self) -> bool {
        rows_wf(self.rows()) && meta_wf(self.meta())
    }

    /// An empty store.
    pub fn new() -> (r: EntryStore)
        ensures
            r.wf(),
            r.rows() == Seq::<EntryV>::empty(),
            r.meta() == Seq::<MetadataV>::empty(),
    {
        let r = EntryStore { rows: Vec::new(), meta: Vec::new() };
        assert(r.rows() =~= Seq::<EntryV>::empty());
        assert(r.meta() =~= Seq::<MetadataV>::empty());
        r
    }

    /// A store holding `rows` and `meta`, when they form a well-formed snapshot:
    /// identifiers positive and increasing in row order, no key with two live
    /// rows, no two records under one key.
    pub fn restore(rows: Vec<Entry>, meta: Vec<Metadata>) -> (r: Option<EntryStore>)
        ensures
            r is Some <==> rows_wf(rows@.map_values(|e: Entry| e@)) && meta_wf(meta@.map_values(|m: Metadata| m@)),
            r matches Some(st) ==> st.rows() == rows@.map_values(|e: Entry| e@) && st.meta() == meta@.map_values(
                |m: Metadata| m@,
            ),
    {
        let ghost rv = rows@.map_values(|e: Entry| e@);
        let ghost mv = meta@.map_values(|m: Metadata| m@);
        let n = rows.len();
        let mut i: usize = 0;
        while i < n
            invariant
                n == rv.len(),
                i <= n,
                rv == rows@.map_values(|e: Entry| e@),
                forall|k: int| 0 <= k < i ==> rv[k].id >= 1,
                forall|a: int, b: int| 0 <= a < b < i ==> rv[a].id < rv[b].id,
                forall|a: int, b: int|
                    0 <= a < i && 0 <= b < i && rv[a].is_live() && rv[b].is_live() && rv[a].parent == rv[b].parent
                        && rv[a].name == rv[b].name ==> a == b,
            decreases n - i,
        {
            if rows[i].id == 0 {
                return None;
            }
            if i > 0 && rows[i - 1].id >= rows[i].id {
                assert(!rows_wf(rv)) by {
                    assert(rv[i - 1].id >= rv[i as int].id);
                }
                return None;
            }
            assert forall|a: int| 0 <= a < i implies rv[a].id < rv[i as int].id by {
                if a < i - 1 {
                    assert(rv[a].id < rv[i - 1].id);
                }
            }
            if rows[i].deleted_at.is_none() {
                let mut j: usize = 0;
                while j < i
                    invariant
                        j <= i < n,
                        n == rv.len(),
                        rv == rows@.map_values(|e: Entry| e@),
                        rv[i as int].is_live(),
                        forall|k: int| 0 <= k < j ==> !(rv[k].is_live() && rv[k].has_key(rv[i as int].parent, rv[i as int].name)),
                    decreases i - j,
                {
                    if rows[j].deleted_at.is_none() && rows[j].parent == rows[i].parent && rows[j].name == rows[i].name {
                        assert(!rows_wf(rv)) by {
                            assert(rv[j as int].is_live() && rv[i as int].is_live());
                        }
                        return None;
                    }
                    j = j + 1;
                }
            }
            i = i + 1;
        }
        let m = meta.len();
        let mut i: usize = 0;
        while i < m
            invariant
                m == mv.len(),
                i <= m,
                mv == meta@.map_values(|x: Metadata| x@),
                forall|a: int, b: int| 0 <= a < i && 0 <= b < i && mv[a].key == mv[b].key ==> a == b,
            decreases m - i,
        {
            let mut j: usize = 0;
            while j < i
                invariant
                    j <= i < m,
                    m == mv.len(),
                    mv == meta@.map_values(|x: Metadata| x@),
                    forall|k: int| 0 <= k < j ==> mv[k].key != mv[i as int].key,
                decreases i - j,
            {
                if meta[j].key == meta[i].key {
                    assert(!meta_wf(mv)) by {
                        assert(mv[j as int].key == mv[i as int].key);
                    }
                    return None;
                }
                j = j + 1;
            }
            i = i + 1;
        }
        Some(EntryStore { rows, meta })
    }

    /// Every row, deleted or not, in identifier order.
    pub fn all_rows(&self) -> (r: Vec<Entry>)
        ensures
            r@.map_values(|e: Entry| e@) == self.rows(),
    {
        let mut out: Vec<Entry> = Vec::new();
        let mut i: usize = 0;
        while i < self.rows.len()
            invariant
                i <= self.rows.len(),
                self.rows() == self.rows@.map_values(|e: Entry| e@),
                out@.map_values(|e: Entry| e@) == self.rows().take(i as int),
            decreases self.rows.len() - i,
        {
            let ghost before = out@;
            let item = self.rows[i].snapshot();
            out.push(item);
            proof {
                let lhs = out@.map_values(|e: Entry| e@);
                let rhs = self.rows().take(i + 1);
                assert(out@ == before.push(item));
                assert(before.map_values(|e: Entry| e@).len() == before.len());
                assert(lhs.len() == rhs.len());
                assert forall|j: int| 0 <= j < lhs.len() implies lhs[j] == rhs[j] by {
                    if j < before.len() {
                        assert(before.map_values(|e: Entry| e@)[j] == self.rows().take(i as int)[j]);
                    }
                }
                assert(lhs =~= rhs);
            }
            i = i + 1;
        }
        assert(self.rows().take(self.rows.len() as int) =~= self.rows());
        out
    }

    /// The row with identifier `id`, deleted or not.
    pub fn row_by_id(&self, id: u64) -> (r: Option<Entry>)
        requires
            self.wf(),
        ensures
            has_id(self.rows(), id) ==> (r matches Some(e) && e@ == self.rows()[id_index(self.rows(), id)]),
            !has_id(self.rows(), id) ==> r is None,
    {
        match self.find_id(id) {
            Some(i) => Some(self.rows[i].snapshot()),
            None => None,
        }
    }

    /// The index of the row with identifier `id`, if there is one.
    fn find_id(&self, id: u64) -> (r: Option<usize>)
        requires
            self.wf(),
        ensures
            match r {
                Some(i) => i < self.rows().len() && self.rows()[i as int].id == id && id_index(self.rows(), id)
                    == i as int,
                None => !has_id(self.rows(), id),
            },
    {
        let mut i: usize = 0;
        while i < self.rows.len()
            invariant
                i <= self.rows.len(),
                self.wf(),
                self.rows() == self.rows@.map_values(|e: Entry| e@),
                forall|k: int| 0 <= k < i ==> self.rows()[k].id != id,
            decreases self.rows.len() - i,
        {
            if self.rows[i].id == id {
                proof {
                    lemma_id_index(self.rows(), i as int);
                }
                return Some(i);
            }
            i = i + 1;
        }
        None
    }

    /// The index of the bookkeeping record under `key`, if there is one.
    fn find_record(&self, key: &String) -> (r: Option<usize>)
        requires
            self.wf(),
        ensures
            match r {
                Some(i) => i < self.meta().len() && self.meta()[i as int].key == key@
                    && record_index(self.meta(), key@) == i as int,
                None => !has_record(self.meta(), key@),
            },
    {
        let mut i: usize = 0;
        while i < self.meta.len()
            invariant
                i <= self.meta.len(),
                self.wf(),
                self.meta() == self.meta@.map_values(|m: Metadata| m@),
                forall|k: int| 0 <= k < i ==> self.meta()[k].key != key@,
            decreases self.meta.len() - i,
        {
            if self.meta[i].key == *key {
                proof {
                    let j = record_index(self.meta(), key@);
                    assert(self.meta()[i as int].key == key@);
                    assert(self.meta()[j].key == key@);
                }
                return Some(i);
            }
            i = i + 1;
        }
        None
    }

    /// The index of the live row under `parent`/`name`, if there is one.
    fn find_live(&self, parent: &String, name: &String) -> (r: Option<usize>)
        requires
            self.wf(),
        ensures
            match r {
                Some(i) => live_at(self.rows(), i as int, parent@, name@)
                    && live_index(self.rows(), parent@, name@) == i as int,
                None => !has_live(self.rows(), parent@, name@),
            },
    {
        let mut i: usize = 0;
        while i < self.rows.len()
            invariant
                i <= self.rows.len(),
                self.wf(),
                self.rows() == self.rows@.map_values(|e: Entry| e@),
                forall|k: int| 0 <= k < i ==> !live_at(self.rows(), k, parent@, name@),
            decreases self.rows.len() - i,
        {
            let row = &self.rows[i];
            if row.deleted_at.is_none() && row.parent == *parent && row.name == *name {
                proof {
                    assert(live_at(self.rows(), i as int, parent@, name@));
                    lemma_live_index_unique(self.rows(), i as int, parent@, name@);
                }
                return Some(i);
            }
            i = i + 1;
        }
        None
    }
}

/// The key of `e` has a live row other than row `i`, so that writing `e`
/// over the live row `i` would give the key two live rows.
pub open spec fn update_clash(rows: Seq<EntryV>, i: int, e: EntryV) -> bool {
    rows[i].is_live() && has_live(rows, e.parent, e.name) && live_index(rows, e.parent, e.name) != i
}

/// Looks up the live entry under `parent`/`name`.
pub fn fetch_one_by_path(store: &EntryStore, parent: &String, name: &String) -> (r: Result<Entry, StoreError>)
    requires
        store.wf(),
    ensures
        has_live(store.rows(), parent@, name@) ==> (r matches Ok(e) && e@ == store.rows()[live_index(
            store.rows(),
            parent@,
            name@,
        )]),
        !has_live(store.rows(), parent@, name@) ==> r == Err::<Entry, StoreError>(StoreError::RowNotFound),
{
    match store.find_live(parent, name) {
        Some(i) => Ok(store.rows[i].snapshot()),
        None => Err(StoreError::RowNotFound),
    }
}

/// Looks up the live entry with identifier `id`.
pub fn fetch_by_id(store: &EntryStore, id: u64) -> (r: Result<Entry, StoreError>)
    requires
        store.wf(),
    ensures
        (has_id(store.rows(), id) && store.rows()[id_index(store.rows(), id)].is_live()) ==> (r matches Ok(e)
            && e@ == store.rows()[id_index(store.rows(), id)]),
        !(has_id(store.rows(), id) && store.rows()[id_index(store.rows(), id)].is_live()) ==> r == Err::<
            Entry,
            StoreError,
        >(StoreError::RowNotFound),
{
    match store.find_id(id) {
        Some(i) => {
            if store.rows[i].deleted_at.is_none() {
                Ok(store.rows[i].snapshot())
            } else {
                Err(StoreError::RowNotFound)
            }
        },
        None => Err(StoreError::RowNotFound),
    }
}

/// Stores `entry` as a new live row and returns the identifier it was given:
/// one past the last identifier in use. The entry's own `id` and
/// `deleted_at` are not used.
pub fn create(store: &mut EntryStore, entry: Entry) -> (r: Result<u64, StoreError>)
    requires
        old(store).wf(),
    ensures
        final(store).wf(),
        final(store).meta() == old(store).meta(),
        has_live(old(store).rows(), entry@.parent, entry@.name) ==> r == Err::<u64, StoreError>(
            StoreError::Duplicate,
        ) && final(store).rows() == old(store).rows(),
        !has_live(old(store).rows(), entry@.parent, entry@.name) && next_id(old(store).rows()) > u64::MAX
            ==> r == Err::<u64, StoreError>(StoreError::Capacity) && final(store).rows() == old(store).rows(),
        !has_live(old(store).rows(), entry@.parent, entry@.name) && next_id(old(store).rows()) <= u64::MAX
            ==> r == Ok::<u64, StoreError>(next_id(old(store).rows()) as u64) && final(store).rows()
            == old(store).rows().push(inserted(next_id(old(store).rows()) as u64, entry@)),
{
    if store.find_live(&entry.parent, &entry.name).is_some() {
        return Err(StoreError::Duplicate);
    }
    let n = store.rows.len();
    let id: u64 = if n == 0 {
        1
    } else {
        let last = store.rows[n - 1].id;
        if last == u64::MAX {
            return Err(StoreError::Capacity);
        }
        last + 1
    };
    let row = Entry { id, deleted_at: None, ..entry };
    let ghost old_rows = store.rows();
    store.rows.push(row);
    proof {
        let new_rows = old_rows.push(inserted(id, entry@));
        assert(store.rows() =~= new_rows);
        assert forall|a: int, b: int| 0 <= a < b < new_rows.len() implies new_rows[a].id < new_rows[b].id by {
            if b == n {
                lemma_id_index(old_rows, a);
            }
        }
        assert forall|a: int, b: int|
            0 <= a < new_rows.len() && 0 <= b < new_rows.len() && new_rows[a].is_live()
                && new_rows[b].is_live() && new_rows[a].parent == new_rows[b].parent
                && new_rows[a].name == new_rows[b].name implies a == b by {
            if a == n && b != n {
                assert(live_at(old_rows, b, entry@.parent, entry@.name));
            } else if b == n && a != n {
                assert(live_at(old_rows, a, entry@.parent, entry@.name));
            }
        }
    }
    Ok(id)
}

/// Replaces the observed attributes of the row with identifier `entry.id`,
/// and returns how many rows changed.
pub fn update_by_id(store: &mut EntryStore, entry: Entry) -> (r: Result<u64, StoreError>)
    requires
        old(store).wf(),
    ensures
        final(store).wf(),
        final(store).meta() == old(store).meta(),
        !has_id(old(store).rows(), entry.id) ==> r == Ok::<u64, StoreError>(0) && final(store).rows() == old(store).rows(),
        has_id(old(store).rows(), entry.id) && update_clash(old(store).rows(), id_index(old(store).rows(), entry.id), entry@)
            ==> r == Err::<u64, StoreError>(StoreError::Duplicate) && final(store).rows() == old(store).rows(),
        has_id(old(store).rows(), entry.id) && !update_clash(old(store).rows(), id_index(old(store).rows(), entry.id), entry@)
            ==> r == Ok::<u64, StoreError>(1) && final(store).rows() == old(store).rows().update(
            id_index(old(store).rows(), entry.id),
            overwritten(old(store).rows()[id_index(old(store).rows(), entry.id)], entry@),
        ),
{
    let i = match store.find_id(entry.id) {
        Some(i) => i,
        None => {
            return Ok(0);
        },
    };
    let live = store.rows[i].deleted_at.is_none();
    if live {
        match store.find_live(&entry.parent, &entry.name) {
            Some(j) => {
                if j != i {
                    return Err(StoreError::Duplicate);
                }
            },
            None => {},
        }
    }
    let ghost old_rows = store.rows();
    let ghost e = entry@;
    let deleted_at = store.rows[i].deleted_at;
    let row = Entry { id: entry.id, deleted_at, ..entry };
    store.rows.set(i, row);
    proof {
        let new_rows = old_rows.update(i as int, overwritten(old_rows[i as int], e));
        assert(store.rows() =~= new_rows);
        assert forall|a: int, b: int|
            0 <= a < new_rows.len() && 0 <= b < new_rows.len() && new_rows[a].is_live()
                && new_rows[b].is_live() && new_rows[a].parent == new_rows[b].parent
                && new_rows[a].name == new_rows[b].name implies a == b by {
            if a == i && b != i {
                assert(live_at(old_rows, b, e.parent, e.name));
                lemma_live_index_unique(old_rows, b, e.parent, e.name);
            } else if b == i && a != i {
                assert(live_at(old_rows, a, e.parent, e.name));
                lemma_live_index_unique(old_rows, a, e.parent, e.name);
            }
        }
    }
    Ok(1)
}

/// Updates the live row under the entry's key if there is one, else inserts
/// the entry as a new row.
pub fn create_or_update(store: &mut EntryStore, entry: Entry) -> (r: Result<CreateOrUpdate, StoreError>)
    requires
        old(store).wf(),
    ensures
        final(store).wf(),
        final(store).meta() == old(store).meta(),
        has_live(old(store).rows(), entry@.parent, entry@.name) ==> r == Ok::<
            CreateOrUpdate,
            StoreError,
        >(CreateOrUpdate::Update(1)) && final(store).rows() == upserted(old(store).rows(), entry@),
        !has_live(old(store).rows(), entry@.parent, entry@.name) && next_id(old(store).rows()) <= u64::MAX
            ==> r == Ok::<CreateOrUpdate, StoreError>(
            CreateOrUpdate::Create(next_id(old(store).rows()) as u64),
        ) && final(store).rows() == upserted(old(store).rows(), entry@),
        !has_live(old(store).rows(), entry@.parent, entry@.name) && next_id(old(store).rows()) > u64::MAX
            ==> r == Err::<CreateOrUpdate, StoreError>(StoreError::Capacity) && final(store).rows()
            == old(store).rows(),
{
    match fetch_one_by_path(store, &entry.parent, &entry.name) {
        Ok(found) => {
            let ghost i = live_index(store.rows(), entry@.parent, entry@.name);
            let ghost e = entry@;
            proof {
                assert(live_at(store.rows(), i, e.parent, e.name));
                lemma_id_index(store.rows(), i);
            }
            let entry = Entry { id: found.id, ..entry };
            assert(id_index(store.rows(), entry.id) == i);
            assert(!update_clash(store.rows(), i, entry@));
            match update_by_id(store, entry) {
                Ok(n) => Ok(CreateOrUpdate::Update(n)),
                Err(err) => Err(err),
            }
        },
        Err(_) => match create(store, entry) {
            Ok(id) => Ok(CreateOrUpdate::Create(id)),
            Err(err) => Err(err),
        },
    }
}

/// Soft-deletes the live row under `parent`/`name`, and returns how many
/// rows it marked (0 when the key has no live row).
pub fn delete_by_path(store: &mut EntryStore, parent: &String, name: &String, now: i64) -> (r: u64)
    requires
        old(store).wf(),
    ensures
        final(store).wf(),
        final(store).meta() == old(store).meta(),
        final(store).rows() == path_deleted(old(store).rows(), parent@, name@, now),
        r == if has_live(old(store).rows(), parent@, name@) { 1u64 } else { 0u64 },
{
    match store.find_live(parent, name) {
        Some(i) => {
            let ghost old_rows = store.rows();
            let mut row = store.rows[i].snapshot();
            row.deleted_at = Some(now);
            store.rows.set(i, row);
            proof {
                assert(store.rows() =~= path_deleted(old_rows, parent@, name@, now));
            }
            1
        },
        None => 0,
    }
}

/// Soft-deletes every live row directly under `parent`, and returns how many
/// rows it marked.
pub fn delete_by_parent(store: &mut EntryStore, parent: &String, now: i64) -> (r: u64)
    requires
        old(store).wf(),
    ensures
        final(store).wf(),
        final(store).meta() == old(store).meta(),
        final(store).rows() == children_deleted(old(store).rows(), parent@, now),
        r == child_count(old(store).rows(), parent@),
{
    let ghost old_rows = store.rows();
    let n = store.rows.len();
    let mut count: u64 = 0;
    let mut i: usize = 0;
    while i < n
        invariant
            n == old_rows.len(),
            i <= n,
            rows_wf(old_rows),
            store.meta() == old(store).meta(),
            old_rows == old(store).rows(),
            store.rows().len() == n,
            count == child_count(old_rows.take(i as int), parent@),
            count <= i,
            forall|k: int| 0 <= k < i ==> store.rows()[k] == children_deleted(old_rows, parent@, now)[k],
            forall|k: int| i <= k < n ==> store.rows()[k] == old_rows[k],
        decreases n - i,
    {
        assert(old_rows.take(i + 1).drop_last() =~= old_rows.take(i as int));
        if store.rows[i].deleted_at.is_none() && store.rows[i].parent == *parent {
            let ghost before = store.rows();
            let mut row = store.rows[i].snapshot();
            row.deleted_at = Some(now);
            store.rows.set(i, row);
            count = count + 1;
            proof {
                assert(store.rows() =~= before.update(i as int, deleted(old_rows[i as int], now)));
            }
        }
        i = i + 1;
    }
    proof {
        assert(old_rows.take(n as int) =~= old_rows);
        assert(store.rows() =~= children_deleted(old_rows, parent@, now));
    }
    count
}

/// The live rows of page `page_num` (counted from 1), `page_size` rows a page,
/// in identifier order.
pub fn paged_fetch(store: &EntryStore, page_num: u64, page_size: u64) -> (r: Vec<Entry>)
    requires
        store.wf(),
        page_num >= 1,
    ensures
        r@.map_values(|e: Entry| e@) == page_of(store.rows(), page_num as int, page_size as int),
{
    let ghost rows = store.rows();
    let mut live: Vec<Entry> = Vec::new();
    let n = store.rows.len();
    let mut i: usize = 0;
    while i < n
        invariant
            n == rows.len(),
            i <= n,
            rows == store.rows(),
            rows == store.rows@.map_values(|e: Entry| e@),
            live@.map_values(|e: Entry| e@) == live_rows(rows.take(i as int)),
        decreases n - i,
    {
        assert(rows.take(i + 1).drop_last() =~= rows.take(i as int));
        if store.rows[i].deleted_at.is_none() {
            let ghost before = live@;
            live.push(store.rows[i].snapshot());
            assert(live@.map_values(|e: Entry| e@) =~= before.map_values(|e: Entry| e@).push(rows[i as int]));
        }
        i = i + 1;
    }
    assert(rows.take(n as int) =~= rows);
    let ghost all = live_rows(rows);
    let mut out: Vec<Entry> = Vec::new();
    let len = live.len();
    assert(len as int <= u64::MAX);
    let start = match (page_num - 1).checked_mul(page_size) {
        Some(s) => s,
        None => {
            proof {
                assert((page_num as int - 1) * (page_size as int) >= len as int) by (nonlinear_arith)
                    requires
                        (page_num as int - 1) * (page_size as int) > u64::MAX,
                        len <= u64::MAX,
                ;
            }
            assert(out@.map_values(|e: Entry| e@) =~= page_of(rows, page_num as int, page_size as int));
            return out;
        },
    };
    assert(start as int == (page_num as int - 1) * page_size as int);
    if start as u128 >= len as u128 {
        assert(out@.map_values(|e: Entry| e@) =~= page_of(rows, page_num as int, page_size as int));
        return out;
    }
    let start = start as usize;
    let end: usize = if page_size as u128 >= (len - start) as u128 { len } else { start + page_size as usize };
    let mut k: usize = start;
    while k < end
        invariant
            start <= k <= end,
            end <= len,
            len == live@.len(),
            live@.map_values(|e: Entry| e@) == all,
            out@.map_values(|e: Entry| e@) == all.subrange(start as int, k as int),
        decreases end - k,
    {
        let ghost before = out@;
        assert(live@.map_values(|e: Entry| e@)[k as int] == all[k as int]);
        let item = live[k].snapshot();
        assert(item@ == all[k as int]);
        out.push(item);
        proof {
            let lhs = out@.map_values(|e: Entry| e@);
            let rhs = all.subrange(start as int, k + 1);
            assert(out@ == before.push(item));
            assert(before.map_values(|e: Entry| e@).len() == before.len());
            assert(before.len() == k - start);
            assert(lhs.len() == rhs.len());
            assert forall|j: int| 0 <= j < lhs.len() implies lhs[j] == rhs[j] by {
                if j < before.len() {
                    assert(before.map_values(|e: Entry| e@)[j] == all.subrange(start as int, k as int)[j]);
                }
            }
            assert(lhs =~= rhs);
        }
        k = k + 1;
    }
    assert(out@.map_values(|e: Entry| e@) =~= page_of(rows, page_num as int, page_size as int));
    out
}

/// When the bookkeeping record under `key` was last written.
pub fn find_key_updated_at(store: &EntryStore, key: &String) -> (r: Result<i64, StoreError>)
    requires
        store.wf(),
    ensures
        has_record(store.meta(), key@) ==> r == Ok::<i64, StoreError>(
            store.meta()[record_index(store.meta(), key@)].updated_at,
        ),
        !has_record(store.meta(), key@) ==> r == Err::<i64, StoreError>(StoreError::RowNotFound),
{
    match store.find_record(key) {
        Some(i) => Ok(store.meta[i].updated_at),
        None => Err(StoreError::RowNotFound),
    }
}

/// Writes a new bookkeeping record stamped `now`, and returns the stamp.
pub fn create_key(store: &mut EntryStore, key: String, value: String, now: i64) -> (r: Result<i64, StoreError>)
    requires
        old(store).wf(),
    ensures
        final(store).wf(),
        final(store).rows() == old(store).rows(),
        has_record(old(store).meta(), key@) ==> r == Err::<i64, StoreError>(StoreError::Duplicate)
            && final(store).meta() == old(store).meta(),
        !has_record(old(store).meta(), key@) ==> r == Ok::<i64, StoreError>(now) && final(store).meta()
            == old(store).meta().push(MetadataV { key: key@, value: value@, updated_at: now }),
{
    if store.find_record(&key).is_some() {
        return Err(StoreError::Duplicate);
    }
    let ghost old_meta = store.meta();
    let ghost rec = MetadataV { key: key@, value: value@, updated_at: now };
    store.meta.push(Metadata { key, value, updated_at: now });
    proof {
        let new_meta = old_meta.push(rec);
        assert(store.meta() =~= new_meta);
        assert forall|a: int, b: int|
            0 <= a < new_meta.len() && 0 <= b < new_meta.len() && new_meta[a].key == new_meta[b].key implies a
            == b by {
            if a == old_meta.len() && b != a {
                assert(old_meta[b].key == rec.key);
            } else if b == old_meta.len() && b != a {
                assert(old_meta[a].key == rec.key);
            }
        }
    }
    Ok(now)
}

/// Rewrites the value of the bookkeeping record under `key`, stamps it `now`,
/// and returns the stamp.
pub fn update_key(store: &mut EntryStore, key: String, value: String, now: i64) -> (r: Result<i64, StoreError>)
    requires
        old(store).wf(),
    ensures
        final(store).wf(),
        final(store).rows() == old(store).rows(),
        !has_record(old(store).meta(), key@) ==> r == Err::<i64, StoreError>(StoreError::RowNotFound)
            && final(store).meta() == old(store).meta(),
        has_record(old(store).meta(), key@) ==> r == Ok::<i64, StoreError>(now) && final(store).meta()
            == old(store).meta().update(
            record_index(old(store).meta(), key@),
            MetadataV { key: key@, value: value@, updated_at: now },
        ),
{
    match store.find_record(&key) {
        Some(i) => {
            let ghost old_meta = store.meta();
            let ghost rec = MetadataV { key: key@, value: value@, updated_at: now };
            store.meta.set(i, Metadata { key, value, updated_at: now });
            proof {
                assert(store.meta() =~= old_meta.update(i as int, rec));
            }
            Ok(now)
        },
        None => Err(StoreError::RowNotFound),
    }
}

} // verus!

verus! {

/// The live row under the key of `e` holds what `e` observed.
pub open spec fn reflects(rows: Seq<EntryV>, e: EntryV) -> bool {
    has_live(rows, e.parent, e.name) && rows[live_index(rows, e.parent, e.name)].same_observation(e)
}

/// No two of `es` share a key, as with the objects of one walk.
pub open spec fn distinct_keys(es: Seq<EntryV>) -> bool {
    forall|i: int, j: int| 0 <= i < es.len() && 0 <= j < es.len() && i != j ==> !es[i].has_key(es[j].parent, es[j].name)
}

/// A create-or-update keeps the rows well formed and leaves the entry's key
/// with a live row that holds what the entry observed.
pub proof fn lemma_upserted_wf(rows: Seq<EntryV>, e: EntryV)
    requires
        rows_wf(rows),
        next_id(rows) <= u64::MAX,
    ensures
        rows_wf(upserted(rows, e)),
        reflects(upserted(rows, e), e),
        next_id(upserted(rows, e)) <= next_id(rows) + 1,
{
    let t = upserted(rows, e);
    let i = if has_live(rows, e.parent, e.name) { live_index(rows, e.parent, e.name) } else { rows.len() as int };
    if has_live(rows, e.parent, e.name) {
        assert(live_at(rows, i, e.parent, e.name));
        assert forall|a: int| 0 <= a < t.len() implies t[a].id == rows[a].id by {}
        assert(t.last().id == rows.last().id);
    } else {
        assert forall|a: int, b: int| 0 <= a < b < t.len() implies t[a].id < t[b].id by {
            if b == rows.len() {
                lemma_id_index(rows, a);
            }
        }
    }
    assert forall|a: int, b: int|
        0 <= a < t.len() && 0 <= b < t.len() && t[a].is_live() && t[b].is_live() && t[a].parent == t[b].parent
            && t[a].name == t[b].name implies a == b by {
        if a == i && b != i {
            assert(live_at(rows, b, e.parent, e.name));
        } else if b == i && a != i {
            assert(live_at(rows, a, e.parent, e.name));
        }
    }
    assert(live_at(t, i, e.parent, e.name));
    lemma_live_index_unique(t, i, e.parent, e.name);
}

/// A create-or-update of `e` leaves the row of any other key as it was.
proof fn lemma_upserted_frame(rows: Seq<EntryV>, e: EntryV, f: EntryV)
    requires
        rows_wf(rows),
        next_id(rows) <= u64::MAX,
        reflects(rows, f),
        !e.has_key(f.parent, f.name),
    ensures
        reflects(upserted(rows, e), f),
{
    let t = upserted(rows, e);
    lemma_upserted_wf(rows, e);
    let j = live_index(rows, f.parent, f.name);
    assert(live_at(rows, j, f.parent, f.name));
    if has_live(rows, e.parent, e.name) {
        let i = live_index(rows, e.parent, e.name);
        assert(live_at(rows, i, e.parent, e.name));
    }
    assert(live_at(t, j, f.parent, f.name));
    lemma_live_index_unique(t, j, f.parent, f.name);
}

/// After a run over entries of distinct keys, each entry's key has a live row
/// that holds what the entry observed.
proof fn lemma_upserted_all_reflects(rows: Seq<EntryV>, es: Seq<EntryV>)
    requires
        rows_wf(rows),
        distinct_keys(es),
        next_id(rows) + es.len() <= u64::MAX,
    ensures
        rows_wf(upserted_all(rows, es)),
        next_id(upserted_all(rows, es)) <= next_id(rows) + es.len(),
        forall|k: int| 0 <= k < es.len() ==> reflects(upserted_all(rows, es), #[trigger] es[k]),
    decreases es.len(),
{
    if es.len() > 0 {
        let init = es.drop_last();
        assert(distinct_keys(init));
        lemma_upserted_all_reflects(rows, init);
        let mid = upserted_all(rows, init);
        lemma_upserted_wf(mid, es.last());
        assert forall|k: int| 0 <= k < es.len() implies reflects(upserted_all(rows, es), #[trigger] es[k]) by {
            if k < es.len() - 1 {
                assert(init[k] == es[k]);
                assert(!es[es.len() - 1].has_key(es[k].parent, es[k].name));
                lemma_upserted_frame(mid, es.last(), es[k]);
            }
        }
    }
}

/// A create-or-update that repeats what the row already holds changes nothing.
proof fn lemma_upserted_unchanged(rows: Seq<EntryV>, es: Seq<EntryV>)
    requires
        rows_wf(rows),
        forall|k: int| 0 <= k < es.len() ==> reflects(rows, #[trigger] es[k]),
    ensures
        upserted_all(rows, es) == rows,
    decreases es.len(),
{
    if es.len() > 0 {
        let init = es.drop_last();
        assert forall|k: int| 0 <= k < init.len() implies reflects(rows, #[trigger] init[k]) by {
            assert(init[k] == es[k]);
        }
        lemma_upserted_unchanged(rows, init);
        let e = es.last();
        assert(reflects(rows, es[es.len() - 1]));
        let i = live_index(rows, e.parent, e.name);
        assert(overwritten(rows[i], e) == rows[i]);
        assert(rows.update(i, rows[i]) =~= rows);
    }
}

/// Every one of `es` already has a live row under its key, so that writing
/// them inserts nothing.
pub open spec fn all_indexed(rows: Seq<EntryV>, es: Seq<EntryV>) -> bool {
    forall|k: int| 0 <= k < es.len() ==> has_live(rows, #[trigger] es[k].parent, es[k].name)
}

/// A create-or-update never takes the live row away from a key.
pub proof fn lemma_upserted_keeps_key(rows: Seq<EntryV>, e: EntryV, parent: Seq<char>, name: Seq<char>)
    requires
        rows_wf(rows),
        has_live(rows, parent, name),
    ensures
        has_live(upserted(rows, e), parent, name),
{
    let t = upserted(rows, e);
    let i = live_index(rows, parent, name);
    assert(live_at(rows, i, parent, name));
    if has_live(rows, e.parent, e.name) {
        let j = live_index(rows, e.parent, e.name);
        assert(live_at(rows, j, e.parent, e.name));
    }
    assert(live_at(t, i, parent, name));
}

/// A create-or-update keeps every key of `es` indexed.
pub proof fn lemma_upserted_keeps_live(rows: Seq<EntryV>, e: EntryV, es: Seq<EntryV>)
    requires
        rows_wf(rows),
        all_indexed(rows, es),
    ensures
        all_indexed(upserted(rows, e), es),
{
    assert forall|k: int| 0 <= k < es.len() implies has_live(upserted(rows, e), #[trigger] es[k].parent, es[k].name) by {
        lemma_upserted_keeps_key(rows, e, es[k].parent, es[k].name);
    }
}

/// Running the reconciling scan twice over an unchanged walk leaves the rows
/// exactly as the first run left them, with no key holding two live rows.
pub proof fn lemma_scan_idempotent(rows: Seq<EntryV>, es: Seq<EntryV>)
    requires
        rows_wf(rows),
        distinct_keys(es),
        next_id(rows) + es.len() <= u64::MAX,
    ensures
        rows_wf(upserted_all(rows, es)),
        upserted_all(upserted_all(rows, es), es) == upserted_all(rows, es),
{
    lemma_upserted_all_reflects(rows, es);
    lemma_upserted_unchanged(upserted_all(rows, es), es);
}

/// A create for a key with no live row adds one live row for it, under a new
/// identifier; a later modify of the same key rewrites that row, identifier
/// kept, instead of adding another.
pub proof fn lemma_create_then_modify(rows: Seq<EntryV>, created: EntryV, modified: EntryV)
    requires
        rows_wf(rows),
        next_id(rows) < u64::MAX,
        !has_live(rows, created.parent, created.name),
        modified.has_key(created.parent, created.name),
    ensures
        ({
            let t = upserted(rows, created);
            let u = upserted(t, modified);
            let i = rows.len() as int;
            &&& rows_wf(t) && rows_wf(u)
            &&& t.len() == rows.len() + 1 && u.len() == t.len()
            &&& live_at(t, i, created.parent, created.name)
            &&& live_index(t, created.parent, created.name) == i
            &&& t[i].id == next_id(rows)
            &&& live_at(u, i, created.parent, created.name)
            &&& live_index(u, created.parent, created.name) == i
            &&& u[i].id == t[i].id
            &&& u[i].same_observation(modified)
        }),
{
    let t = upserted(rows, created);
    let i = rows.len() as int;
    lemma_upserted_wf(rows, created);
    assert(live_at(t, i, created.parent, created.name));
    lemma_live_index_unique(t, i, created.parent, created.name);
    lemma_upserted_wf(t, modified);
    let u = upserted(t, modified);
    assert(live_at(u, i, created.parent, created.name));
    lemma_live_index_unique(u, i, created.parent, created.name);
}

/// Every row of the live listing is live, and is one of the rows.
pub proof fn lemma_live_rows_are_live(rows: Seq<EntryV>)
    ensures
        forall|k: int| 0 <= k < live_rows(rows).len() ==> (#[trigger] live_rows(rows)[k]).is_live(),
        forall|k: int| 0 <= k < live_rows(rows).len() ==> rows.contains(#[trigger] live_rows(rows)[k]),
    decreases rows.len(),
{
    if rows.len() > 0 {
        let prev = live_rows(rows.drop_last());
        lemma_live_rows_are_live(rows.drop_last());
        assert forall|k: int| 0 <= k < live_rows(rows).len() implies (#[trigger] live_rows(rows)[k]).is_live()
            && rows.contains(live_rows(rows)[k]) by {
            if k < prev.len() {
                assert(live_rows(rows)[k] == prev[k]);
                let j = choose|j: int| 0 <= j < rows.drop_last().len() && rows.drop_last()[j] == prev[k];
                assert(rows[j] == prev[k]);
            } else {
                assert(rows[rows.len() - 1] == live_rows(rows)[k]);
            }
        }
    }
}

/// No page lists a soft-deleted row: each row on a page is live, and its
/// identifier is not that of any deleted row.
pub proof fn lemma_page_excludes_deleted(rows: Seq<EntryV>, page_num: int, page_size: int, d: int)
    requires
        rows_wf(rows),
        page_num >= 1,
        page_size >= 0,
        0 <= d < rows.len(),
        !rows[d].is_live(),
    ensures
        forall|k: int| 0 <= k < page_of(rows, page_num, page_size).len() ==> (#[trigger] page_of(
            rows,
            page_num,
            page_size,
        )[k]).is_live() && page_of(rows, page_num, page_size)[k].id != rows[d].id,
{
    let live = live_rows(rows);
    let page = page_of(rows, page_num, page_size);
    lemma_live_rows_are_live(rows);
    let start = (page_num - 1) * page_size;
    assert(start >= 0) by (nonlinear_arith)
        requires
            page_num >= 1,
            page_size >= 0,
            start == (page_num - 1) * page_size,
    ;
    assert forall|k: int| 0 <= k < page.len() implies (#[trigger] page[k]).is_live() && page[k].id != rows[d].id by {
        assert(page[k] == live[start + k]);
        assert(live[start + k].is_live());
        assert(rows.contains(live[start + k]));
        let j = choose|j: int| 0 <= j < rows.len() && rows[j] == live[start + k];
        if page[k].id == rows[d].id {
            lemma_id_index(rows, j);
            lemma_id_index(rows, d);
        }
    }
}

/// Removing an indexed file marks its row deleted at `now`, after which the
/// key has no live row and no page lists the row; removing a path that is not
/// indexed changes nothing.
pub proof fn lemma_remove_file(rows: Seq<EntryV>, parent: Seq<char>, name: Seq<char>, now: i64)
    requires
        rows_wf(rows),
    ensures
        !has_live(rows, parent, name) ==> path_deleted(rows, parent, name, now) == rows,
        has_live(rows, parent, name) ==> ({
            let i = live_index(rows, parent, name);
            let t = path_deleted(rows, parent, name, now);
            &&& rows_wf(t)
            &&& t.len() == rows.len()
            &&& t[i].deleted_at == Some(now)
            &&& t[i].id == rows[i].id
            &&& !has_live(t, parent, name)
            &&& !live_rows(t).contains(t[i])
        }),
{
    if has_live(rows, parent, name) {
        let i = live_index(rows, parent, name);
        let t = path_deleted(rows, parent, name, now);
        assert(live_at(rows, i, parent, name));
        if has_live(t, parent, name) {
            let j = live_index(t, parent, name);
            assert(live_at(t, j, parent, name));
            assert(live_at(rows, j, parent, name));
            assert(rows[i].is_live() && rows[j].is_live());
        }
        lemma_live_rows_are_live(t);
        if live_rows(t).contains(t[i]) {
            let k = choose|k: int| 0 <= k < live_rows(t).len() && live_rows(t)[k] == t[i];
            assert(live_rows(t)[k].is_live());
        }
    }
}

/// Removing a folder marks deleted its own live row and each live row whose
/// parent is the folder, and leaves every other row, deeper ones included,
/// as it was.
pub proof fn lemma_remove_folder(rows: Seq<EntryV>, parent: Seq<char>, name: Seq<char>, now: i64)
    requires
        rows_wf(rows),
    ensures
        ({
            let folder = joined(parent, name);
            let t = children_deleted(path_deleted(rows, parent, name, now), folder, now);
            &&& rows_wf(t)
            &&& t.len() == rows.len()
            &&& forall|i: int| 0 <= i < rows.len() && is_live_child(rows[i], folder) ==> (#[trigger] t[i]).deleted_at
                == Some(now) && t[i].id == rows[i].id
            &&& has_live(rows, parent, name) ==> t[live_index(rows, parent, name)].deleted_at == Some(now)
            &&& !has_live(t, parent, name)
            &&& forall|i: int|
                0 <= i < rows.len() && rows[i].parent != folder && !rows[i].has_key(parent, name) ==> #[trigger] t[i]
                    == rows[i]
            &&& forall|i: int| 0 <= i < rows.len() ==> (#[trigger] t[i]).parent == folder ==> !t[i].is_live()
        }),
{
    let folder = joined(parent, name);
    let mid = path_deleted(rows, parent, name, now);
    let t = children_deleted(mid, folder, now);
    lemma_remove_file(rows, parent, name, now);
    if has_live(rows, parent, name) {
        assert(live_at(rows, live_index(rows, parent, name), parent, name));
    }
    assert forall|i: int| 0 <= i < rows.len() && is_live_child(rows[i], folder) implies (#[trigger] t[i]).deleted_at
        == Some(now) && t[i].id == rows[i].id by {
        if has_live(rows, parent, name) && i == live_index(rows, parent, name) {
        } else {
            assert(mid[i] == rows[i]);
        }
    }
    if has_live(t, parent, name) {
        let j = live_index(t, parent, name);
        assert(live_at(t, j, parent, name));
        assert(live_at(mid, j, parent, name));
    }
    assert forall|i: int|
        0 <= i < rows.len() && rows[i].parent != folder && !rows[i].has_key(parent, name) implies #[trigger] t[i]
            == rows[i] by {
        assert(mid[i] == rows[i]);
    }
}

} // verus!
