use vstd::prelude::*;

verus! {

/// What the filesystem reports about one object, as plain values.
/// Timestamps are seconds since the Unix epoch.
#[derive(Clone, Copy, Debug, PartialEq, Eq, Structural)]
pub struct FileStat {
    pub is_dir: bool,
    pub len: u64,
    pub mode: u32,
    pub created: i64,
    pub modified: i64,
}

/// One indexed filesystem object. `id` is 0 until the row is stored;
/// `deleted_at` is `None` while the object is present on disk.
#[derive(Clone, Debug)]
pub struct Entry {
    pub id: u64,
    pub parent: String,
    pub name: String,
    pub is_dir: bool,
    pub size: u64,
    pub permission: u32,
    pub created_at: i64,
    pub updated_at: i64,
    pub deleted_at: Option<i64>,
}

/// The mathematical value of an [`Entry`].
pub ghost struct EntryV {
    pub id: u64,
    pub parent: Seq<char>,
    pub name: Seq<char>,
    pub is_dir: bool,
    pub size: u64,
    pub permission: u32,
    pub created_at: i64,
    pub updated_at: i64,
    pub deleted_at: Option<i64>,
}

impl View for Entry {
    type V = EntryV;

    open spec fn view(&self) -> EntryV {
        EntryV {
            id: self.id,
            parent: self.parent@,
            name: self.name@,
            is_dir: self.is_dir,
            size: self.size,
            permission: self.permission,
            created_at: self.created_at,
            updated_at: self.updated_at,
            deleted_at: self.deleted_at,
        }
    }
}

impl EntryV {
    /// A live row is one that has not been soft-deleted.
    pub open spec fn is_live(self) -> bool {
        self.deleted_at.is_none()
    }

    pub open spec fn has_key(self, parent: Seq<char>, name: Seq<char>) -> bool {
        self.parent == parent && self.name == name
    }

    /// The attributes observed on disk, which a write carries over to the row.
    pub open spec fn same_observation(self, other: EntryV) -> bool {
        &&& self.parent == other.parent
        &&& self.name == other.name
        &&& self.is_dir == other.is_dir
        &&& self.size == other.size
        &&& self.permission == other.permission
        &&& self.created_at == other.created_at
        &&& self.updated_at == other.updated_at
    }
}

/// The entry built from an observation: a directory has size 0.
pub open spec fn observed(stat: FileStat, parent: Seq<char>, name: Seq<char>) -> EntryV {
    EntryV {
        id: 0,
        parent,
        name,
        is_dir: stat.is_dir,
        size: if stat.is_dir { 0 } else { stat.len },
        permission: stat.mode,
        created_at: stat.created,
        updated_at: stat.modified,
        deleted_at: None,
    }
}

/// `parent` and `name` joined by one separator; the root `/` and the empty
/// parent take the name directly.
pub open spec fn joined(parent: Seq<char>, name: Seq<char>) -> Seq<char> {
    if parent.len() == 0 || parent == seq!['/'] {
        parent + name
    } else {
        parent + seq!['/'] + name
    }
}

impl Entry {
    /// Builds the unsaved entry for an object observed at `parent`/`name`.
    pub fn from_metadata(md: FileStat, parent: String, name: String) -> (r: Entry)
        ensures
            r@ == observed(md, parent@, name@),
    {
        Entry {
            id: 0,
            parent,
            name,
            is_dir: md.is_dir,
            size: if md.is_dir { 0 } else { md.len },
            permission: md.mode,
            created_at: md.created,
            updated_at: md.modified,
            deleted_at: None,
        }
    }

    /// A copy of this entry.
    pub fn snapshot(&self) -> (r: Entry)
        ensures
            r@ == self@,
    {
        Entry {
            id: self.id,
            parent: self.parent.clone(),
            name: self.name.clone(),
            is_dir: self.is_dir,
            size: self.size,
            permission: self.permission,
            created_at: self.created_at,
            updated_at: self.updated_at,
            deleted_at: self.deleted_at,
        }
    }

    /// The entry's full path: its parent and its name joined by `/`.
    pub fn full_path(&self) -> (r: String)
        ensures
            r@ == joined(self.parent@, self.name@),
    {
        let empty = String::new();
        let root = String::from_str("/");
        proof {
            reveal_strlit("/");
        }
        assert(root@ =~= seq!['/']);
        let mut r = self.parent.clone();
        if self.parent == empty || self.parent == root {
            r.append(self.name.as_str());
            assert(r@ =~= joined(self.parent@, self.name@));
        } else {
            assert(self.parent@.len() != 0) by {
                if self.parent@.len() == 0 {
                    assert(self.parent@ =~= empty@);
                }
            }
            r.append(root.as_str());
            r.append(self.name.as_str());
            assert(r@ =~= joined(self.parent@, self.name@));
        }
        r
    }
}

/// What a create-or-update did: the id it created, or how many rows it updated.
#[derive(Clone, Copy, Debug, PartialEq, Eq, Structural)]
pub enum CreateOrUpdate {
    Create(u64),
    Update(u64),
}

} // verus!
