//! The contents of a store as plain rows, and the means to tell whether such
//! contents make a valid store.
//!
//! A snapshot may come from anywhere: from a store, or from rows that were
//! read elsewhere. It is held to everything that a store promises of its
//! contents, so rows whose folders run in a circle, name a parent that is
//! not there, or share a name are told apart from rows that a store can take
//! up.

use vstd::prelude::*;
use crate::model::{
    FolderView, StoreState, folder_index, folders_ascending, has_folder, is_rooted,
    lemma_folder_index, parent_of, rooted_within,
};
use crate::store::{Folder, Note, find_folder, folder_views, note_views};

verus! {

/// The contents of a store.
pub struct Snapshot {
    /// The recorded version of the schema.
    pub version: i64,
    /// Whether the table `folders` exists.
    pub folders_table: bool,
    /// Whether the table `note` exists.
    pub note_table: bool,
    /// Whether `note` has the title column.
    pub title_column: bool,
    /// The folders, in the order of their identifiers.
    pub folders: Vec<Folder>,
    /// The notes, in the order of their identifiers.
    pub notes: Vec<Note>,
    /// The last identifier that `folders` assigned; 0 before the first.
    pub last_folder_id: i64,
    /// The last identifier that `note` assigned; 0 before the first.
    pub last_note_id: i64,
}

impl View for Snapshot {
    type V = StoreState;

    open spec fn view(&self) -> StoreState {
        StoreState {
            version: self.version,
            folders_table: self.folders_table,
            note_table: self.note_table,
            title_column: self.title_column,
            folders: folder_views(self.folders@),
            notes: note_views(self.notes@),
            last_folder_id: self.last_folder_id,
            last_note_id: self.last_note_id,
        }
    }
}

/// Tells whether the rows are in tables that exist, `note` exists beside
/// `folders`, and the title column is in `note`.
pub fn tables_are_valid(snapshot: &Snapshot) -> (ok: bool)
    ensures
        ok == snapshot@.tables_valid(),
{
    (!snapshot.note_table || snapshot.folders_table) && (!snapshot.title_column
        || snapshot.note_table) && (snapshot.folders_table || snapshot.folders.len() == 0) && (
    snapshot.note_table || snapshot.notes.len() == 0)
}

/// Tells whether the identifiers are between 1 and the last that their table
/// assigned, and the rows stand in the order of their identifiers.
pub fn ids_are_valid(snapshot: &Snapshot) -> (ok: bool)
    ensures
        ok == snapshot@.ids_valid(),
{
    let ghost views = snapshot@;
    if snapshot.last_folder_id < 0 || snapshot.last_note_id < 0 {
        return false;
    }
    let mut previous: i64 = 0;
    let mut i: usize = 0;
    while i < snapshot.folders.len()
        invariant
            views == snapshot@,
            i <= views.folders.len(),
            0 <= previous <= snapshot.last_folder_id,
            i == 0 ==> previous == 0,
            i > 0 ==> previous == views.folders[i - 1].id,
            forall|k: int| 0 <= k < i ==> 1 <= (#[trigger] views.folders[k]).id <= previous,
            forall|a: int, b: int|
                0 <= a < b < i ==> (#[trigger] views.folders[a]).id < (
                #[trigger] views.folders[b]).id,
        decreases snapshot.folders.len() - i,
    {
        let id = snapshot.folders[i].id;
        assert(views.folders[i as int].id == id);
        if id <= previous || id > snapshot.last_folder_id {
            proof {
                if views.ids_valid() {
                    assert(1 <= views.folders[i as int].id <= views.last_folder_id);
                    if i > 0 {
                        assert(views.folders[i - 1].id < views.folders[i as int].id);
                    }
                }
            }
            return false;
        }
        previous = id;
        i += 1;
    }
    previous = 0;
    let mut k: usize = 0;
    while k < snapshot.notes.len()
        invariant
            views == snapshot@,
            k <= views.notes.len(),
            0 <= previous <= snapshot.last_note_id,
            k == 0 ==> previous == 0,
            k > 0 ==> previous == views.notes[k - 1].id,
            forall|j: int| 0 <= j < k ==> 1 <= (#[trigger] views.notes[j]).id <= previous,
            forall|a: int, b: int|
                0 <= a < b < k ==> (#[trigger] views.notes[a]).id < (#[trigger] views.notes[b]).id,
        decreases snapshot.notes.len() - k,
    {
        let id = snapshot.notes[k].id;
        assert(views.notes[k as int].id == id);
        if id <= previous || id > snapshot.last_note_id {
            proof {
                if views.ids_valid() {
                    assert(1 <= views.notes[k as int].id <= views.last_note_id);
                    if k > 0 {
                        assert(views.notes[k - 1].id < views.notes[k as int].id);
                    }
                }
            }
            return false;
        }
        previous = id;
        k += 1;
    }
    true
}

/// Tells whether no two folders have the same name; folders without a name
/// are exempt.
pub fn names_are_unique(snapshot: &Snapshot) -> (ok: bool)
    ensures
        ok == snapshot@.names_unique(),
{
    let ghost views = snapshot@.folders;
    let mut i: usize = 0;
    while i < snapshot.folders.len()
        invariant
            views == snapshot@.folders,
            i <= views.len(),
            forall|a: int, b: int|
                0 <= a < i && a < b < views.len() && (#[trigger] views[a]).name is Some
                    ==> views[a].name != (#[trigger] views[b]).name,
        decreases snapshot.folders.len() - i,
    {
        assert(views[i as int] == snapshot.folders@[i as int]@);
        match &snapshot.folders[i].name {
            Some(name) => {
                let mut j: usize = i + 1;
                while j < snapshot.folders.len()
                    invariant
                        views == snapshot@.folders,
                        i < j <= views.len(),
                        views[i as int].name == Some(name@),
                        forall|b: int| i < b < j ==> (#[trigger] views[b]).name != Some(name@),
                    decreases snapshot.folders.len() - j,
                {
                    assert(views[j as int] == snapshot.folders@[j as int]@);
                    match &snapshot.folders[j].name {
                        Some(other) => {
                            if *other == *name {
                                assert(views[i as int].name == views[j as int].name);
                                return false;
                            }
                        },
                        None => {},
                    }
                    j += 1;
                }
            },
            None => {},
        }
        i += 1;
    }
    proof {
        assert forall|a: int, b: int|
            0 <= a < views.len() && 0 <= b < views.len() && (#[trigger] views[a]).name is Some
                && views[a].name == (#[trigger] views[b]).name implies a == b by {
            if a < b {
                assert(views[a].name != views[b].name);
            } else if b < a {
                assert(views[b].name != views[a].name);
            }
        }
    }
    true
}

/// Tells whether every parent that a folder names exists, and the folder of
/// every note.
pub fn references_are_valid(snapshot: &Snapshot) -> (ok: bool)
    requires
        snapshot@.ids_valid(),
    ensures
        ok == snapshot@.references_valid(),
{
    let ghost views = snapshot@;
    let mut i: usize = 0;
    while i < snapshot.folders.len()
        invariant
            views == snapshot@,
            folders_ascending(views.folders),
            i <= views.folders.len(),
            forall|k: int|
                0 <= k < i && (#[trigger] views.folders[k]).parent_id is Some ==> has_folder(
                    views.folders,
                    views.folders[k].parent_id.unwrap(),
                ),
        decreases snapshot.folders.len() - i,
    {
        assert(views.folders[i as int] == snapshot.folders@[i as int]@);
        match snapshot.folders[i].parent_id {
            Some(parent) => {
                match find_folder(&snapshot.folders, parent) {
                    Some(p) => {
                        assert(views.folders[p as int].id == parent);
                    },
                    None => {
                        return false;
                    },
                }
            },
            None => {},
        }
        i += 1;
    }
    let mut k: usize = 0;
    while k < snapshot.notes.len()
        invariant
            views == snapshot@,
            folders_ascending(views.folders),
            k <= views.notes.len(),
            forall|j: int|
                0 <= j < k ==> has_folder(views.folders, (#[trigger] views.notes[j]).folder_id),
        decreases snapshot.notes.len() - k,
    {
        assert(views.notes[k as int] == snapshot.notes@[k as int]@);
        match find_folder(&snapshot.folders, snapshot.notes[k].folder_id) {
            Some(p) => {
                assert(views.folders[p as int].id == views.notes[k as int].folder_id);
            },
            None => {
                return false;
            },
        }
        k += 1;
    }
    true
}

/// Tells whether every note has a title if and only if `note` has the title
/// column, and no title is empty.
pub fn titles_are_valid(snapshot: &Snapshot) -> (ok: bool)
    ensures
        ok == snapshot@.titles_valid(),
{
    let ghost views = snapshot@;
    let mut k: usize = 0;
    while k < snapshot.notes.len()
        invariant
            views == snapshot@,
            k <= views.notes.len(),
            forall|j: int|
                0 <= j < k ==> {
                    &&& (#[trigger] views.notes[j]).title is Some <==> views.title_column
                    &&& views.notes[j].title is Some ==> views.notes[j].title.unwrap().len() > 0
                },
        decreases snapshot.notes.len() - k,
    {
        assert(views.notes[k as int] == snapshot.notes@[k as int]@);
        match &snapshot.notes[k].title {
            Some(title) => {
                if !snapshot.title_column || title.as_str().is_empty() {
                    return false;
                }
            },
            None => {
                if snapshot.title_column {
                    return false;
                }
            },
        }
        k += 1;
    }
    true
}

/// How many folders are not yet known to end at a root.
pub open spec fn unsettled(known: Seq<bool>) -> nat
    decreases known.len(),
{
    if known.len() == 0 {
        0
    } else {
        unsettled(known.drop_last()) + if known.last() {
            0nat
        } else {
            1nat
        }
    }
}

/// Whether nothing more can be learned: every folder that is not known to
/// end at a root has a parent that is not known to either.
pub open spec fn is_saturated(folders: Seq<FolderView>, known: Seq<bool>) -> bool {
    forall|i: int|
        0 <= i < folders.len() && !(#[trigger] known[i]) ==> folders[i].parent_id is Some
            && !known[folder_index(folders, folders[i].parent_id.unwrap())]
}

/// Learning of one more folder leaves one fewer to learn of.
proof fn lemma_settle_one(known: Seq<bool>, i: int)
    requires
        0 <= i < known.len(),
        !known[i],
    ensures
        unsettled(known.update(i, true)) + 1 == unsettled(known),
    decreases known.len(),
{
    let after = known.update(i, true);
    if i == known.len() - 1 {
        assert(after.drop_last() =~= known.drop_last());
    } else {
        assert(after.drop_last() =~= known.drop_last().update(i, true));
        lemma_settle_one(known.drop_last(), i);
    }
}

/// Once nothing more can be learned, every folder that ends at a root is
/// known to.
proof fn lemma_saturated(folders: Seq<FolderView>, known: Seq<bool>, id: i64, steps: nat)
    requires
        folders_ascending(folders),
        known.len() == folders.len(),
        is_saturated(folders, known),
        rooted_within(folders, id, steps),
    ensures
        known[folder_index(folders, id)],
    decreases steps,
{
    let i = folder_index(folders, id);
    assert(folders[i].id == id);
    lemma_folder_index(folders, i);
    if parent_of(folders, id) is Some {
        lemma_saturated(folders, known, parent_of(folders, id).unwrap(), (steps - 1) as nat);
    }
}

/// Tells whether the folders form a forest: whether following parents from
/// any folder ends at a folder without one. A folder that is its own
/// ancestor, or below such a folder, never ends.
pub fn is_forest(snapshot: &Snapshot) -> (ok: bool)
    requires
        snapshot@.ids_valid(),
        snapshot@.references_valid(),
    ensures
        ok == snapshot@.acyclic(),
{
    let ghost folders = snapshot@.folders;
    let n = snapshot.folders.len();
    let mut known: Vec<bool> = Vec::new();
    let mut i: usize = 0;
    while i < n
        invariant
            i <= n,
            known@.len() == i,
            forall|k: int| 0 <= k < i ==> !(#[trigger] known@[k]),
        decreases n - i,
    {
        known.push(false);
        i += 1;
    }
    let mut changed = true;
    while changed
        invariant
            folders == snapshot@.folders,
            folders_ascending(folders),
            snapshot@.references_valid(),
            n == folders.len(),
            known@.len() == n,
            forall|k: int|
                0 <= k < n && (#[trigger] known@[k]) ==> is_rooted(folders, folders[k].id),
            !changed ==> is_saturated(folders, known@),
        decreases unsettled(known@) + if changed { 1nat } else { 0nat },
    {
        let ghost before = known@;
        changed = false;
        let mut k: usize = 0;
        while k < n
            invariant
                folders == snapshot@.folders,
                folders_ascending(folders),
                snapshot@.references_valid(),
                n == folders.len(),
                known@.len() == n,
                k <= n,
                forall|j: int|
                    0 <= j < n && (#[trigger] known@[j]) ==> is_rooted(folders, folders[j].id),
                changed ==> unsettled(known@) < unsettled(before),
                !changed ==> known@ == before,
                !changed ==> forall|j: int|
                    0 <= j < k && !(#[trigger] known@[j]) ==> folders[j].parent_id is Some
                        && !known@[folder_index(folders, folders[j].parent_id.unwrap())],
            decreases n - k,
        {
            assert(folders[k as int] == snapshot.folders@[k as int]@);
            if !known[k] {
                let settled = match snapshot.folders[k].parent_id {
                    None => true,
                    Some(parent) => {
                        assert(has_folder(folders, parent));
                        match find_folder(&snapshot.folders, parent) {
                            Some(p) => {
                                proof {
                                    assert(folders[p as int] == snapshot.folders@[p as int]@);
                                    lemma_folder_index(folders, p as int);
                                }
                                known[p]
                            },
                            None => false,
                        }
                    },
                };
                if settled {
                    proof {
                        lemma_folder_index(folders, k as int);
                        let id = folders[k as int].id;
                        if folders[k as int].parent_id is Some {
                            let parent = folders[k as int].parent_id.unwrap();
                            let p = folder_index(folders, parent);
                            assert(is_rooted(folders, folders[p].id));
                            let steps = choose|steps: nat| rooted_within(folders, parent, steps);
                            assert(rooted_within(folders, id, steps + 1));
                        } else {
                            assert(rooted_within(folders, id, 0));
                        }
                        lemma_settle_one(known@, k as int);
                    }
                    known.set(k, true);
                    changed = true;
                }
            }
            k += 1;
        }
    }
    let mut k: usize = 0;
    while k < n
        invariant
            folders == snapshot@.folders,
            folders_ascending(folders),
            n == folders.len(),
            known@.len() == n,
            k <= n,
            is_saturated(folders, known@),
            forall|j: int|
                0 <= j < n && (#[trigger] known@[j]) ==> is_rooted(folders, folders[j].id),
            forall|j: int| 0 <= j < k ==> #[trigger] known@[j],
        decreases n - k,
    {
        if !known[k] {
            proof {
                if is_rooted(folders, folders[k as int].id) {
                    let steps = choose|steps: nat|
                        rooted_within(folders, folders[k as int].id, steps);
                    lemma_folder_index(folders, k as int);
                    lemma_saturated(folders, known@, folders[k as int].id, steps);
                }
            }
            return false;
        }
        k += 1;
    }
    proof {
        assert forall|j: int| 0 <= j < n implies is_rooted(folders, (#[trigger] folders[j]).id) by {
            assert(known@[j]);
        }
    }
    true
}

/// Tells whether the contents make a valid store.
pub fn is_valid(snapshot: &Snapshot) -> (ok: bool)
    ensures
        ok == snapshot@.valid(),
{
    snapshot.version >= 0 && tables_are_valid(snapshot) && ids_are_valid(snapshot)
        && names_are_unique(snapshot) && references_are_valid(snapshot) && is_forest(snapshot)
        && titles_are_valid(snapshot)
}

} // verus!
