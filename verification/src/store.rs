//! The store of folders and notes, held in memory.

use vstd::prelude::*;
use crate::catalog::Statement;
use crate::laws::{
    lemma_delete_folder, lemma_delete_note, lemma_execute, lemma_insert_folder_valid,
    lemma_insert_note_valid, lemma_move_folder, lemma_rename_folder, lemma_subtree,
};
use crate::model::{
    FolderView, NoteView, StatementError, StoreError, StoreState, folder_outside, folders_ascending,
    has_folder, has_note, in_subtree, is_rooted, lemma_folder_index, name_taken,
    name_taken_by_other, note_outside, notes_ascending, rooted_within, with_title,
};
use crate::schema::{ColumnName, Schema, TableName, schema_of_parts};
use crate::snapshot::{Snapshot, is_valid};
use crate::title::{PLACEHOLDER_TITLE, derive_title, placeholder_title, title_of};

verus! {

/// A folder: a row of `folders`.
#[derive(Debug, PartialEq, Eq)]
pub struct Folder {
    /// Assigned by the store when the folder is created.
    pub id: i64,
    /// No two folders have the same name; a folder may have none.
    pub name: Option<String>,
    pub date_created: i64,
    /// The folder that holds this one, if any.
    pub parent_id: Option<i64>,
}

/// A note: a row of `note`.
#[derive(Debug, PartialEq, Eq)]
pub struct Note {
    /// Assigned by the store when the note is created.
    pub id: i64,
    pub content: String,
    pub date_created: i64,
    /// The folder that holds the note.
    pub folder_id: i64,
    /// The title; none while `note` has no title column.
    pub title: Option<String>,
}

/// An optional text as a mathematical value.
pub open spec fn text_view(text: Option<String>) -> Option<Seq<char>> {
    match text {
        Some(t) => Some(t@),
        None => None,
    }
}

impl View for Folder {
    type V = FolderView;

    open spec fn view(&self) -> FolderView {
        FolderView {
            id: self.id,
            name: text_view(self.name),
            date_created: self.date_created,
            parent_id: self.parent_id,
        }
    }
}

impl View for Note {
    type V = NoteView;

    open spec fn view(&self) -> NoteView {
        NoteView {
            id: self.id,
            content: self.content@,
            date_created: self.date_created,
            folder_id: self.folder_id,
            title: text_view(self.title),
        }
    }
}

/// Folders as mathematical values.
pub open spec fn folder_views(folders: Seq<Folder>) -> Seq<FolderView> {
    folders.map_values(|f: Folder| f@)
}

/// Notes as mathematical values.
pub open spec fn note_views(notes: Seq<Note>) -> Seq<NoteView> {
    notes.map_values(|n: Note| n@)
}

/// How many rows a deletion took.
#[derive(Clone, Copy, PartialEq, Eq, Structural, Debug)]
pub struct Deletion {
    pub folders: usize,
    pub notes: usize,
}

/// A store of folders and notes with the version of its schema.
pub struct Store {
    version: i64,
    folders_table: bool,
    note_table: bool,
    title_column: bool,
    folders: Vec<Folder>,
    notes: Vec<Note>,
    last_folder_id: i64,
    last_note_id: i64,
}

impl View for Store {
    type V = StoreState;

    closed spec fn view(&self) -> StoreState {
        StoreState {
            version: self.version,
            folders_table: self.folders_table,
            note_table: self.note_table,
            title_column: self.title_column,
            folders: folder_views(self.folders@),
            notes: note_views(self.notes@),
            last_folder_id: self.last_folder_id,
            last_note_id: self.last_note_id,
        }
    }
}

/// Finds the place of the folder `id` among folders that stand in the order
/// of their identifiers.
pub fn find_folder(folders: &Vec<Folder>, id: i64) -> (position: Option<usize>)
    requires
        folders_ascending(folder_views(folders@)),
    ensures
        match position {
            Some(i) => i < folders@.len() && folders@[i as int].id == id,
            None => !has_folder(folder_views(folders@), id),
        },
{
    let ghost views = folder_views(folders@);
    let mut low: usize = 0;
    let mut high: usize = folders.len();
    while low < high
        invariant
            views == folder_views(folders@),
            folders_ascending(views),
            low <= high <= views.len(),
            forall|i: int| 0 <= i < low ==> (#[trigger] views[i]).id < id,
            forall|i: int| high <= i < views.len() ==> (#[trigger] views[i]).id > id,
        decreases high - low,
    {
        let middle = low + (high - low) / 2;
        let found = folders[middle].id;
        assert(views[middle as int].id == found);
        if found == id {
            return Some(middle);
        } else if found < id {
            assert forall|i: int| 0 <= i < middle + 1 implies (#[trigger] views[i]).id < id by {
                if i < middle {
                    assert(views[i].id < views[middle as int].id);
                }
            }
            low = middle + 1;
        } else {
            assert forall|i: int| middle <= i < views.len() implies (#[trigger] views[i]).id
                > id by {
                if i > middle {
                    assert(views[middle as int].id < views[i].id);
                }
            }
            high = middle;
        }
    }
    None
}

fn copy_text(text: &Option<String>) -> (copy: Option<String>)
    ensures
        text_view(copy) == text_view(*text),
{
    match text {
        Some(t) => Some(t.clone()),
        None => None,
    }
}

fn copy_folder(folder: &Folder) -> (copy: Folder)
    ensures
        copy@ == folder@,
{
    Folder {
        id: folder.id,
        name: copy_text(&folder.name),
        date_created: folder.date_created,
        parent_id: folder.parent_id,
    }
}

fn copy_note(note: &Note) -> (copy: Note)
    ensures
        copy@ == note@,
{
    Note {
        id: note.id,
        content: note.content.clone(),
        date_created: note.date_created,
        folder_id: note.folder_id,
        title: copy_text(&note.title),
    }
}

impl Store {
    /// Whether the store is valid. Every store that this library hands out
    /// is, and every operation keeps it so.
    pub open spec fn wf(&self) -> bool {
        self@.valid()
    }

    /// A store to which nothing has been applied: version 0, no table.
    pub fn new() -> (store: Store)
        ensures
            store@ == StoreState::fresh(),
            store.wf(),
    {
        let store = Store {
            version: 0,
            folders_table: false,
            note_table: false,
            title_column: false,
            folders: Vec::new(),
            notes: Vec::new(),
            last_folder_id: 0,
            last_note_id: 0,
        };
        assert(store@.folders =~= Seq::empty());
        assert(store@.notes =~= Seq::empty());
        store
    }

    /// Takes up the contents of a snapshot, where they make a valid store.
    pub fn restore(snapshot: Snapshot) -> (store: Option<Store>)
        ensures
            match store {
                Some(s) => s.wf() && s@ == snapshot@,
                None => !snapshot@.valid(),
            },
    {
        if !is_valid(&snapshot) {
            return None;
        }
        Some(
            Store {
                version: snapshot.version,
                folders_table: snapshot.folders_table,
                note_table: snapshot.note_table,
                title_column: snapshot.title_column,
                folders: snapshot.folders,
                notes: snapshot.notes,
                last_folder_id: snapshot.last_folder_id,
                last_note_id: snapshot.last_note_id,
            },
        )
    }

    /// Copies the contents of the store out.
    pub fn snapshot(&self) -> (snapshot: Snapshot)
        ensures
            snapshot@ == self@,
    {
        let mut folders: Vec<Folder> = Vec::new();
        let mut i: usize = 0;
        while i < self.folders.len()
            invariant
                i <= self.folders@.len(),
                folder_views(folders@) == folder_views(self.folders@).take(i as int),
            decreases self.folders.len() - i,
        {
            let copy = copy_folder(&self.folders[i]);
            proof {
                let all = folder_views(self.folders@);
                assert(folder_views(folders@.push(copy)) =~= folder_views(folders@).push(copy@));
                assert(all.take(i + 1) =~= all.take(i as int).push(all[i as int]));
            }
            folders.push(copy);
            i += 1;
        }
        let mut notes: Vec<Note> = Vec::new();
        let mut k: usize = 0;
        while k < self.notes.len()
            invariant
                k <= self.notes@.len(),
                note_views(notes@) == note_views(self.notes@).take(k as int),
            decreases self.notes.len() - k,
        {
            let copy = copy_note(&self.notes[k]);
            proof {
                let all = note_views(self.notes@);
                assert(note_views(notes@.push(copy)) =~= note_views(notes@).push(copy@));
                assert(all.take(k + 1) =~= all.take(k as int).push(all[k as int]));
            }
            notes.push(copy);
            k += 1;
        }
        assert(folder_views(self.folders@).take(i as int) =~= folder_views(self.folders@));
        assert(note_views(self.notes@).take(k as int) =~= note_views(self.notes@));
        Snapshot {
            version: self.version,
            folders_table: self.folders_table,
            note_table: self.note_table,
            title_column: self.title_column,
            folders,
            notes,
            last_folder_id: self.last_folder_id,
            last_note_id: self.last_note_id,
        }
    }

    /// The recorded version of the schema.
    pub fn version(&self) -> (version: i64)
        ensures
            version == self@.version,
    {
        self.version
    }

    /// The tables and columns that the store holds.
    pub fn schema(&self) -> (schema: Schema)
        ensures
            schema@ == self@.schema(),
    {
        schema_of_parts(self.folders_table, self.note_table, self.title_column)
    }

    /// The folders, in the order of their identifiers.
    pub fn folders(&self) -> (folders: &Vec<Folder>)
        ensures
            folder_views(folders@) == self@.folders,
    {
        &self.folders
    }

    /// The notes, in the order of their identifiers.
    pub fn notes(&self) -> (notes: &Vec<Note>)
        ensures
            note_views(notes@) == self@.notes,
    {
        &self.notes
    }

    /// Finds the place of the folder `id` among the folders.
    pub fn folder_position(&self, id: i64) -> (position: Option<usize>)
        requires
            self.wf(),
        ensures
            match position {
                Some(i) => i < self@.folders.len() && self@.folders[i as int].id == id,
                None => !has_folder(self@.folders, id),
            },
    {
        find_folder(&self.folders, id)
    }

    /// The folder `id`, if it exists.
    pub fn folder(&self, id: i64) -> (folder: Option<&Folder>)
        requires
            self.wf(),
        ensures
            match folder {
                Some(f) => f@.id == id && self@.folders.contains(f@),
                None => !has_folder(self@.folders, id),
            },
    {
        match self.folder_position(id) {
            Some(i) => {
                assert(self@.folders[i as int] == self.folders@[i as int]@);
                Some(&self.folders[i])
            },
            None => None,
        }
    }

    /// Tells whether a folder has the name `name`.
    pub fn name_in_use(&self, name: &String) -> (taken: bool)
        ensures
            taken == name_taken(self@.folders, name@),
    {
        let ghost views = self@.folders;
        let mut i: usize = 0;
        while i < self.folders.len()
            invariant
                views == self@.folders,
                i <= views.len(),
                forall|k: int| 0 <= k < i ==> (#[trigger] views[k]).name != Some(name@),
            decreases self.folders.len() - i,
        {
            assert(views[i as int] == self.folders@[i as int]@);
            match &self.folders[i].name {
                Some(n) => {
                    if *n == *name {
                        assert(views[i as int].name == Some(name@));
                        return true;
                    }
                },
                None => {},
            }
            i += 1;
        }
        false
    }

    /// Tells whether the folder `id` is in the subtree of the folder `root`.
    pub fn is_in_subtree(&self, root: i64, id: i64) -> (inside: bool)
        requires
            self.wf(),
        ensures
            inside == in_subtree(self@.folders, root, id),
    {
        let ghost views = self@.folders;
        let mut position = match self.folder_position(id) {
            Some(i) => i,
            None => {
                proof {
                    lemma_subtree(views, root, id);
                }
                return false;
            },
        };
        let mut current = id;
        let ghost mut steps: nat = choose|steps: nat| rooted_within(views, id, steps);
        assert(is_rooted(views, views[position as int].id));
        loop
            invariant
                views == self@.folders,
                self.wf(),
                position < views.len(),
                views[position as int].id == current,
                rooted_within(views, current, steps),
                in_subtree(views, root, id) <==> in_subtree(views, root, current),
            decreases steps,
        {
            proof {
                lemma_folder_index(views, position as int);
                lemma_subtree(views, root, current);
            }
            if current == root {
                return true;
            }
            assert(views[position as int] == self.folders@[position as int]@);
            match self.folders[position].parent_id {
                None => {
                    return false;
                },
                Some(parent) => {
                    proof {
                        lemma_subtree(views, root, parent);
                        steps = (steps - 1) as nat;
                    }
                    match self.folder_position(parent) {
                        Some(i) => {
                            position = i;
                            current = parent;
                        },
                        None => {
                            return false;
                        },
                    }
                },
            }
        }
    }

    /// Creates a folder and returns its identifier, the one after the last
    /// that the table assigned. The store refuses the folder, and stays as
    /// it was, where `folders` does not exist, another folder has the name,
    /// the parent does not exist, or no identifier is left.
    pub fn insert_folder(
        &mut self,
        name: Option<String>,
        date_created: i64,
        parent_id: Option<i64>,
    ) -> (result: Result<i64, StoreError>)
        requires
            old(self).wf(),
        ensures
            final(self).wf(),
            match result {
                Ok(id) => {
                    &&& old(self)@.insert_folder_error(text_view(name), parent_id) is None
                    &&& final(self)@ == old(self)@.insert_folder(
                        text_view(name),
                        date_created,
                        parent_id,
                    )
                    &&& id == final(self)@.last_folder_id
                },
                Err(e) => {
                    &&& old(self)@.insert_folder_error(text_view(name), parent_id) == Some(e)
                    &&& final(self)@ == old(self)@
                },
            },
    {
        if !self.folders_table {
            return Err(StoreError::NoSuchTable);
        }
        match &name {
            Some(n) => {
                if self.name_in_use(n) {
                    return Err(StoreError::DuplicateName);
                }
            },
            None => {},
        }
        match parent_id {
            Some(p) => {
                if self.folder_position(p).is_none() {
                    return Err(StoreError::NoSuchFolder);
                }
            },
            None => {},
        }
        if self.last_folder_id == i64::MAX {
            return Err(StoreError::IdsExhausted);
        }
        let id = self.last_folder_id + 1;
        proof {
            lemma_insert_folder_valid(self@, text_view(name), date_created, parent_id);
        }
        let ghost before = self@;
        let folder = Folder { id, name, date_created, parent_id };
        self.folders.push(folder);
        self.last_folder_id = id;
        assert(self@.folders =~= before.folders.push(folder@));
        Ok(id)
    }

    /// Creates a note and returns its identifier, the one after the last
    /// that the table assigned. While `note` has no title column no title
    /// can be given; once it has one, the note gets the title given, or the
    /// placeholder where none is given. The store refuses the note, and
    /// stays as it was, where `note` does not exist, a title is given that
    /// is empty or that the table has no column for, the folder does not
    /// exist, or no identifier is left.
    pub fn insert_note(
        &mut self,
        content: String,
        date_created: i64,
        folder_id: i64,
        title: Option<String>,
    ) -> (result: Result<i64, StoreError>)
        requires
            old(self).wf(),
        ensures
            final(self).wf(),
            match result {
                Ok(id) => {
                    &&& old(self)@.insert_note_error(folder_id, text_view(title)) is None
                    &&& final(self)@ == old(self)@.insert_note(
                        content@,
                        date_created,
                        folder_id,
                        text_view(title),
                    )
                    &&& id == final(self)@.last_note_id
                },
                Err(e) => {
                    &&& old(self)@.insert_note_error(folder_id, text_view(title)) == Some(e)
                    &&& final(self)@ == old(self)@
                },
            },
    {
        if !self.note_table {
            return Err(StoreError::NoSuchTable);
        }
        match &title {
            Some(t) => {
                if !self.title_column {
                    return Err(StoreError::NoSuchColumn);
                }
                if t.as_str().is_empty() {
                    return Err(StoreError::EmptyTitle);
                }
            },
            None => {},
        }
        if self.folder_position(folder_id).is_none() {
            return Err(StoreError::NoSuchFolder);
        }
        if self.last_note_id == i64::MAX {
            return Err(StoreError::IdsExhausted);
        }
        let id = self.last_note_id + 1;
        proof {
            lemma_insert_note_valid(self@, content@, date_created, folder_id, text_view(title));
        }
        let ghost before = self@;
        let stored = if !self.title_column {
            None
        } else {
            match title {
                Some(t) => Some(t),
                None => Some(PLACEHOLDER_TITLE.to_owned()),
            }
        };
        let note = Note { id, content, date_created, folder_id, title: stored };
        self.notes.push(note);
        self.last_note_id = id;
        assert(self@.notes =~= before.notes.push(note@));
        Ok(id)
    }

    /// Finds the place of the note `id` among the notes.
    pub fn note_position(&self, id: i64) -> (position: Option<usize>)
        requires
            self.wf(),
        ensures
            match position {
                Some(i) => i < self@.notes.len() && self@.notes[i as int].id == id,
                None => !has_note(self@.notes, id),
            },
    {
        let ghost views = self@.notes;
        let mut low: usize = 0;
        let mut high: usize = self.notes.len();
        while low < high
            invariant
                views == self@.notes,
                notes_ascending(views),
                low <= high <= views.len(),
                forall|i: int| 0 <= i < low ==> (#[trigger] views[i]).id < id,
                forall|i: int| high <= i < views.len() ==> (#[trigger] views[i]).id > id,
            decreases high - low,
        {
            let middle = low + (high - low) / 2;
            let found = self.notes[middle].id;
            assert(views[middle as int].id == found);
            if found == id {
                return Some(middle);
            } else if found < id {
                assert forall|i: int| 0 <= i < middle + 1 implies (#[trigger] views[i]).id < id by {
                    if i < middle {
                        assert(views[i].id < views[middle as int].id);
                    }
                }
                low = middle + 1;
            } else {
                assert forall|i: int| middle <= i < views.len() implies (#[trigger] views[i]).id
                    > id by {
                    if i > middle {
                        assert(views[middle as int].id < views[i].id);
                    }
                }
                high = middle;
            }
        }
        None
    }

    /// The note `id`, if it exists.
    pub fn note(&self, id: i64) -> (note: Option<&Note>)
        requires
            self.wf(),
        ensures
            match note {
                Some(n) => n@.id == id && self@.notes.contains(n@),
                None => !has_note(self@.notes, id),
            },
    {
        match self.note_position(id) {
            Some(i) => {
                assert(self@.notes[i as int] == self.notes@[i as int]@);
                Some(&self.notes[i])
            },
            None => None,
        }
    }

    /// Tells whether a folder other than `id` has the name `name`.
    pub fn name_in_use_by_other(&self, id: i64, name: &String) -> (taken: bool)
        ensures
            taken == name_taken_by_other(self@.folders, id, name@),
    {
        let ghost views = self@.folders;
        let mut i: usize = 0;
        while i < self.folders.len()
            invariant
                views == self@.folders,
                i <= views.len(),
                forall|k: int|
                    0 <= k < i ==> (#[trigger] views[k]).id == id || views[k].name != Some(name@),
            decreases self.folders.len() - i,
        {
            assert(views[i as int] == self.folders@[i as int]@);
            if self.folders[i].id != id {
                match &self.folders[i].name {
                    Some(n) => {
                        if *n == *name {
                            assert(views[i as int].name == Some(name@));
                            return true;
                        }
                    },
                    None => {},
                }
            }
            i += 1;
        }
        false
    }

    /// Gives the folder `id` the name `name`, or takes its name away. The
    /// store refuses, and stays as it was, where the folder does not exist
    /// or another folder has the name.
    pub fn rename_folder(&mut self, id: i64, name: Option<String>) -> (result: Result<
        (),
        StoreError,
    >)
        requires
            old(self).wf(),
        ensures
            final(self).wf(),
            match result {
                Ok(_) => {
                    &&& old(self)@.rename_folder_error(id, text_view(name)) is None
                    &&& final(self)@ == old(self)@.rename_folder(id, text_view(name))
                },
                Err(e) => {
                    &&& old(self)@.rename_folder_error(id, text_view(name)) == Some(e)
                    &&& final(self)@ == old(self)@
                },
            },
    {
        let ghost before = self@;
        let position = match self.folder_position(id) {
            Some(i) => i,
            None => {
                return Err(StoreError::NoSuchFolder);
            },
        };
        assert(before.folders[position as int].id == id);
        match &name {
            Some(n) => {
                if self.name_in_use_by_other(id, n) {
                    return Err(StoreError::DuplicateName);
                }
            },
            None => {},
        }
        proof {
            lemma_rename_folder(before, id, text_view(name));
        }
        let row = &self.folders[position];
        let renamed = Folder {
            id: row.id,
            name,
            date_created: row.date_created,
            parent_id: row.parent_id,
        };
        assert(before.folders[position as int] == row@);
        self.folders.set(position, renamed);
        proof {
            let after = before.rename_folder(id, text_view(name)).folders;
            assert forall|i: int| 0 <= i < after.len() implies self@.folders[i] == after[i] by {
                lemma_folder_index(before.folders, i);
                lemma_folder_index(before.folders, position as int);
            }
            assert(self@.folders =~= after);
        }
        Ok(())
    }

    /// Puts the folder `id` under the folder `parent_id`, or under none.
    /// The store refuses, and stays as it was, where either folder does not
    /// exist, or where the new parent is the folder itself or in its
    /// subtree: the folder would become its own ancestor.
    pub fn move_folder(&mut self, id: i64, parent_id: Option<i64>) -> (result: Result<
        (),
        StoreError,
    >)
        requires
            old(self).wf(),
        ensures
            final(self).wf(),
            match result {
                Ok(_) => {
                    &&& old(self)@.move_folder_error(id, parent_id) is None
                    &&& final(self)@ == old(self)@.move_folder(id, parent_id)
                },
                Err(e) => {
                    &&& old(self)@.move_folder_error(id, parent_id) == Some(e)
                    &&& final(self)@ == old(self)@
                },
            },
    {
        let ghost before = self@;
        let position = match self.folder_position(id) {
            Some(i) => i,
            None => {
                return Err(StoreError::NoSuchFolder);
            },
        };
        assert(before.folders[position as int].id == id);
        match parent_id {
            Some(p) => {
                if self.folder_position(p).is_none() {
                    return Err(StoreError::NoSuchFolder);
                }
                if self.is_in_subtree(id, p) {
                    return Err(StoreError::WouldCycle);
                }
            },
            None => {},
        }
        proof {
            lemma_move_folder(before, id, parent_id);
        }
        let row = &self.folders[position];
        let moved = Folder {
            id: row.id,
            name: copy_text(&row.name),
            date_created: row.date_created,
            parent_id,
        };
        assert(before.folders[position as int] == row@);
        self.folders.set(position, moved);
        proof {
            let after = before.move_folder(id, parent_id).folders;
            assert forall|i: int| 0 <= i < after.len() implies self@.folders[i] == after[i] by {
                lemma_folder_index(before.folders, i);
                lemma_folder_index(before.folders, position as int);
            }
            assert(self@.folders =~= after);
        }
        Ok(())
    }

    /// Deletes the folder `id` with its subtree: the folders below it and
    /// the notes in any of them. It tells how many folders and notes went.
    /// Where the folder does not exist, nothing goes.
    pub fn delete_folder(&mut self, id: i64) -> (removed: Deletion)
        requires
            old(self).wf(),
        ensures
            final(self).wf(),
            final(self)@ == old(self)@.delete_folder(id),
            removed.folders == old(self)@.folders.len() - final(self)@.folders.len(),
            removed.notes == old(self)@.notes.len() - final(self)@.notes.len(),
    {
        let ghost before = self@;
        let ghost keep_folder = folder_outside(before.folders, id);
        let ghost keep_note = note_outside(before.folders, id);
        proof {
            lemma_delete_folder(before, id);
            reveal(Seq::filter);
        }
        let mut folders: Vec<Folder> = Vec::new();
        let mut i: usize = 0;
        assert(before.folders.take(0) =~= Seq::empty());
        assert(folder_views(folders@) =~= Seq::empty());
        while i < self.folders.len()
            invariant
                self@ == before,
                self.wf(),
                keep_folder == folder_outside(before.folders, id),
                i <= before.folders.len(),
                folder_views(folders@) == before.folders.take(i as int).filter(keep_folder),
            decreases self.folders.len() - i,
        {
            let folder = &self.folders[i];
            proof {
                assert(before.folders[i as int] == folder@);
                assert(before.folders.take(i + 1) =~= before.folders.take(i as int).push(folder@));
                before.folders.take(i as int).lemma_filter_push(folder@, keep_folder);
            }
            if !self.is_in_subtree(id, folder.id) {
                let copy = copy_folder(folder);
                assert(folder_views(folders@.push(copy)) =~= folder_views(folders@).push(copy@));
                folders.push(copy);
            }
            i += 1;
        }
        let mut notes: Vec<Note> = Vec::new();
        let mut k: usize = 0;
        assert(before.notes.take(0) =~= Seq::empty());
        assert(note_views(notes@) =~= Seq::empty());
        while k < self.notes.len()
            invariant
                self@ == before,
                self.wf(),
                keep_note == note_outside(before.folders, id),
                k <= before.notes.len(),
                note_views(notes@) == before.notes.take(k as int).filter(keep_note),
            decreases self.notes.len() - k,
        {
            let note = &self.notes[k];
            proof {
                assert(before.notes[k as int] == note@);
                assert(before.notes.take(k + 1) =~= before.notes.take(k as int).push(note@));
                before.notes.take(k as int).lemma_filter_push(note@, keep_note);
            }
            if !self.is_in_subtree(id, note.folder_id) {
                let copy = copy_note(note);
                assert(note_views(notes@.push(copy)) =~= note_views(notes@).push(copy@));
                notes.push(copy);
            }
            k += 1;
        }
        proof {
            assert(before.folders.take(i as int) =~= before.folders);
            assert(before.notes.take(k as int) =~= before.notes);
            before.folders.lemma_filter_len(keep_folder);
            before.notes.lemma_filter_len(keep_note);
        }
        let removed = Deletion {
            folders: self.folders.len() - folders.len(),
            notes: self.notes.len() - notes.len(),
        };
        self.folders = folders;
        self.notes = notes;
        removed
    }

    /// Deletes the note `id` and tells whether there was one.
    pub fn delete_note(&mut self, id: i64) -> (removed: bool)
        requires
            old(self).wf(),
        ensures
            final(self).wf(),
            final(self)@ == old(self)@.delete_note(id),
            removed == has_note(old(self)@.notes, id),
    {
        let ghost before = self@;
        let ghost pass = |n: NoteView| n.id != id;
        proof {
            lemma_delete_note(before, id);
        }
        match self.note_position(id) {
            None => false,
            Some(position) => {
                let mut notes: Vec<Note> = Vec::new();
                let mut k: usize = 0;
                proof {
                    reveal(Seq::filter);
                    assert(before.notes.take(0) =~= Seq::empty());
                    assert(note_views(notes@) =~= Seq::empty());
                }
                while k < self.notes.len()
                    invariant
                        self@ == before,
                        pass == (|n: NoteView| n.id != id),
                        k <= before.notes.len(),
                        note_views(notes@) == before.notes.take(k as int).filter(pass),
                    decreases self.notes.len() - k,
                {
                    let note = &self.notes[k];
                    proof {
                        assert(before.notes[k as int] == note@);
                        assert(before.notes.take(k + 1) =~= before.notes.take(k as int).push(
                            note@,
                        ));
                        before.notes.take(k as int).lemma_filter_push(note@, pass);
                    }
                    if note.id != id {
                        let copy = copy_note(note);
                        assert(note_views(notes@.push(copy)) =~= note_views(notes@).push(copy@));
                        notes.push(copy);
                    }
                    k += 1;
                }
                proof {
                    assert(before.notes.take(k as int) =~= before.notes);
                }
                self.notes = notes;
                true
            },
        }
    }

    /// Executes one statement. A statement that fails leaves the store as
    /// it was.
    pub fn execute(&mut self, statement: Statement) -> (result: Result<(), StatementError>)
        requires
            old(self).wf(),
        ensures
            final(self).wf(),
            match result {
                Ok(_) => old(self)@.execute(statement) == Ok::<StoreState, StatementError>(
                    final(self)@,
                ),
                Err(e) => old(self)@.execute(statement) == Err::<StoreState, StatementError>(e)
                    && final(self)@ == old(self)@,
            },
    {
        let ghost before = self@;
        proof {
            lemma_execute(before, statement);
        }
        match statement {
            Statement::CreateFoldersTable => {
                self.folders_table = true;
                Ok(())
            },
            Statement::CreateNoteTable => {
                if !self.folders_table {
                    return Err(StatementError::NoSuchTable(TableName::Folders));
                }
                self.note_table = true;
                Ok(())
            },
            Statement::AddNoteTitleColumn => {
                if !self.note_table {
                    return Err(StatementError::NoSuchTable(TableName::Note));
                }
                if !self.title_column {
                    let notes = retitled(&self.notes, false);
                    self.notes = notes;
                    self.title_column = true;
                    assert(self@.notes =~= before.notes.map_values(
                        |n: NoteView| with_title(n, placeholder_title()),
                    ));
                }
                Ok(())
            },
            Statement::BackfillNoteTitles => {
                if !self.note_table {
                    return Err(StatementError::NoSuchTable(TableName::Note));
                }
                if !self.title_column {
                    return Err(StatementError::NoSuchColumn(ColumnName::Title));
                }
                let notes = retitled(&self.notes, true);
                self.notes = notes;
                assert(self@.notes =~= before.notes.map_values(
                    |n: NoteView| with_title(n, title_of(n.content)),
                ));
                Ok(())
            },
        }
    }

    /// Records `version` as the version of the schema.
    pub(crate) fn record_version(&mut self, version: i64)
        requires
            old(self).wf(),
            version >= old(self)@.version,
        ensures
            final(self).wf(),
            final(self)@ == old(self)@.record_version(version),
    {
        self.version = version;
    }
}

/// The title that a note gets when titles are set anew: the one derived
/// from its content, or the placeholder.
pub open spec fn new_title(note: NoteView, derive: bool) -> Seq<char> {
    if derive {
        title_of(note.content)
    } else {
        placeholder_title()
    }
}

/// The notes with their titles set anew, each from its own content alone.
fn retitled(notes: &Vec<Note>, derive: bool) -> (updated: Vec<Note>)
    ensures
        updated@.len() == notes@.len(),
        forall|i: int|
            0 <= i < notes@.len() ==> (#[trigger] updated@[i])@ == with_title(
                notes@[i]@,
                new_title(notes@[i]@, derive),
            ),
{
    let mut updated: Vec<Note> = Vec::new();
    let mut i: usize = 0;
    while i < notes.len()
        invariant
            i <= notes@.len(),
            updated@.len() == i,
            forall|k: int|
                0 <= k < i ==> (#[trigger] updated@[k])@ == with_title(
                    notes@[k]@,
                    new_title(notes@[k]@, derive),
                ),
        decreases notes.len() - i,
    {
        let note = &notes[i];
        let title = if derive {
            derive_title(note.content.as_str())
        } else {
            PLACEHOLDER_TITLE.to_owned()
        };
        updated.push(
            Note {
                id: note.id,
                content: note.content.clone(),
                date_created: note.date_created,
                folder_id: note.folder_id,
                title: Some(title),
            },
        );
        i += 1;
    }
    updated
}

} // verus!
