//! The store as a mathematical value: its recorded version, its tables, the
//! rows in them, and what each operation makes of it.
//!
//! Folders form a forest: a folder may name a parent, and following parents
//! from any folder ends at a folder without one. A note belongs to one
//! folder. Deleting a folder deletes its subtree: the folder, the folders
//! below it, and the notes in any of them.

use vstd::prelude::*;
use crate::catalog::Statement;
use crate::schema::{ColumnName, LATEST_VERSION, TableName, TableView, schema_with};
use crate::title::{placeholder_title, title_of};

verus! {

/// A folder as a mathematical value.
pub struct FolderView {
    pub id: i64,
    pub name: Option<Seq<char>>,
    pub date_created: i64,
    pub parent_id: Option<i64>,
}

/// A note as a mathematical value. It has a title if and only if its table
/// has the title column.
pub struct NoteView {
    pub id: i64,
    pub content: Seq<char>,
    pub date_created: i64,
    pub folder_id: i64,
    pub title: Option<Seq<char>>,
}

/// Why the store refused an operation on its rows.
#[derive(Clone, Copy, PartialEq, Eq, Structural, Debug)]
pub enum StoreError {
    /// The table of the row does not exist yet.
    NoSuchTable,
    /// A title was given, and `note` has no title column yet.
    NoSuchColumn,
    /// Another folder has the name.
    DuplicateName,
    /// No folder has the identifier that the row refers to.
    NoSuchFolder,
    /// The title is empty.
    EmptyTitle,
    /// The folder would become its own ancestor.
    WouldCycle,
    /// The table has assigned its last identifier.
    IdsExhausted,
}

/// Why a statement could not be executed.
#[derive(Clone, Copy, PartialEq, Eq, Structural, Debug)]
pub enum StatementError {
    /// The statement needs a table that does not exist.
    NoSuchTable(TableName),
    /// The statement needs a column that does not exist.
    NoSuchColumn(ColumnName),
}

/// Whether a folder with the identifier `id` is among `folders`.
pub open spec fn has_folder(folders: Seq<FolderView>, id: i64) -> bool {
    exists|i: int| 0 <= i < folders.len() && (#[trigger] folders[i]).id == id
}

/// The place of the folder with the identifier `id` among `folders`.
pub open spec fn folder_index(folders: Seq<FolderView>, id: i64) -> int {
    choose|i: int| 0 <= i < folders.len() && (#[trigger] folders[i]).id == id
}

/// The parent of the folder with the identifier `id`, if it has one.
pub open spec fn parent_of(folders: Seq<FolderView>, id: i64) -> Option<i64> {
    if has_folder(folders, id) {
        folders[folder_index(folders, id)].parent_id
    } else {
        None
    }
}

/// Whether the folders stand in the order of their identifiers, so that no
/// identifier occurs twice.
pub open spec fn folders_ascending(folders: Seq<FolderView>) -> bool {
    forall|i: int, j: int|
        0 <= i < j < folders.len() ==> (#[trigger] folders[i]).id < (#[trigger] folders[j]).id
}

/// Whether the notes stand in the order of their identifiers, so that no
/// identifier occurs twice.
pub open spec fn notes_ascending(notes: Seq<NoteView>) -> bool {
    forall|i: int, j: int|
        0 <= i < j < notes.len() ==> (#[trigger] notes[i]).id < (#[trigger] notes[j]).id
}

/// Whether a folder among `folders` has the name `name`.
pub open spec fn name_taken(folders: Seq<FolderView>, name: Seq<char>) -> bool {
    exists|i: int| 0 <= i < folders.len() && (#[trigger] folders[i]).name == Some(name)
}

/// Whether a folder other than `id` has the name `name`.
pub open spec fn name_taken_by_other(folders: Seq<FolderView>, id: i64, name: Seq<char>) -> bool {
    exists|i: int|
        0 <= i < folders.len() && (#[trigger] folders[i]).id != id && folders[i].name == Some(name)
}

/// The folder `f` under the name `name`.
pub open spec fn with_name(f: FolderView, name: Option<Seq<char>>) -> FolderView {
    FolderView { name, ..f }
}

/// The folder `f` under the parent `parent_id`.
pub open spec fn with_parent(f: FolderView, parent_id: Option<i64>) -> FolderView {
    FolderView { parent_id, ..f }
}

/// Whether a note with the identifier `id` is among `notes`.
pub open spec fn has_note(notes: Seq<NoteView>, id: i64) -> bool {
    exists|i: int| 0 <= i < notes.len() && (#[trigger] notes[i]).id == id
}

/// Whether the folder `id` exists and `ancestor` is that folder or is
/// reached from it by following parents at most `steps` times.
pub open spec fn ancestor_within(
    folders: Seq<FolderView>,
    ancestor: i64,
    id: i64,
    steps: nat,
) -> bool
    decreases steps,
{
    &&& has_folder(folders, id)
    &&& id == ancestor || (steps > 0 && parent_of(folders, id) is Some && ancestor_within(
        folders,
        ancestor,
        parent_of(folders, id).unwrap(),
        (steps - 1) as nat,
    ))
}

/// Whether the folder `id` is in the subtree of the folder `root`: it
/// exists, and it is `root` or has `root` among its ancestors.
pub open spec fn in_subtree(folders: Seq<FolderView>, root: i64, id: i64) -> bool {
    exists|steps: nat| ancestor_within(folders, root, id, steps)
}

/// Whether the folder `id` exists and following parents from it ends, after
/// at most `steps` steps, at a folder without a parent.
pub open spec fn rooted_within(folders: Seq<FolderView>, id: i64, steps: nat) -> bool
    decreases steps,
{
    &&& has_folder(folders, id)
    &&& parent_of(folders, id) is Some ==> steps > 0 && rooted_within(
        folders,
        parent_of(folders, id).unwrap(),
        (steps - 1) as nat,
    )
}

/// Whether following parents from the folder `id` ends at a folder without
/// a parent: the folder is on no cycle and below none.
pub open spec fn is_rooted(folders: Seq<FolderView>, id: i64) -> bool {
    exists|steps: nat| rooted_within(folders, id, steps)
}

/// The folders that stay when the subtree of `root` is deleted.
pub open spec fn folder_outside(folders: Seq<FolderView>, root: i64) -> spec_fn(
    FolderView,
) -> bool {
    |f: FolderView| !in_subtree(folders, root, f.id)
}

/// The notes that stay when the subtree of `root` is deleted.
pub open spec fn note_outside(folders: Seq<FolderView>, root: i64) -> spec_fn(NoteView) -> bool {
    |n: NoteView| !in_subtree(folders, root, n.folder_id)
}

/// The note `n` with the title `title`.
pub open spec fn with_title(n: NoteView, title: Seq<char>) -> NoteView {
    NoteView { title: Some(title), ..n }
}

/// A store as a mathematical value.
pub struct StoreState {
    /// The recorded version: that of the last step applied in full.
    pub version: i64,
    /// Whether the table `folders` exists.
    pub folders_table: bool,
    /// Whether the table `note` exists.
    pub note_table: bool,
    /// Whether `note` has the title column.
    pub title_column: bool,
    /// The folders, in the order of their identifiers.
    pub folders: Seq<FolderView>,
    /// The notes, in the order of their identifiers.
    pub notes: Seq<NoteView>,
    /// The last identifier that `folders` assigned; 0 before the first.
    pub last_folder_id: i64,
    /// The last identifier that `note` assigned; 0 before the first.
    pub last_note_id: i64,
}

impl StoreState {
    /// A store to which nothing has been applied.
    pub open spec fn fresh() -> StoreState {
        StoreState {
            version: 0,
            folders_table: false,
            note_table: false,
            title_column: false,
            folders: Seq::empty(),
            notes: Seq::empty(),
            last_folder_id: 0,
            last_note_id: 0,
        }
    }

    /// A store at the latest version with both tables and all their columns,
    /// and no row in them.
    pub open spec fn latest() -> StoreState {
        StoreState {
            version: LATEST_VERSION,
            folders_table: true,
            note_table: true,
            title_column: true,
            ..Self::fresh()
        }
    }

    /// The tables and columns that the store holds.
    pub open spec fn schema(self) -> Seq<TableView> {
        schema_with(self.folders_table, self.note_table, self.title_column)
    }

    /// `note` exists only beside `folders`, the title column only in `note`,
    /// and rows only in tables that exist.
    pub open spec fn tables_valid(self) -> bool {
        &&& self.note_table ==> self.folders_table
        &&& self.title_column ==> self.note_table
        &&& !self.folders_table ==> self.folders.len() == 0
        &&& !self.note_table ==> self.notes.len() == 0
    }

    /// Identifiers were assigned from 1 upwards, each once, and the rows
    /// stand in the order of their identifiers.
    pub open spec fn ids_valid(self) -> bool {
        &&& 0 <= self.last_folder_id
        &&& 0 <= self.last_note_id
        &&& forall|i: int|
            0 <= i < self.folders.len() ==> 1 <= (#[trigger] self.folders[i]).id
                <= self.last_folder_id
        &&& folders_ascending(self.folders)
        &&& forall|i: int|
            0 <= i < self.notes.len() ==> 1 <= (#[trigger] self.notes[i]).id <= self.last_note_id
        &&& notes_ascending(self.notes)
    }

    /// No two folders have the same name; folders without a name are exempt.
    pub open spec fn names_unique(self) -> bool {
        forall|i: int, j: int|
            0 <= i < self.folders.len() && 0 <= j < self.folders.len() && (
            #[trigger] self.folders[i]).name is Some && self.folders[i].name == (
            #[trigger] self.folders[j]).name ==> i == j
    }

    /// Every parent that a folder names exists, and so does the folder of
    /// every note.
    pub open spec fn references_valid(self) -> bool {
        &&& forall|i: int|
            0 <= i < self.folders.len() && (#[trigger] self.folders[i]).parent_id is Some
                ==> has_folder(self.folders, self.folders[i].parent_id.unwrap())
        &&& forall|i: int|
            0 <= i < self.notes.len() ==> has_folder(
                self.folders,
                (#[trigger] self.notes[i]).folder_id,
            )
    }

    /// The folders form a forest: following parents from any folder ends.
    pub open spec fn acyclic(self) -> bool {
        forall|i: int|
            0 <= i < self.folders.len() ==> is_rooted(self.folders, (#[trigger] self.folders[i]).id)
    }

    /// A note has a title if and only if `note` has the title column, and no
    /// title is empty.
    pub open spec fn titles_valid(self) -> bool {
        forall|i: int|
            0 <= i < self.notes.len() ==> {
                &&& (#[trigger] self.notes[i]).title is Some <==> self.title_column
                &&& self.notes[i].title is Some ==> self.notes[i].title.unwrap().len() > 0
            }
    }

    /// What holds of every store.
    pub open spec fn valid(self) -> bool {
        &&& self.version >= 0
        &&& self.tables_valid()
        &&& self.ids_valid()
        &&& self.names_unique()
        &&& self.references_valid()
        &&& self.acyclic()
        &&& self.titles_valid()
    }

    /// Why a folder with the given name and parent cannot be created, if it
    /// cannot.
    pub open spec fn insert_folder_error(
        self,
        name: Option<Seq<char>>,
        parent_id: Option<i64>,
    ) -> Option<StoreError> {
        if !self.folders_table {
            Some(StoreError::NoSuchTable)
        } else if name is Some && name_taken(self.folders, name.unwrap()) {
            Some(StoreError::DuplicateName)
        } else if parent_id is Some && !has_folder(self.folders, parent_id.unwrap()) {
            Some(StoreError::NoSuchFolder)
        } else if self.last_folder_id == i64::MAX {
            Some(StoreError::IdsExhausted)
        } else {
            None
        }
    }

    /// The store with one more folder, which gets the next identifier.
    pub open spec fn insert_folder(
        self,
        name: Option<Seq<char>>,
        date_created: i64,
        parent_id: Option<i64>,
    ) -> StoreState {
        let id = (self.last_folder_id + 1) as i64;
        StoreState {
            folders: self.folders.push(FolderView { id, name, date_created, parent_id }),
            last_folder_id: id,
            ..self
        }
    }

    /// Why a note in the given folder and with the given title cannot be
    /// created, if it cannot.
    pub open spec fn insert_note_error(
        self,
        folder_id: i64,
        title: Option<Seq<char>>,
    ) -> Option<StoreError> {
        if !self.note_table {
            Some(StoreError::NoSuchTable)
        } else if title is Some && !self.title_column {
            Some(StoreError::NoSuchColumn)
        } else if title is Some && title.unwrap().len() == 0 {
            Some(StoreError::EmptyTitle)
        } else if !has_folder(self.folders, folder_id) {
            Some(StoreError::NoSuchFolder)
        } else if self.last_note_id == i64::MAX {
            Some(StoreError::IdsExhausted)
        } else {
            None
        }
    }

    /// The title that a new note is stored with: none while `note` has no
    /// title column; then the title given, or the placeholder where none is
    /// given. The content of the note plays no part in it.
    pub open spec fn stored_title(self, title: Option<Seq<char>>) -> Option<Seq<char>> {
        if !self.title_column {
            None
        } else if title is Some {
            title
        } else {
            Some(placeholder_title())
        }
    }

    /// The store with one more note, which gets the next identifier.
    pub open spec fn insert_note(
        self,
        content: Seq<char>,
        date_created: i64,
        folder_id: i64,
        title: Option<Seq<char>>,
    ) -> StoreState {
        let id = (self.last_note_id + 1) as i64;
        StoreState {
            notes: self.notes.push(
                NoteView { id, content, date_created, folder_id, title: self.stored_title(title) },
            ),
            last_note_id: id,
            ..self
        }
    }

    /// Why the folder `id` cannot take the given name, if it cannot.
    pub open spec fn rename_folder_error(
        self,
        id: i64,
        name: Option<Seq<char>>,
    ) -> Option<StoreError> {
        if !has_folder(self.folders, id) {
            Some(StoreError::NoSuchFolder)
        } else if name is Some && name_taken_by_other(self.folders, id, name.unwrap()) {
            Some(StoreError::DuplicateName)
        } else {
            None
        }
    }

    /// The store with the folder `id` under the given name.
    pub open spec fn rename_folder(self, id: i64, name: Option<Seq<char>>) -> StoreState {
        StoreState {
            folders: self.folders.map_values(
                |f: FolderView| if f.id == id {
                    with_name(f, name)
                } else {
                    f
                },
            ),
            ..self
        }
    }

    /// Why the folder `id` cannot go under the given parent, if it cannot.
    /// A folder cannot go under itself nor under a folder of its own
    /// subtree: it would become its own ancestor.
    pub open spec fn move_folder_error(self, id: i64, parent_id: Option<i64>) -> Option<
        StoreError,
    > {
        if !has_folder(self.folders, id) {
            Some(StoreError::NoSuchFolder)
        } else if parent_id is Some && !has_folder(self.folders, parent_id.unwrap()) {
            Some(StoreError::NoSuchFolder)
        } else if parent_id is Some && in_subtree(self.folders, id, parent_id.unwrap()) {
            Some(StoreError::WouldCycle)
        } else {
            None
        }
    }

    /// The store with the folder `id` under the given parent, or under
    /// none.
    pub open spec fn move_folder(self, id: i64, parent_id: Option<i64>) -> StoreState {
        StoreState {
            folders: self.folders.map_values(
                |f: FolderView| if f.id == id {
                    with_parent(f, parent_id)
                } else {
                    f
                },
            ),
            ..self
        }
    }

    /// The store without the subtree of the folder `id`: without that
    /// folder, the folders below it, and the notes in any of them.
    pub open spec fn delete_folder(self, id: i64) -> StoreState {
        StoreState {
            folders: self.folders.filter(folder_outside(self.folders, id)),
            notes: self.notes.filter(note_outside(self.folders, id)),
            ..self
        }
    }

    /// The store without the note `id`.
    pub open spec fn delete_note(self, id: i64) -> StoreState {
        StoreState { notes: self.notes.filter(|n: NoteView| n.id != id), ..self }
    }

    /// The store after the given statement, or why the statement fails. A
    /// statement that fails leaves the store as it was.
    pub open spec fn execute(self, statement: Statement) -> Result<StoreState, StatementError> {
        match statement {
            Statement::CreateFoldersTable => Ok(StoreState { folders_table: true, ..self }),
            Statement::CreateNoteTable => if !self.folders_table {
                Err(StatementError::NoSuchTable(TableName::Folders))
            } else {
                Ok(StoreState { note_table: true, ..self })
            },
            Statement::AddNoteTitleColumn => if !self.note_table {
                Err(StatementError::NoSuchTable(TableName::Note))
            } else if self.title_column {
                Ok(self)
            } else {
                Ok(
                    StoreState {
                        title_column: true,
                        notes: self.notes.map_values(
                            |n: NoteView| with_title(n, placeholder_title()),
                        ),
                        ..self
                    },
                )
            },
            Statement::BackfillNoteTitles => if !self.note_table {
                Err(StatementError::NoSuchTable(TableName::Note))
            } else if !self.title_column {
                Err(StatementError::NoSuchColumn(ColumnName::Title))
            } else {
                Ok(
                    StoreState {
                        notes: self.notes.map_values(
                            |n: NoteView| with_title(n, title_of(n.content)),
                        ),
                        ..self
                    },
                )
            },
        }
    }

    /// The store with the recorded version `version`.
    pub open spec fn record_version(self, version: i64) -> StoreState {
        StoreState { version, ..self }
    }
}

/// Where the folders stand in the order of their identifiers, an identifier
/// names one folder: the folder at a place is the one that its identifier
/// finds.
pub proof fn lemma_folder_index(folders: Seq<FolderView>, i: int)
    requires
        folders_ascending(folders),
        0 <= i < folders.len(),
    ensures
        has_folder(folders, folders[i].id),
        folder_index(folders, folders[i].id) == i,
        parent_of(folders, folders[i].id) == folders[i].parent_id,
{
    let id = folders[i].id;
    let k = folder_index(folders, id);
    assert(folders[k].id == id);
    if k < i {
        assert(folders[k].id < folders[i].id);
    } else if i < k {
        assert(folders[i].id < folders[k].id);
    }
}

/// A fresh store is valid.
pub proof fn lemma_fresh_valid()
    ensures
        StoreState::fresh().valid(),
{
}

} // verus!
