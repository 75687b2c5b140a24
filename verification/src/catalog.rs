//! The catalog of migration steps: the ordered, versioned changes that take
//! a store from nothing to the latest schema.
//!
//! Every statement comes with its text in the dialect of SQLite, for a store
//! that SQLite keeps. Text that has been applied to a database stands as it
//! was written, to the last space: what is to change takes a new step.

use vstd::prelude::*;
use vstd::string::StringExecFns;

verus! {

/// The file that holds the store.
pub const STORE_FILE: &'static str = "app.db";

/// The address of the store: the scheme of SQLite, then the file. A store
/// that is opened under another address begins anew.
pub const STORE_URL: &'static str = "sqlite:app.db";

/// One change to the schema or the data of a store.
#[derive(Clone, Copy, PartialEq, Eq, Structural, Debug)]
pub enum Statement {
    /// Creates the table `folders` unless it exists.
    CreateFoldersTable,
    /// Creates the table `note` unless it exists.
    CreateNoteTable,
    /// Adds the title column to `note` unless it is there; the notes that
    /// exist get the placeholder title.
    AddNoteTitleColumn,
    /// Sets the title of every note to the one derived from its content.
    BackfillNoteTitles,
}

/// `Statement::CreateFoldersTable` in the dialect of SQLite.
pub const CREATE_FOLDERS_TABLE_SQL: &'static str = "
                CREATE TABLE IF NOT EXISTS folders (
                    id INTEGER PRIMARY KEY AUTOINCREMENT,
                    name TEXT UNIQUE,
                    date_created DATETIME NOT NULL,
                    parent_id INTEGER,
                    FOREIGN KEY(parent_id) REFERENCES folders(id) ON DELETE CASCADE
                );
            ";

/// `Statement::CreateNoteTable` in the dialect of SQLite.
pub const CREATE_NOTE_TABLE_SQL: &'static str = "
                CREATE TABLE IF NOT EXISTS note (
                    id INTEGER PRIMARY KEY AUTOINCREMENT,
                    content TEXT NOT NULL,
                    date_created DATETIME NOT NULL,
                    folder_id INTEGER NOT NULL,
                    FOREIGN KEY(folder_id) REFERENCES folders(id) ON DELETE CASCADE
                );
            ";

/// `Statement::AddNoteTitleColumn` in the dialect of SQLite.
pub const ADD_NOTE_TITLE_COLUMN_SQL: &'static str = "
                ALTER TABLE note ADD COLUMN title TEXT NOT NULL DEFAULT 'Untitled Note';";

/// `Statement::BackfillNoteTitles` in the dialect of SQLite, where the
/// string functions of SQLite stand in for the derivation of titles. They
/// part from it in two places: a content that holds no line feed gets the
/// placeholder, and of all whitespace only spaces are trimmed.
pub const BACKFILL_NOTE_TITLES_SQL: &'static str = "
                UPDATE note SET title = substr(content, 1, instr(content, char(10)) - 1);
                UPDATE note SET title = replace(title, '#', '') WHERE title LIKE '#%';
                UPDATE note SET title = trim(title);
                UPDATE note SET title = 'Untitled Note' WHERE title IS NULL OR title = '';
            ";

impl Statement {
    /// The statement as text in the dialect of SQLite.
    pub open spec fn sql_text(self) -> Seq<char> {
        match self {
            Statement::CreateFoldersTable => CREATE_FOLDERS_TABLE_SQL@,
            Statement::CreateNoteTable => CREATE_NOTE_TABLE_SQL@,
            Statement::AddNoteTitleColumn => ADD_NOTE_TITLE_COLUMN_SQL@,
            Statement::BackfillNoteTitles => BACKFILL_NOTE_TITLES_SQL@,
        }
    }

    /// The statement as text in the dialect of SQLite, for a store that
    /// SQLite keeps.
    pub fn sql(&self) -> (text: &'static str)
        ensures
            text@ == self.sql_text(),
    {
        match self {
            Statement::CreateFoldersTable => CREATE_FOLDERS_TABLE_SQL,
            Statement::CreateNoteTable => CREATE_NOTE_TABLE_SQL,
            Statement::AddNoteTitleColumn => ADD_NOTE_TITLE_COLUMN_SQL,
            Statement::BackfillNoteTitles => BACKFILL_NOTE_TITLES_SQL,
        }
    }
}

/// The texts of the first `count` statements, one after the other.
pub open spec fn sql_of(statements: Seq<Statement>, count: nat) -> Seq<char>
    decreases count,
{
    if count == 0 {
        Seq::empty()
    } else {
        sql_of(statements, (count - 1) as nat) + statements[count - 1].sql_text()
    }
}

/// One migration step: a unit of change to a store, which is applied as a
/// whole or counts as failed.
pub struct MigrationStep {
    /// The version that a store has once the step is applied.
    pub version: i64,
    /// What the step does, for a human reader.
    pub description: &'static str,
    /// The statements of the step, in the order in which they are executed.
    pub statements: Vec<Statement>,
}

/// A migration step as a mathematical value.
pub struct StepView {
    pub version: i64,
    pub description: Seq<char>,
    pub statements: Seq<Statement>,
}

impl View for MigrationStep {
    type V = StepView;

    open spec fn view(&self) -> StepView {
        StepView {
            version: self.version,
            description: self.description@,
            statements: self.statements@,
        }
    }
}

impl MigrationStep {
    /// The statements of the step as text in the dialect of SQLite, in the
    /// order in which they are executed.
    pub fn sql(&self) -> (text: String)
        ensures
            text@ == sql_of(self@.statements, self@.statements.len()),
    {
        let mut text = String::new();
        let mut i: usize = 0;
        while i < self.statements.len()
            invariant
                i <= self.statements@.len(),
                text@ == sql_of(self@.statements, i as nat),
            decreases self.statements.len() - i,
        {
            text.append(self.statements[i].sql());
            i += 1;
        }
        text
    }
}

/// The steps of a catalog as mathematical values.
pub open spec fn steps_view(steps: Seq<MigrationStep>) -> Seq<StepView> {
    steps.map_values(|s: MigrationStep| s@)
}

/// Whether the versions of the steps start at 1 or above and rise strictly,
/// so that no version occurs twice. Gaps between versions are in order.
pub open spec fn is_ordered(steps: Seq<StepView>) -> bool {
    &&& forall|i: int| 0 <= i < steps.len() ==> (#[trigger] steps[i]).version >= 1
    &&& forall|i: int, j: int|
        0 <= i < j < steps.len() ==> (#[trigger] steps[i]).version < (#[trigger] steps[j]).version
}

/// The steps that make the store of folders and notes:
/// version 1 creates `folders`, version 2 creates `note`, and version 3 adds
/// the title column to `note` and derives the titles of the notes in it.
pub open spec fn catalog() -> Seq<StepView> {
    seq![
        StepView {
            version: 1,
            description: "create_folders_table"@,
            statements: seq![Statement::CreateFoldersTable],
        },
        StepView {
            version: 2,
            description: "create_note_table"@,
            statements: seq![Statement::CreateNoteTable],
        },
        StepView {
            version: 3,
            description: "add_title_to_note_table"@,
            statements: seq![Statement::AddNoteTitleColumn, Statement::BackfillNoteTitles],
        },
    ]
}

/// The catalog is ordered.
pub proof fn lemma_catalog_ordered()
    ensures
        is_ordered(catalog()),
{
}

/// Tells whether the versions of the steps start at 1 or above and rise
/// strictly.
pub fn check_ordered(steps: &Vec<MigrationStep>) -> (ordered: bool)
    ensures
        ordered == is_ordered(steps_view(steps@)),
{
    let ghost views = steps_view(steps@);
    let mut i: usize = 0;
    let mut previous: i64 = 0;
    while i < steps.len()
        invariant
            i <= steps.len(),
            views == steps_view(steps@),
            i == 0 ==> previous == 0,
            i > 0 ==> previous == views[i - 1].version,
            is_ordered(views.take(i as int)),
        decreases steps.len() - i,
    {
        let version = steps[i].version;
        assert(views[i as int].version == version);
        if version <= previous {
            proof {
                if is_ordered(views) {
                    assert(views[i as int].version >= 1);
                    if i > 0 {
                        assert(views[i - 1].version < views[i as int].version);
                    }
                }
            }
            return false;
        }
        proof {
            let before = views.take(i as int);
            let now = views.take(i + 1);
            assert forall|a: int, b: int| 0 <= a < b < now.len() implies (#[trigger] now[a]).version
                < (#[trigger] now[b]).version by {
                if b < i {
                    assert(before[a].version < before[b].version);
                } else if a < i - 1 {
                    assert(before[a].version < before[i - 1].version);
                }
            }
            assert forall|a: int| 0 <= a < now.len() implies (#[trigger] now[a]).version >= 1 by {
                if a < i {
                    assert(before[a].version >= 1);
                }
            }
        }
        previous = version;
        i += 1;
    }
    assert(views.take(i as int) =~= views);
    true
}

/// The catalog of migration steps, in the order of their versions.
pub fn sqlite_migrations() -> (steps: Vec<MigrationStep>)
    ensures
        steps_view(steps@) == catalog(),
        is_ordered(steps_view(steps@)),
{
    let mut first: Vec<Statement> = Vec::new();
    first.push(Statement::CreateFoldersTable);
    let mut second: Vec<Statement> = Vec::new();
    second.push(Statement::CreateNoteTable);
    let mut third: Vec<Statement> = Vec::new();
    third.push(Statement::AddNoteTitleColumn);
    third.push(Statement::BackfillNoteTitles);
    let mut steps: Vec<MigrationStep> = Vec::new();
    steps.push(
        MigrationStep { version: 1, description: "create_folders_table", statements: first },
    );
    steps.push(
        MigrationStep { version: 2, description: "create_note_table", statements: second },
    );
    steps.push(
        MigrationStep { version: 3, description: "add_title_to_note_table", statements: third },
    );
    proof {
        let views = steps_view(steps@);
        assert(views[0].statements =~= catalog()[0].statements);
        assert(views[1].statements =~= catalog()[1].statements);
        assert(views[2].statements =~= catalog()[2].statements);
        assert(views =~= catalog());
    }
    steps
}

} // verus!
