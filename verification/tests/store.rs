use notes_store::catalog::Statement;
use notes_store::engine::open_store;
use notes_store::model::{StatementError, StoreError};
use notes_store::schema::{ColumnName, TableName};
use notes_store::store::{Deletion, Folder, Note, Store};

fn text(s: &str) -> Option<String> {
    Some(s.to_string())
}

fn folder_ids(store: &Store) -> Vec<i64> {
    store.folders().iter().map(|f| f.id).collect()
}

fn note_ids(store: &Store) -> Vec<i64> {
    store.notes().iter().map(|n| n.id).collect()
}

/// Folders 1 to 6 and notes 1 to 5:
///
/// ```text
/// 1 Work            notes 1, 2
/// +- 2 Projects     note 3
/// |  +- 4 Alpha     note 4
/// +- 3 Archive
/// 5 Home            note 5
/// +- 6 (no name)
/// ```
fn sample() -> Store {
    let mut store = open_store();
    assert_eq!(store.insert_folder(text("Work"), 10, None), Ok(1));
    assert_eq!(store.insert_folder(text("Projects"), 11, Some(1)), Ok(2));
    assert_eq!(store.insert_folder(text("Archive"), 12, Some(1)), Ok(3));
    assert_eq!(store.insert_folder(text("Alpha"), 13, Some(2)), Ok(4));
    assert_eq!(store.insert_folder(text("Home"), 14, None), Ok(5));
    assert_eq!(store.insert_folder(None, 15, Some(5)), Ok(6));
    assert_eq!(store.insert_note("in work".to_string(), 20, 1, text("W1")), Ok(1));
    assert_eq!(store.insert_note("also in work".to_string(), 21, 1, text("W2")), Ok(2));
    assert_eq!(store.insert_note("in projects".to_string(), 22, 2, text("P")), Ok(3));
    assert_eq!(store.insert_note("in alpha".to_string(), 23, 4, text("A")), Ok(4));
    assert_eq!(store.insert_note("at home".to_string(), 24, 5, text("H")), Ok(5));
    store
}

#[test]
fn new_store_holds_nothing() {
    let store = Store::new();
    assert_eq!(store.version(), 0);
    assert_eq!(store.schema().tables.len(), 0);
    assert!(store.folders().is_empty());
    assert!(store.notes().is_empty());
}

#[test]
fn rows_need_their_table() {
    let mut store = Store::new();
    assert_eq!(store.insert_folder(text("Work"), 1, None), Err(StoreError::NoSuchTable));
    assert_eq!(
        store.insert_note("content".to_string(), 1, 1, None),
        Err(StoreError::NoSuchTable)
    );
    assert_eq!(store.execute(Statement::CreateFoldersTable), Ok(()));
    assert_eq!(store.insert_folder(text("Work"), 1, None), Ok(1));
    assert_eq!(
        store.insert_note("content".to_string(), 1, 1, None),
        Err(StoreError::NoSuchTable)
    );
    assert!(store.notes().is_empty());
}

#[test]
fn folder_gets_the_next_identifier() {
    let mut store = open_store();
    assert_eq!(store.insert_folder(text("Work"), 42, None), Ok(1));
    assert_eq!(store.insert_folder(text("Home"), 43, Some(1)), Ok(2));
    assert_eq!(
        store.folders()[..],
        [
            Folder { id: 1, name: text("Work"), date_created: 42, parent_id: None },
            Folder { id: 2, name: text("Home"), date_created: 43, parent_id: Some(1) },
        ]
    );
}

#[test]
fn taken_name_is_refused() {
    let mut store = open_store();
    assert_eq!(store.insert_folder(text("Work"), 1, None), Ok(1));
    assert_eq!(store.insert_folder(text("Work"), 2, None), Err(StoreError::DuplicateName));
    assert_eq!(store.insert_folder(text("Work"), 2, Some(1)), Err(StoreError::DuplicateName));
    assert_eq!(store.insert_folder(text("Work"), 2, Some(99)), Err(StoreError::DuplicateName));
    assert_eq!(folder_ids(&store), vec![1]);
    assert!(store.name_in_use(&"Work".to_string()));
    assert!(!store.name_in_use(&"work".to_string()));
    assert_eq!(store.insert_folder(text("work"), 3, None), Ok(2));
}

#[test]
fn folders_without_name_do_not_collide() {
    let mut store = open_store();
    assert_eq!(store.insert_folder(None, 1, None), Ok(1));
    assert_eq!(store.insert_folder(None, 2, None), Ok(2));
    assert_eq!(store.insert_folder(text(""), 3, None), Ok(3));
    assert_eq!(store.insert_folder(text(""), 4, None), Err(StoreError::DuplicateName));
}

#[test]
fn name_is_free_again_once_its_folder_is_gone() {
    let mut store = open_store();
    assert_eq!(store.insert_folder(text("Work"), 1, None), Ok(1));
    assert_eq!(store.delete_folder(1), Deletion { folders: 1, notes: 0 });
    assert_eq!(store.insert_folder(text("Work"), 2, None), Ok(2));
}

#[test]
fn parent_must_exist() {
    let mut store = open_store();
    assert_eq!(store.insert_folder(text("Orphan"), 1, Some(1)), Err(StoreError::NoSuchFolder));
    assert_eq!(store.insert_folder(text("Root"), 1, None), Ok(1));
    assert_eq!(store.insert_folder(text("Child"), 1, Some(2)), Err(StoreError::NoSuchFolder));
    assert_eq!(store.insert_folder(text("Child"), 1, Some(1)), Ok(2));
}

#[test]
fn note_needs_its_folder() {
    let mut store = open_store();
    assert_eq!(
        store.insert_note("content".to_string(), 1, 1, text("T")),
        Err(StoreError::NoSuchFolder)
    );
    assert_eq!(store.insert_folder(text("Work"), 1, None), Ok(1));
    assert_eq!(store.insert_note("content".to_string(), 5, 1, text("T")), Ok(1));
    assert_eq!(
        store.notes()[..],
        [Note {
            id: 1,
            content: "content".to_string(),
            date_created: 5,
            folder_id: 1,
            title: text("T"),
        }]
    );
}

#[test]
fn note_without_title_gets_the_placeholder() {
    let mut store = open_store();
    assert_eq!(store.insert_folder(text("Work"), 1, None), Ok(1));
    assert_eq!(store.insert_note("# Plan\nDo X".to_string(), 2, 1, None), Ok(1));
    assert_eq!(store.notes()[0].title, text("Untitled Note"));
}

#[test]
fn empty_title_is_refused() {
    let mut store = open_store();
    assert_eq!(store.insert_folder(text("Work"), 1, None), Ok(1));
    assert_eq!(
        store.insert_note("content".to_string(), 2, 1, text("")),
        Err(StoreError::EmptyTitle)
    );
    assert!(store.notes().is_empty());
    assert_eq!(store.insert_note("content".to_string(), 2, 1, text(" ")), Ok(1));
}

#[test]
fn title_needs_its_column() {
    let mut store = Store::new();
    assert_eq!(store.execute(Statement::CreateFoldersTable), Ok(()));
    assert_eq!(store.execute(Statement::CreateNoteTable), Ok(()));
    assert_eq!(store.insert_folder(text("Work"), 1, None), Ok(1));
    assert_eq!(
        store.insert_note("content".to_string(), 2, 1, text("Title")),
        Err(StoreError::NoSuchColumn)
    );
    assert_eq!(store.insert_note("content".to_string(), 2, 1, None), Ok(1));
    assert_eq!(store.notes()[0].title, None);
}

#[test]
fn deleting_a_folder_takes_its_subtree() {
    let mut store = sample();
    assert_eq!(store.delete_folder(1), Deletion { folders: 4, notes: 4 });
    assert_eq!(folder_ids(&store), vec![5, 6]);
    assert_eq!(note_ids(&store), vec![5]);
    assert_eq!(
        store.folders()[..],
        [
            Folder { id: 5, name: text("Home"), date_created: 14, parent_id: None },
            Folder { id: 6, name: None, date_created: 15, parent_id: Some(5) },
        ]
    );
    assert_eq!(
        store.notes()[..],
        [Note {
            id: 5,
            content: "at home".to_string(),
            date_created: 24,
            folder_id: 5,
            title: text("H"),
        }]
    );
}

#[test]
fn deleting_an_inner_folder_leaves_what_is_above_and_beside() {
    let mut store = sample();
    assert_eq!(store.delete_folder(2), Deletion { folders: 2, notes: 2 });
    assert_eq!(folder_ids(&store), vec![1, 3, 5, 6]);
    assert_eq!(note_ids(&store), vec![1, 2, 5]);
}

#[test]
fn deleting_a_leaf_takes_its_notes() {
    let mut store = sample();
    assert_eq!(store.delete_folder(4), Deletion { folders: 1, notes: 1 });
    assert_eq!(folder_ids(&store), vec![1, 2, 3, 5, 6]);
    assert_eq!(note_ids(&store), vec![1, 2, 3, 5]);
    assert_eq!(store.delete_folder(6), Deletion { folders: 1, notes: 0 });
    assert_eq!(folder_ids(&store), vec![1, 2, 3, 5]);
}

#[test]
fn deleting_a_folder_that_is_not_there_takes_nothing() {
    let mut store = sample();
    assert_eq!(store.delete_folder(7), Deletion { folders: 0, notes: 0 });
    assert_eq!(store.delete_folder(0), Deletion { folders: 0, notes: 0 });
    assert_eq!(folder_ids(&store), vec![1, 2, 3, 4, 5, 6]);
    assert_eq!(note_ids(&store), vec![1, 2, 3, 4, 5]);
    let mut fresh = Store::new();
    assert_eq!(fresh.delete_folder(1), Deletion { folders: 0, notes: 0 });
}

#[test]
fn identifiers_are_not_used_again() {
    let mut store = sample();
    assert_eq!(store.delete_folder(5), Deletion { folders: 2, notes: 1 });
    assert_eq!(store.insert_folder(text("Home"), 30, None), Ok(7));
    assert_eq!(store.insert_note("new".to_string(), 31, 7, text("N")), Ok(6));
    assert!(store.delete_note(6));
    assert_eq!(store.insert_note("newer".to_string(), 32, 7, text("N")), Ok(7));
}

#[test]
fn deleting_a_note_takes_that_note() {
    let mut store = sample();
    assert!(store.delete_note(2));
    assert_eq!(note_ids(&store), vec![1, 3, 4, 5]);
    assert!(!store.delete_note(2));
    assert!(!store.delete_note(99));
    assert_eq!(note_ids(&store), vec![1, 3, 4, 5]);
    assert_eq!(folder_ids(&store), vec![1, 2, 3, 4, 5, 6]);
}

#[test]
fn subtree_is_the_folder_and_what_is_below() {
    let store = sample();
    for id in [1, 2, 3, 4] {
        assert!(store.is_in_subtree(1, id));
    }
    for id in [5, 6, 7, 0] {
        assert!(!store.is_in_subtree(1, id));
    }
    assert!(store.is_in_subtree(2, 4));
    assert!(!store.is_in_subtree(2, 1));
    assert!(!store.is_in_subtree(2, 3));
    assert!(!store.is_in_subtree(4, 2));
    assert!(store.is_in_subtree(6, 6));
    assert!(!store.is_in_subtree(7, 7));
    assert!(!store.is_in_subtree(7, 1));
}

#[test]
fn rows_are_found_by_identifier() {
    let mut store = sample();
    assert_eq!(store.folder_position(1), Some(0));
    assert_eq!(store.folder_position(6), Some(5));
    assert_eq!(store.folder_position(7), None);
    assert_eq!(store.folder(4).map(|f| f.name.clone()), Some(text("Alpha")));
    assert!(store.folder(0).is_none());
    assert_eq!(store.note_position(5), Some(4));
    assert_eq!(store.note(3).map(|n| n.content.clone()), Some("in projects".to_string()));
    assert!(store.note(6).is_none());
    store.delete_folder(2);
    assert_eq!(store.folder_position(3), Some(1));
    assert_eq!(store.folder_position(2), None);
    assert_eq!(store.note_position(5), Some(2));
    assert_eq!(store.note_position(3), None);
}

#[test]
fn renaming_keeps_names_apart() {
    let mut store = sample();
    assert_eq!(store.rename_folder(3, text("Work")), Err(StoreError::DuplicateName));
    assert_eq!(store.rename_folder(9, text("Nine")), Err(StoreError::NoSuchFolder));
    assert_eq!(store.rename_folder(9, text("Work")), Err(StoreError::NoSuchFolder));
    assert_eq!(store.rename_folder(3, text("Archive")), Ok(()));
    assert_eq!(store.rename_folder(3, text("Old")), Ok(()));
    assert_eq!(store.folder(3).unwrap().name, text("Old"));
    assert_eq!(store.rename_folder(1, None), Ok(()));
    assert_eq!(store.folder(1).unwrap().name, None);
    assert_eq!(store.rename_folder(3, text("Work")), Ok(()));
    assert_eq!(
        store.folder(3).unwrap(),
        &Folder { id: 3, name: text("Work"), date_created: 12, parent_id: Some(1) }
    );
    assert!(store.name_in_use_by_other(1, &"Work".to_string()));
    assert!(!store.name_in_use_by_other(3, &"Work".to_string()));
}

#[test]
fn folder_cannot_go_below_itself() {
    let mut store = sample();
    assert_eq!(store.move_folder(1, Some(1)), Err(StoreError::WouldCycle));
    assert_eq!(store.move_folder(1, Some(4)), Err(StoreError::WouldCycle));
    assert_eq!(store.move_folder(2, Some(4)), Err(StoreError::WouldCycle));
    assert_eq!(store.move_folder(1, Some(9)), Err(StoreError::NoSuchFolder));
    assert_eq!(store.move_folder(9, Some(1)), Err(StoreError::NoSuchFolder));
    assert_eq!(store.move_folder(9, None), Err(StoreError::NoSuchFolder));
    assert_eq!(
        store.folders().iter().map(|f| f.parent_id).collect::<Vec<_>>(),
        vec![None, Some(1), Some(1), Some(2), None, Some(5)]
    );
}

#[test]
fn moved_folder_takes_its_subtree_along() {
    let mut store = sample();
    assert_eq!(store.move_folder(2, Some(6)), Ok(()));
    assert_eq!(
        store.folder(2).unwrap(),
        &Folder { id: 2, name: text("Projects"), date_created: 11, parent_id: Some(6) }
    );
    assert!(store.is_in_subtree(5, 4));
    assert!(!store.is_in_subtree(1, 4));
    assert_eq!(store.move_folder(5, Some(4)), Err(StoreError::WouldCycle));
    assert_eq!(store.move_folder(4, None), Ok(()));
    assert_eq!(store.move_folder(5, Some(4)), Ok(()));
    assert_eq!(store.delete_folder(4), Deletion { folders: 4, notes: 3 });
    assert_eq!(folder_ids(&store), vec![1, 3]);
    assert_eq!(note_ids(&store), vec![1, 2]);
}

#[test]
fn statements_need_what_they_build_on() {
    let mut store = Store::new();
    assert_eq!(
        store.execute(Statement::CreateNoteTable),
        Err(StatementError::NoSuchTable(TableName::Folders))
    );
    assert_eq!(
        store.execute(Statement::AddNoteTitleColumn),
        Err(StatementError::NoSuchTable(TableName::Note))
    );
    assert_eq!(
        store.execute(Statement::BackfillNoteTitles),
        Err(StatementError::NoSuchTable(TableName::Note))
    );
    assert_eq!(store.schema().tables.len(), 0);
    assert_eq!(store.execute(Statement::CreateFoldersTable), Ok(()));
    assert_eq!(store.execute(Statement::CreateNoteTable), Ok(()));
    assert_eq!(
        store.execute(Statement::BackfillNoteTitles),
        Err(StatementError::NoSuchColumn(ColumnName::Title))
    );
    assert_eq!(store.schema().tables[1].columns.len(), 4);
    assert_eq!(store.execute(Statement::AddNoteTitleColumn), Ok(()));
    assert_eq!(store.execute(Statement::BackfillNoteTitles), Ok(()));
    assert_eq!(store.schema().tables[1].columns.len(), 5);
    assert_eq!(store.version(), 0);
}

#[test]
fn creating_and_adding_twice_changes_nothing() {
    let mut store = sample();
    assert_eq!(store.execute(Statement::CreateFoldersTable), Ok(()));
    assert_eq!(store.execute(Statement::CreateNoteTable), Ok(()));
    assert_eq!(store.execute(Statement::AddNoteTitleColumn), Ok(()));
    assert_eq!(folder_ids(&store), vec![1, 2, 3, 4, 5, 6]);
    assert_eq!(
        store.notes().iter().map(|n| n.title.clone()).collect::<Vec<_>>(),
        vec![text("W1"), text("W2"), text("P"), text("A"), text("H")]
    );
    assert_eq!(store.version(), 3);
}

#[test]
fn adding_the_title_column_gives_every_note_the_placeholder() {
    let mut store = Store::new();
    assert_eq!(store.execute(Statement::CreateFoldersTable), Ok(()));
    assert_eq!(store.execute(Statement::CreateNoteTable), Ok(()));
    assert_eq!(store.insert_folder(text("Work"), 1, None), Ok(1));
    assert_eq!(store.insert_note("# Plan\nDo X".to_string(), 2, 1, None), Ok(1));
    assert_eq!(store.insert_note("".to_string(), 3, 1, None), Ok(2));
    assert_eq!(store.execute(Statement::AddNoteTitleColumn), Ok(()));
    assert_eq!(store.notes()[0].title, text("Untitled Note"));
    assert_eq!(store.notes()[1].title, text("Untitled Note"));
    assert_eq!(store.execute(Statement::BackfillNoteTitles), Ok(()));
    assert_eq!(store.notes()[0].title, text("Plan"));
    assert_eq!(store.notes()[1].title, text("Untitled Note"));
    assert_eq!(store.notes()[0].content, "# Plan\nDo X");
}

#[test]
fn backfill_derives_titles_anew() {
    let mut store = sample();
    assert_eq!(store.execute(Statement::BackfillNoteTitles), Ok(()));
    assert_eq!(
        store.notes().iter().map(|n| n.title.clone()).collect::<Vec<_>>(),
        vec![
            text("in work"),
            text("also in work"),
            text("in projects"),
            text("in alpha"),
            text("at home")
        ]
    );
    assert_eq!(store.execute(Statement::BackfillNoteTitles), Ok(()));
    assert_eq!(store.notes()[4].title, text("at home"));
    assert_eq!(note_ids(&store), vec![1, 2, 3, 4, 5]);
}
