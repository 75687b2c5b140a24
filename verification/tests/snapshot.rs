use notes_store::engine::{initialize, migrate, open_store, MigrationError};
use notes_store::catalog::sqlite_migrations;
use notes_store::model::StoreError;
use notes_store::snapshot::{
    ids_are_valid, is_forest, is_valid, names_are_unique, references_are_valid, tables_are_valid,
    titles_are_valid, Snapshot,
};
use notes_store::store::{Deletion, Folder, Note, Store};

fn text(s: &str) -> Option<String> {
    Some(s.to_string())
}

fn folder(id: i64, name: Option<&str>, parent_id: Option<i64>) -> Folder {
    Folder { id, name: name.map(|n| n.to_string()), date_created: 100 + id, parent_id }
}

fn note(id: i64, folder_id: i64, title: Option<&str>) -> Note {
    Note {
        id,
        content: format!("# Note {}\nbody", id),
        date_created: 200 + id,
        folder_id,
        title: title.map(|t| t.to_string()),
    }
}

fn latest(folders: Vec<Folder>, notes: Vec<Note>) -> Snapshot {
    let last_folder_id = folders.iter().map(|f| f.id).max().unwrap_or(0);
    let last_note_id = notes.iter().map(|n| n.id).max().unwrap_or(0);
    Snapshot {
        version: 3,
        folders_table: true,
        note_table: true,
        title_column: true,
        folders,
        notes,
        last_folder_id,
        last_note_id,
    }
}

fn tree() -> Snapshot {
    latest(
        vec![
            folder(1, Some("Work"), None),
            folder(2, Some("Projects"), Some(1)),
            folder(3, None, Some(2)),
            folder(5, Some("Home"), None),
        ],
        vec![note(1, 1, Some("One")), note(2, 3, Some("Two")), note(4, 5, Some("Four"))],
    )
}

#[test]
fn store_takes_up_valid_contents() {
    assert!(is_valid(&tree()));
    let mut store = Store::restore(tree()).unwrap();
    assert_eq!(store.version(), 3);
    assert_eq!(store.folders()[..], tree().folders[..]);
    assert_eq!(store.notes()[..], tree().notes[..]);
    assert_eq!(store.insert_folder(text("Next"), 1, Some(3)), Ok(6));
    assert_eq!(store.insert_note("new".to_string(), 1, 6, None), Ok(5));
    assert_eq!(store.delete_folder(1), Deletion { folders: 4, notes: 3 });
    assert_eq!(store.folders()[..], [folder(5, Some("Home"), None)]);
    assert_eq!(store.notes()[..], [note(4, 5, Some("Four"))]);
}

#[test]
fn snapshot_holds_what_the_store_holds() {
    let mut store = open_store();
    assert_eq!(store.insert_folder(text("Work"), 7, None), Ok(1));
    assert_eq!(store.insert_folder(None, 8, Some(1)), Ok(2));
    assert_eq!(store.insert_note("content".to_string(), 9, 2, text("Title")), Ok(1));
    assert_eq!(store.delete_note(1), true);
    let snapshot = store.snapshot();
    assert_eq!(snapshot.version, 3);
    assert!(snapshot.folders_table && snapshot.note_table && snapshot.title_column);
    assert_eq!(snapshot.folders[..], store.folders()[..]);
    assert!(snapshot.notes.is_empty());
    assert_eq!((snapshot.last_folder_id, snapshot.last_note_id), (2, 1));
    let mut again = Store::restore(snapshot).unwrap();
    assert_eq!(again.folders()[..], store.folders()[..]);
    assert_eq!(again.insert_note("next".to_string(), 9, 2, None), Ok(2));
    assert_eq!(store.insert_note("next".to_string(), 9, 2, None), Ok(2));
}

#[test]
fn fresh_snapshot_is_valid() {
    let snapshot = Store::new().snapshot();
    assert_eq!(snapshot.version, 0);
    assert!(!snapshot.folders_table && !snapshot.note_table && !snapshot.title_column);
    assert!(is_valid(&snapshot));
    assert!(Store::restore(snapshot).is_some());
}

#[test]
fn folders_in_a_circle_are_refused() {
    let mut circle = tree();
    circle.folders[0].parent_id = Some(3);
    assert!(ids_are_valid(&circle) && references_are_valid(&circle));
    assert!(!is_forest(&circle));
    assert!(!is_valid(&circle));
    assert!(Store::restore(circle).is_none());
}

#[test]
fn folder_below_itself_is_refused() {
    let mut own = tree();
    own.folders[3].parent_id = Some(5);
    assert!(!is_forest(&own));
    assert!(Store::restore(own).is_none());
}

#[test]
fn folder_below_a_circle_is_refused() {
    let below = latest(
        vec![
            folder(1, None, Some(2)),
            folder(2, None, Some(1)),
            folder(3, None, Some(1)),
            folder(4, None, None),
        ],
        vec![],
    );
    assert!(!is_forest(&below));
    assert!(Store::restore(below).is_none());
}

#[test]
fn parent_may_be_younger_than_its_child() {
    let moved = latest(
        vec![
            folder(1, None, Some(2)),
            folder(2, None, Some(3)),
            folder(3, None, Some(4)),
            folder(4, None, None),
        ],
        vec![note(1, 1, Some("T"))],
    );
    assert!(is_forest(&moved));
    let mut store = Store::restore(moved).unwrap();
    assert!(store.is_in_subtree(4, 1));
    assert!(!store.is_in_subtree(1, 4));
    assert_eq!(store.move_folder(4, Some(1)), Err(StoreError::WouldCycle));
    assert_eq!(store.delete_folder(3), Deletion { folders: 3, notes: 1 });
    assert_eq!(store.folders()[..], [folder(4, None, None)]);
}

#[test]
fn long_chain_is_a_forest() {
    let mut folders = vec![folder(1, None, None)];
    for id in 2..=200 {
        folders.push(folder(id, None, Some(id - 1)));
    }
    let mut down = latest(folders, vec![]);
    assert!(is_forest(&down));
    down.folders[0].parent_id = Some(200);
    assert!(!is_forest(&down));
    let mut folders = vec![];
    for id in 1..200 {
        folders.push(folder(id, None, Some(id + 1)));
    }
    folders.push(folder(200, None, None));
    assert!(is_forest(&latest(folders, vec![])));
}

#[test]
fn missing_parent_is_refused() {
    let mut dangling = tree();
    dangling.folders[2].parent_id = Some(4);
    assert!(!references_are_valid(&dangling));
    assert!(Store::restore(dangling).is_none());
}

#[test]
fn note_without_its_folder_is_refused() {
    let mut lost = tree();
    lost.notes[1].folder_id = 4;
    assert!(!references_are_valid(&lost));
    assert!(Store::restore(lost).is_none());
}

#[test]
fn shared_name_is_refused() {
    let mut shared = tree();
    shared.folders[3].name = text("Work");
    assert!(!names_are_unique(&shared));
    assert!(Store::restore(shared).is_none());
    let mut nameless = tree();
    nameless.folders[3].name = None;
    assert!(names_are_unique(&nameless));
    assert!(Store::restore(nameless).is_some());
}

#[test]
fn identifiers_out_of_order_are_refused() {
    let mut swapped = tree();
    swapped.folders.swap(1, 2);
    assert!(!ids_are_valid(&swapped));
    assert!(Store::restore(swapped).is_none());
    let mut twice = tree();
    twice.notes[1].id = 1;
    assert!(!ids_are_valid(&twice));
    assert!(Store::restore(twice).is_none());
}

#[test]
fn identifiers_out_of_range_are_refused() {
    let mut zero = tree();
    zero.folders[0].id = 0;
    zero.folders[1].parent_id = None;
    zero.notes[0].folder_id = 5;
    assert!(!ids_are_valid(&zero));
    assert!(Store::restore(zero).is_none());
    let mut beyond = tree();
    beyond.last_folder_id = 4;
    assert!(!ids_are_valid(&beyond));
    assert!(Store::restore(beyond).is_none());
    let mut note_beyond = tree();
    note_beyond.last_note_id = 3;
    assert!(Store::restore(note_beyond).is_none());
    let mut negative = Store::new().snapshot();
    negative.last_note_id = -1;
    assert!(!ids_are_valid(&negative));
    assert!(Store::restore(negative).is_none());
}

#[test]
fn titles_go_with_their_column() {
    let mut untitled = tree();
    untitled.notes[0].title = None;
    assert!(!titles_are_valid(&untitled));
    assert!(Store::restore(untitled).is_none());
    let mut empty = tree();
    empty.notes[2].title = text("");
    assert!(!titles_are_valid(&empty));
    assert!(Store::restore(empty).is_none());
    let mut early = tree();
    early.title_column = false;
    assert!(!titles_are_valid(&early));
    assert!(Store::restore(early).is_none());
    let mut before = tree();
    before.title_column = false;
    before.version = 2;
    for n in before.notes.iter_mut() {
        n.title = None;
    }
    assert!(titles_are_valid(&before));
    assert!(Store::restore(before).is_some());
}

#[test]
fn rows_need_tables() {
    let mut no_note = tree();
    no_note.note_table = false;
    assert!(!tables_are_valid(&no_note));
    assert!(Store::restore(no_note).is_none());
    let mut no_folders = tree();
    no_folders.folders_table = false;
    assert!(!tables_are_valid(&no_folders));
    assert!(Store::restore(no_folders).is_none());
    let mut column_only = Store::new().snapshot();
    column_only.folders_table = true;
    column_only.title_column = true;
    assert!(!tables_are_valid(&column_only));
    assert!(Store::restore(column_only).is_none());
}

#[test]
fn negative_version_is_refused() {
    let mut negative = tree();
    negative.version = -1;
    assert!(!is_valid(&negative));
    assert!(Store::restore(negative).is_none());
}

#[test]
fn last_identifier_ends_the_table() {
    let mut full = tree();
    full.last_folder_id = i64::MAX;
    full.last_note_id = i64::MAX;
    let mut store = Store::restore(full).unwrap();
    assert_eq!(store.insert_folder(text("More"), 1, None), Err(StoreError::IdsExhausted));
    assert_eq!(
        store.insert_note("more".to_string(), 1, 1, text("More")),
        Err(StoreError::IdsExhausted)
    );
    assert_eq!(store.folders().len(), 4);
    assert_eq!(store.notes().len(), 3);
    let mut almost = tree();
    almost.last_folder_id = i64::MAX - 1;
    let mut store = Store::restore(almost).unwrap();
    assert_eq!(store.insert_folder(text("Last"), 1, None), Ok(i64::MAX));
    assert_eq!(store.insert_folder(text("More"), 1, None), Err(StoreError::IdsExhausted));
}

#[test]
fn store_at_version_zero_with_everything_reaches_version_three() {
    let mut early = tree();
    early.version = 0;
    let mut store = Store::restore(early).unwrap();
    assert_eq!(initialize(&mut store), Ok(vec![1, 2, 3]));
    assert_eq!(store.version(), 3);
    assert_eq!(store.schema().tables[1].columns.len(), 5);
    assert_eq!(store.folders()[..], tree().folders[..]);
    assert_eq!(
        store.notes().iter().map(|n| n.title.clone()).collect::<Vec<_>>(),
        vec![text("Note 1"), text("Note 2"), text("Note 4")]
    );
}

#[test]
fn store_ahead_of_the_catalog_is_refused() {
    let mut ahead = tree();
    ahead.version = 4;
    let mut store = Store::restore(ahead).unwrap();
    assert_eq!(
        migrate(&mut store, &sqlite_migrations()),
        Err(MigrationError::VersionSkew { recorded: 4, newest: 3 })
    );
    assert_eq!(store.version(), 4);
    assert_eq!(store.notes()[..], tree().notes[..]);
}

#[test]
fn store_that_lacks_what_its_version_promises_fails_at_the_step_that_needs_it() {
    let mut hollow = Store::new().snapshot();
    hollow.version = 2;
    let mut store = Store::restore(hollow).unwrap();
    assert!(matches!(
        migrate(&mut store, &sqlite_migrations()),
        Err(MigrationError::StepFailure { version: 3, statement: 0, .. })
    ));
    assert_eq!(store.version(), 2);
}
