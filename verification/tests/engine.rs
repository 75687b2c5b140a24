use notes_store::catalog::{check_ordered, sqlite_migrations, MigrationStep, Statement};
use notes_store::engine::{
    initialize, migrate, newest, open_store, pending_steps, MigrationError,
};
use notes_store::model::StatementError;
use notes_store::schema::{schema_at_version, ColumnName, TableName};
use notes_store::store::{Folder, Note, Store};

fn text(s: &str) -> Option<String> {
    Some(s.to_string())
}

fn step(version: i64, statements: Vec<Statement>) -> MigrationStep {
    MigrationStep { version, description: "step", statements }
}

fn column_names(store: &Store) -> Vec<Vec<&'static str>> {
    store
        .schema()
        .tables
        .iter()
        .map(|t| t.columns.iter().map(|c| c.name.as_str()).collect())
        .collect()
}

fn first_steps(count: usize) -> Vec<MigrationStep> {
    let mut steps = sqlite_migrations();
    steps.truncate(count);
    steps
}

#[test]
fn fresh_store_reaches_version_three() {
    let mut store = Store::new();
    assert_eq!(migrate(&mut store, &sqlite_migrations()), Ok(vec![1, 2, 3]));
    assert_eq!(store.version(), 3);
    let schema = store.schema();
    assert_eq!(schema.tables.len(), 2);
    assert_eq!(schema.tables[0].name, TableName::Folders);
    assert_eq!(schema.tables[1].name, TableName::Note);
    assert_eq!(
        column_names(&store),
        vec![
            vec!["id", "name", "date_created", "parent_id"],
            vec!["id", "content", "date_created", "folder_id", "title"],
        ]
    );
    let latest = schema_at_version(3);
    assert_eq!(schema.tables[0].columns, latest.tables[0].columns);
    assert_eq!(schema.tables[1].columns, latest.tables[1].columns);
}

#[test]
fn store_at_version_zero_with_tables_reaches_version_three() {
    let mut store = Store::new();
    assert_eq!(store.execute(Statement::CreateFoldersTable), Ok(()));
    assert_eq!(store.execute(Statement::CreateNoteTable), Ok(()));
    assert_eq!(store.insert_folder(text("Work"), 1, None), Ok(1));
    assert_eq!(store.insert_note("  spaced  \nbody".to_string(), 2, 1, None), Ok(1));
    assert_eq!(store.version(), 0);
    assert_eq!(initialize(&mut store), Ok(vec![1, 2, 3]));
    assert_eq!(store.version(), 3);
    assert_eq!(column_names(&store)[1].len(), 5);
    assert_eq!(store.notes()[0].title, text("spaced"));
    assert_eq!(store.folders().len(), 1);
}

#[test]
fn migrated_store_is_left_alone() {
    let mut store = open_store();
    assert_eq!(store.insert_folder(text("Work"), 1, None), Ok(1));
    assert_eq!(store.insert_note("# Plan\nDo X".to_string(), 2, 1, text("My plan")), Ok(1));
    assert_eq!(migrate(&mut store, &sqlite_migrations()), Ok(vec![]));
    assert_eq!(store.version(), 3);
    assert_eq!(
        store.folders()[..],
        [Folder { id: 1, name: text("Work"), date_created: 1, parent_id: None }]
    );
    assert_eq!(
        store.notes()[..],
        [Note {
            id: 1,
            content: "# Plan\nDo X".to_string(),
            date_created: 2,
            folder_id: 1,
            title: text("My plan"),
        }]
    );
    assert_eq!(initialize(&mut store), Ok(vec![]));
    assert_eq!(store.notes()[0].title, text("My plan"));
    assert_eq!(column_names(&store)[1].len(), 5);
}

#[test]
fn opened_store_is_at_the_latest_version() {
    let store = open_store();
    assert_eq!(store.version(), 3);
    assert_eq!(column_names(&store).len(), 2);
    assert!(store.folders().is_empty());
    assert!(store.notes().is_empty());
}

#[test]
fn title_is_derived_for_notes_that_were_there() {
    let mut store = Store::new();
    assert_eq!(migrate(&mut store, &first_steps(2)), Ok(vec![1, 2]));
    assert_eq!(store.version(), 2);
    assert_eq!(store.insert_folder(text("Work"), 1, None), Ok(1));
    assert_eq!(store.insert_note("# Plan\nDo X".to_string(), 2, 1, None), Ok(1));
    assert_eq!(store.notes()[0].title, None);
    assert_eq!(migrate(&mut store, &sqlite_migrations()), Ok(vec![3]));
    assert_eq!(store.version(), 3);
    assert_eq!(store.notes()[0].title, text("Plan"));
    assert_eq!(store.notes()[0].content, "# Plan\nDo X");
}

#[test]
fn title_is_not_derived_for_notes_that_come_later() {
    let mut store = Store::new();
    assert_eq!(migrate(&mut store, &sqlite_migrations()), Ok(vec![1, 2, 3]));
    assert_eq!(store.insert_folder(text("Work"), 1, None), Ok(1));
    assert_eq!(store.insert_note("# Plan\nDo X".to_string(), 2, 1, None), Ok(1));
    assert_eq!(store.notes()[0].title, text("Untitled Note"));
    assert_eq!(store.insert_note("# Plan\nDo X".to_string(), 3, 1, text("Plan")), Ok(2));
    assert_eq!(store.notes()[1].title, text("Plan"));
    assert_eq!(migrate(&mut store, &sqlite_migrations()), Ok(vec![]));
    assert_eq!(store.notes()[0].title, text("Untitled Note"));
}

#[test]
fn stores_at_every_version_reach_the_same_schema() {
    for begun in 0..=3 {
        let mut store = Store::new();
        let first = first_steps(begun);
        assert_eq!(migrate(&mut store, &first).map(|applied| applied.len()), Ok(begun));
        assert_eq!(store.version(), begun as i64);
        let rest: Vec<i64> = ((begun as i64 + 1)..=3).collect();
        assert_eq!(migrate(&mut store, &sqlite_migrations()), Ok(rest));
        assert_eq!(store.version(), 3);
        assert_eq!(
            column_names(&store),
            vec![
                vec!["id", "name", "date_created", "parent_id"],
                vec!["id", "content", "date_created", "folder_id", "title"],
            ]
        );
    }
}

#[test]
fn newer_store_is_refused() {
    let mut store = open_store();
    assert_eq!(store.insert_folder(text("Work"), 1, None), Ok(1));
    assert_eq!(
        migrate(&mut store, &first_steps(2)),
        Err(MigrationError::VersionSkew { recorded: 3, newest: 2 })
    );
    assert_eq!(store.version(), 3);
    assert_eq!(column_names(&store)[1].len(), 5);
    assert_eq!(store.folders().len(), 1);
    assert_eq!(
        migrate(&mut store, &vec![]),
        Err(MigrationError::VersionSkew { recorded: 3, newest: 0 })
    );
    assert_eq!(store.version(), 3);
}

#[test]
fn empty_catalog_does_nothing() {
    let mut store = Store::new();
    assert_eq!(migrate(&mut store, &vec![]), Ok(vec![]));
    assert_eq!(store.version(), 0);
    assert_eq!(newest(&vec![]), 0);
}

#[test]
fn failed_step_is_not_recorded() {
    let mut store = Store::new();
    let steps = vec![step(1, vec![Statement::AddNoteTitleColumn])];
    assert_eq!(
        migrate(&mut store, &steps),
        Err(MigrationError::StepFailure {
            version: 1,
            statement: 0,
            cause: StatementError::NoSuchTable(TableName::Note),
        })
    );
    assert_eq!(store.version(), 0);
    assert_eq!(store.schema().tables.len(), 0);
}

#[test]
fn failed_step_keeps_what_its_statements_did() {
    let mut store = Store::new();
    let broken = vec![
        step(1, vec![Statement::CreateFoldersTable]),
        step(2, vec![Statement::CreateNoteTable, Statement::BackfillNoteTitles]),
        step(3, vec![Statement::AddNoteTitleColumn]),
    ];
    assert!(check_ordered(&broken));
    assert_eq!(
        migrate(&mut store, &broken),
        Err(MigrationError::StepFailure {
            version: 2,
            statement: 1,
            cause: StatementError::NoSuchColumn(ColumnName::Title),
        })
    );
    assert_eq!(store.version(), 1);
    assert_eq!(
        column_names(&store),
        vec![
            vec!["id", "name", "date_created", "parent_id"],
            vec!["id", "content", "date_created", "folder_id"],
        ]
    );
}

#[test]
fn failed_step_is_tried_again() {
    let mut store = Store::new();
    let broken = vec![
        step(1, vec![Statement::CreateFoldersTable]),
        step(2, vec![Statement::CreateNoteTable, Statement::BackfillNoteTitles]),
    ];
    assert!(migrate(&mut store, &broken).is_err());
    assert_eq!(store.version(), 1);
    assert!(migrate(&mut store, &broken).is_err());
    assert_eq!(store.version(), 1);
    assert_eq!(migrate(&mut store, &sqlite_migrations()), Ok(vec![2, 3]));
    assert_eq!(store.version(), 3);
    assert_eq!(column_names(&store)[1].len(), 5);
}

#[test]
fn steps_after_a_failure_are_not_applied() {
    let mut store = Store::new();
    let steps = vec![
        step(1, vec![Statement::CreateNoteTable]),
        step(2, vec![Statement::CreateFoldersTable]),
    ];
    assert_eq!(
        migrate(&mut store, &steps),
        Err(MigrationError::StepFailure {
            version: 1,
            statement: 0,
            cause: StatementError::NoSuchTable(TableName::Folders),
        })
    );
    assert_eq!(store.version(), 0);
    assert_eq!(store.schema().tables.len(), 0);
}

#[test]
fn versions_with_gaps_are_applied_in_order() {
    let mut store = Store::new();
    let steps = vec![
        step(2, vec![Statement::CreateFoldersTable]),
        step(5, vec![]),
        step(9, vec![Statement::CreateNoteTable]),
    ];
    assert_eq!(migrate(&mut store, &steps[..2].iter().map(copy).collect()), Ok(vec![2, 5]));
    assert_eq!(store.version(), 5);
    assert_eq!(migrate(&mut store, &steps), Ok(vec![9]));
    assert_eq!(store.version(), 9);
    assert_eq!(newest(&steps), 9);
    assert_eq!(
        migrate(&mut store, &sqlite_migrations()),
        Err(MigrationError::VersionSkew { recorded: 9, newest: 3 })
    );
    let mut between = Store::new();
    assert_eq!(
        migrate(&mut between, &vec![step(1, vec![Statement::CreateFoldersTable]), step(4, vec![])]),
        Ok(vec![1, 4])
    );
    assert_eq!(migrate(&mut between, &steps), Ok(vec![5, 9]));
    assert_eq!(between.version(), 9);
}

fn copy(s: &MigrationStep) -> MigrationStep {
    MigrationStep {
        version: s.version,
        description: s.description,
        statements: s.statements.clone(),
    }
}

#[test]
fn pending_steps_are_those_above_the_recorded_version() {
    let steps = sqlite_migrations();
    assert_eq!(pending_steps(0, &steps), vec![0, 1, 2]);
    assert_eq!(pending_steps(1, &steps), vec![1, 2]);
    assert_eq!(pending_steps(2, &steps), vec![2]);
    assert_eq!(pending_steps(3, &steps), Vec::<usize>::new());
    assert_eq!(pending_steps(-1, &steps), vec![0, 1, 2]);
    assert_eq!(pending_steps(0, &vec![]), Vec::<usize>::new());
    assert_eq!(newest(&steps), 3);
}
