//! The relational shape of the store: its tables, their columns and the
//! constraints on them, at each version of the schema.

use vstd::prelude::*;

verus! {

/// The tables of the store.
#[derive(Clone, Copy, PartialEq, Eq, Structural, Debug)]
pub enum TableName {
    Folders,
    Note,
}

/// The columns of the store's tables.
#[derive(Clone, Copy, PartialEq, Eq, Structural, Debug)]
pub enum ColumnName {
    Id,
    Name,
    DateCreated,
    ParentId,
    Content,
    FolderId,
    Title,
}

/// The declared type of a column.
#[derive(Clone, Copy, PartialEq, Eq, Structural, Debug)]
pub enum ColumnType {
    Integer,
    Text,
    DateTime,
}

/// One column with its constraints.
#[derive(Clone, Copy, PartialEq, Eq, Structural, Debug)]
pub struct Column {
    pub name: ColumnName,
    pub column_type: ColumnType,
    /// The primary key, which the store assigns on creation and never reuses.
    pub primary_key: bool,
    /// A row must hold a value here.
    pub not_null: bool,
    /// No two rows hold the same value here; rows without a value are exempt.
    pub unique: bool,
    /// A row created without a value here gets the placeholder title.
    pub default_placeholder: bool,
    /// The value names a row of `folders`; deleting that row deletes this one.
    pub references_folders: bool,
}

/// One table: its name and its columns in declaration order.
pub struct Table {
    pub name: TableName,
    pub columns: Vec<Column>,
}

/// A table as a mathematical value.
pub struct TableView {
    pub name: TableName,
    pub columns: Seq<Column>,
}

impl View for Table {
    type V = TableView;

    open spec fn view(&self) -> TableView {
        TableView { name: self.name, columns: self.columns@ }
    }
}

/// The tables of a store, in the order of their creation.
pub struct Schema {
    pub tables: Vec<Table>,
}

impl View for Schema {
    type V = Seq<TableView>;

    open spec fn view(&self) -> Seq<TableView> {
        self.tables@.map_values(|t: Table| t@)
    }
}

impl TableName {
    /// The name of the table in the store.
    pub open spec fn text(self) -> Seq<char> {
        match self {
            TableName::Folders => "folders"@,
            TableName::Note => "note"@,
        }
    }

    /// The name of the table in the store.
    pub fn as_str(&self) -> (name: &'static str)
        ensures
            name@ == self.text(),
    {
        match self {
            TableName::Folders => "folders",
            TableName::Note => "note",
        }
    }
}

impl ColumnName {
    /// The name of the column in the store.
    pub open spec fn text(self) -> Seq<char> {
        match self {
            ColumnName::Id => "id"@,
            ColumnName::Name => "name"@,
            ColumnName::DateCreated => "date_created"@,
            ColumnName::ParentId => "parent_id"@,
            ColumnName::Content => "content"@,
            ColumnName::FolderId => "folder_id"@,
            ColumnName::Title => "title"@,
        }
    }

    /// The name of the column in the store.
    pub fn as_str(&self) -> (name: &'static str)
        ensures
            name@ == self.text(),
    {
        match self {
            ColumnName::Id => "id",
            ColumnName::Name => "name",
            ColumnName::DateCreated => "date_created",
            ColumnName::ParentId => "parent_id",
            ColumnName::Content => "content",
            ColumnName::FolderId => "folder_id",
            ColumnName::Title => "title",
        }
    }
}

/// A column of the given name and type with no constraint on it.
pub open spec fn plain_column(name: ColumnName, column_type: ColumnType) -> Column {
    Column {
        name,
        column_type,
        primary_key: false,
        not_null: false,
        unique: false,
        default_placeholder: false,
        references_folders: false,
    }
}

/// The identifier column that both tables begin with.
pub open spec fn id_column() -> Column {
    Column { primary_key: true, ..plain_column(ColumnName::Id, ColumnType::Integer) }
}

/// The creation timestamp that both tables require.
pub open spec fn date_created_column() -> Column {
    Column { not_null: true, ..plain_column(ColumnName::DateCreated, ColumnType::DateTime) }
}

/// The columns of `folders`: an assigned identifier, an optional name that
/// no two folders share, a creation timestamp, and the parent folder, if
/// any, whose deletion deletes the folder.
pub open spec fn folders_columns() -> Seq<Column> {
    seq![
        id_column(),
        Column { unique: true, ..plain_column(ColumnName::Name, ColumnType::Text) },
        date_created_column(),
        Column {
            references_folders: true,
            ..plain_column(ColumnName::ParentId, ColumnType::Integer)
        },
    ]
}

/// The title column of `note`: required text that defaults to the
/// placeholder title.
pub open spec fn title_column() -> Column {
    Column {
        not_null: true,
        default_placeholder: true,
        ..plain_column(ColumnName::Title, ColumnType::Text)
    }
}

/// The columns that `note` is created with: an assigned identifier, the
/// content, a creation timestamp, and the folder that holds the note, whose
/// deletion deletes the note.
pub open spec fn note_base_columns() -> Seq<Column> {
    seq![
        id_column(),
        Column { not_null: true, ..plain_column(ColumnName::Content, ColumnType::Text) },
        date_created_column(),
        Column {
            not_null: true,
            references_folders: true,
            ..plain_column(ColumnName::FolderId, ColumnType::Integer)
        },
    ]
}

/// The columns of `note`, with or without the title column.
pub open spec fn note_columns(with_title: bool) -> Seq<Column> {
    if with_title {
        note_base_columns().push(title_column())
    } else {
        note_base_columns()
    }
}

/// The schema of a store that holds the given tables and columns. A store
/// cannot hold `note` without `folders`, nor the title column without `note`.
pub open spec fn schema_with(folders: bool, note: bool, title: bool) -> Seq<TableView> {
    if !folders {
        Seq::empty()
    } else if !note {
        seq![TableView { name: TableName::Folders, columns: folders_columns() }]
    } else {
        seq![
            TableView { name: TableName::Folders, columns: folders_columns() },
            TableView { name: TableName::Note, columns: note_columns(title) },
        ]
    }
}

/// The highest version of the schema.
pub const LATEST_VERSION: i64 = 3;

/// The schema that a store has once every step up to `version` is applied:
/// none below version 1, `folders` from version 1, `note` from version 2, and
/// the title column of `note` from version 3.
pub open spec fn schema_at(version: int) -> Seq<TableView> {
    schema_with(version >= 1, version >= 2, version >= 3)
}

/// The schema of a fully migrated store.
pub open spec fn final_schema() -> Seq<TableView> {
    schema_at(LATEST_VERSION as int)
}

fn plain(name: ColumnName, column_type: ColumnType) -> (column: Column)
    ensures
        column == plain_column(name, column_type),
{
    Column {
        name,
        column_type,
        primary_key: false,
        not_null: false,
        unique: false,
        default_placeholder: false,
        references_folders: false,
    }
}

/// Describes the table `folders`.
pub fn folders_table() -> (table: Table)
    ensures
        table@ == (TableView { name: TableName::Folders, columns: folders_columns() }),
{
    let mut id = plain(ColumnName::Id, ColumnType::Integer);
    id.primary_key = true;
    let mut name = plain(ColumnName::Name, ColumnType::Text);
    name.unique = true;
    let mut date_created = plain(ColumnName::DateCreated, ColumnType::DateTime);
    date_created.not_null = true;
    let mut parent_id = plain(ColumnName::ParentId, ColumnType::Integer);
    parent_id.references_folders = true;
    let mut columns: Vec<Column> = Vec::new();
    columns.push(id);
    columns.push(name);
    columns.push(date_created);
    columns.push(parent_id);
    assert(columns@ =~= folders_columns());
    Table { name: TableName::Folders, columns }
}

/// Describes the table `note`, with or without its title column.
pub fn note_table(with_title: bool) -> (table: Table)
    ensures
        table@ == (TableView { name: TableName::Note, columns: note_columns(with_title) }),
{
    let mut id = plain(ColumnName::Id, ColumnType::Integer);
    id.primary_key = true;
    let mut content = plain(ColumnName::Content, ColumnType::Text);
    content.not_null = true;
    let mut date_created = plain(ColumnName::DateCreated, ColumnType::DateTime);
    date_created.not_null = true;
    let mut folder_id = plain(ColumnName::FolderId, ColumnType::Integer);
    folder_id.not_null = true;
    folder_id.references_folders = true;
    let mut columns: Vec<Column> = Vec::new();
    columns.push(id);
    columns.push(content);
    columns.push(date_created);
    columns.push(folder_id);
    assert(columns@ =~= note_base_columns());
    if with_title {
        let mut title = plain(ColumnName::Title, ColumnType::Text);
        title.not_null = true;
        title.default_placeholder = true;
        columns.push(title);
    }
    Table { name: TableName::Note, columns }
}

/// Describes the schema of a store that holds the given tables and columns.
pub fn schema_of_parts(folders: bool, note: bool, title: bool) -> (schema: Schema)
    ensures
        schema@ == schema_with(folders, note, title),
{
    let mut tables: Vec<Table> = Vec::new();
    if folders {
        tables.push(folders_table());
        if note {
            tables.push(note_table(title));
        }
    }
    let schema = Schema { tables };
    assert(schema@ =~= schema_with(folders, note, title));
    schema
}

/// Describes the schema at the given version.
pub fn schema_at_version(version: i64) -> (schema: Schema)
    ensures
        schema@ == schema_at(version as int),
{
    schema_of_parts(version >= 1, version >= 2, version >= 3)
}

} // verus!
