use notes_store::export::{chosen_path, ExportFormat, NO_FILE_SELECTED};

#[test]
fn md_asks_for_markdown() {
    let format = ExportFormat::from_name("md");
    assert_eq!(format, ExportFormat::Markdown);
    assert_eq!(format.filter_name(), "Markdown File");
    assert_eq!(format.extension(), "md");
}

#[test]
fn txt_asks_for_text() {
    let format = ExportFormat::from_name("txt");
    assert_eq!(format, ExportFormat::Text);
    assert_eq!(format.filter_name(), "Text File");
    assert_eq!(format.extension(), "txt");
}

#[test]
fn any_other_name_asks_for_text() {
    for name in ["", "m", "MD", "md ", "mdx", "dm", "pdf", "é"] {
        assert_eq!(ExportFormat::from_name(name), ExportFormat::Text, "{:?}", name);
    }
}

#[test]
fn extension_names_its_format() {
    for format in [ExportFormat::Markdown, ExportFormat::Text] {
        assert_eq!(ExportFormat::from_name(format.extension()), format);
    }
}

#[test]
fn no_choice_is_reported() {
    assert_eq!(chosen_path(None), Err("No file selected".to_string()));
    assert_eq!(NO_FILE_SELECTED, "No file selected");
    assert_eq!(chosen_path(Some("/tmp/note.md".to_string())), Ok("/tmp/note.md".to_string()));
}
