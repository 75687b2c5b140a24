//! Choosing how a note is written to a file: as Markdown or as plain text.

use vstd::prelude::*;
use vstd::string::StrSliceExecFns;

verus! {

/// The formats in which a note can be written to a file.
#[derive(Clone, Copy, PartialEq, Eq, Structural, Debug)]
pub enum ExportFormat {
    Markdown,
    Text,
}

/// What is reported when the user closes the file dialog without choosing.
pub const NO_FILE_SELECTED: &'static str = "No file selected";

/// The format that a name asks for: Markdown for `md`, plain text for
/// `txt` and for every other name.
pub open spec fn format_named(name: Seq<char>) -> ExportFormat {
    if name == seq!['m', 'd'] {
        ExportFormat::Markdown
    } else {
        ExportFormat::Text
    }
}

impl ExportFormat {
    /// The format that `name` asks for.
    pub fn from_name(name: &str) -> (format: ExportFormat)
        ensures
            format == format_named(name@),
    {
        if name.unicode_len() == 2 && name.get_char(0) == 'm' && name.get_char(1) == 'd' {
            assert(name@ =~= seq!['m', 'd']);
            ExportFormat::Markdown
        } else {
            ExportFormat::Text
        }
    }

    /// What the file dialog calls files of the format.
    pub open spec fn filter_text(self) -> Seq<char> {
        match self {
            ExportFormat::Markdown => "Markdown File"@,
            ExportFormat::Text => "Text File"@,
        }
    }

    /// The extension of files of the format.
    pub open spec fn extension_text(self) -> Seq<char> {
        match self {
            ExportFormat::Markdown => "md"@,
            ExportFormat::Text => "txt"@,
        }
    }

    /// What the file dialog calls files of the format.
    pub fn filter_name(&self) -> (name: &'static str)
        ensures
            name@ == self.filter_text(),
    {
        match self {
            ExportFormat::Markdown => "Markdown File",
            ExportFormat::Text => "Text File",
        }
    }

    /// The extension of files of the format.
    pub fn extension(&self) -> (extension: &'static str)
        ensures
            extension@ == self.extension_text(),
    {
        match self {
            ExportFormat::Markdown => "md",
            ExportFormat::Text => "txt",
        }
    }
}

/// The extension of a format is the name that asks for it.
pub proof fn lemma_extension_names_format(format: ExportFormat)
    ensures
        format_named(format.extension_text()) == format,
{
    reveal_strlit("md");
    reveal_strlit("txt");
    if format == ExportFormat::Markdown {
        assert("md"@ =~= seq!['m', 'd']);
    } else {
        assert("txt"@.len() == 3);
    }
}

/// The path to write to, or the report that none was chosen.
pub fn chosen_path(selection: Option<String>) -> (result: Result<String, String>)
    ensures
        match selection {
            Some(path) => result == Ok::<String, String>(path),
            None => result is Err && result->Err_0@ == NO_FILE_SELECTED@,
        },
{
    match selection {
        Some(path) => Ok(path),
        None => Err(NO_FILE_SELECTED.to_owned()),
    }
}

} // verus!
