use vstd::prelude::*;
use crate::text::{join, join_strings, views};

verus! {

/// What can go wrong in the library.
#[derive(Debug, PartialEq, Eq)]
pub enum WrkError {
    /// A project or a type is empty.
    EmptyValue { label: String },
    /// A project or a type holds white space or `:`.
    InvalidToken { label: String, value: String },
    /// A type that the configuration does not allow.
    UnknownType { value: String, allowed: Vec<String> },
    /// The message of an entry is blank.
    EmptyEntry,
    /// There is no entry to amend on the given date.
    NoEntries { date: String },
    /// A day file without any line.
    EmptyFile,
    /// A day file whose first line is not the expected title.
    BadTitle { expected: String },
    /// A day file without a `## Work Log` line.
    MissingWorkLog,
    /// A day file without a `## Notes` line.
    MissingNotes,
    /// A day file whose `## Notes` line comes first.
    NotesBeforeWorkLog,
    /// A line of the work log that is neither an entry nor a continuation.
    InvalidLine { line: String },
    /// A checked file whose title is not `# YYYY-MM-DD`.
    TitleMismatch { expected: String },
    /// A checked entry of a type that the configuration does not allow.
    UnknownKind { kind: String },
    /// A checked continuation line before any entry.
    OrphanDetail,
    /// A path that is not under the log root.
    OutsideRoot { path: String, root: String },
    /// A path that is not `YYYY/MM/YYYY-MM-DD.md` under the log root.
    BadLayout,
    /// A file name without the `.md` extension.
    NotMarkdown,
    /// A file name that is not a date.
    BadDateName { file_name: String },
    /// A year directory that does not match the file's date.
    YearMismatch { dir: String },
    /// A month directory that does not match the file's date.
    MonthMismatch { dir: String },
    /// The `latest.md` link points outside the log root.
    LatestOutside { root: String },
    /// The month after the anchor is out of range.
    InvalidMonth,
    /// A search pattern that is not a regular expression; the message
    /// names the pattern, and `reason` keeps what the `regex` crate says of
    /// it.
    InvalidPattern { pattern: String, reason: String },
    /// No editor is configured.
    EditorUnset,
    /// The editor command does not split into words.
    EditorUnparsable,
    /// The editor command has no word.
    EditorEmpty,
}

pub enum ErrorView {
    EmptyValue { label: Seq<char> },
    InvalidToken { label: Seq<char>, value: Seq<char> },
    UnknownType { value: Seq<char>, allowed: Seq<Seq<char>> },
    EmptyEntry,
    NoEntries { date: Seq<char> },
    EmptyFile,
    BadTitle { expected: Seq<char> },
    MissingWorkLog,
    MissingNotes,
    NotesBeforeWorkLog,
    InvalidLine { line: Seq<char> },
    TitleMismatch { expected: Seq<char> },
    UnknownKind { kind: Seq<char> },
    OrphanDetail,
    OutsideRoot { path: Seq<char>, root: Seq<char> },
    BadLayout,
    NotMarkdown,
    BadDateName { file_name: Seq<char> },
    YearMismatch { dir: Seq<char> },
    MonthMismatch { dir: Seq<char> },
    LatestOutside { root: Seq<char> },
    InvalidMonth,
    InvalidPattern { pattern: Seq<char>, reason: Seq<char> },
    EditorUnset,
    EditorUnparsable,
    EditorEmpty,
}

impl View for WrkError {
    type V = ErrorView;

    open spec fn view(&self) -> ErrorView {
        match self {
            WrkError::EmptyValue { label } => ErrorView::EmptyValue { label: label@ },
            WrkError::InvalidToken { label, value } => ErrorView::InvalidToken {
                label: label@,
                value: value@,
            },
            WrkError::UnknownType { value, allowed } => ErrorView::UnknownType {
                value: value@,
                allowed: views(allowed@),
            },
            WrkError::EmptyEntry => ErrorView::EmptyEntry,
            WrkError::NoEntries { date } => ErrorView::NoEntries { date: date@ },
            WrkError::EmptyFile => ErrorView::EmptyFile,
            WrkError::BadTitle { expected } => ErrorView::BadTitle { expected: expected@ },
            WrkError::MissingWorkLog => ErrorView::MissingWorkLog,
            WrkError::MissingNotes => ErrorView::MissingNotes,
            WrkError::NotesBeforeWorkLog => ErrorView::NotesBeforeWorkLog,
            WrkError::InvalidLine { line } => ErrorView::InvalidLine { line: line@ },
            WrkError::TitleMismatch { expected } => ErrorView::TitleMismatch {
                expected: expected@,
            },
            WrkError::UnknownKind { kind } => ErrorView::UnknownKind { kind: kind@ },
            WrkError::OrphanDetail => ErrorView::OrphanDetail,
            WrkError::OutsideRoot { path, root } => ErrorView::OutsideRoot {
                path: path@,
                root: root@,
            },
            WrkError::BadLayout => ErrorView::BadLayout,
            WrkError::NotMarkdown => ErrorView::NotMarkdown,
            WrkError::BadDateName { file_name } => ErrorView::BadDateName {
                file_name: file_name@,
            },
            WrkError::YearMismatch { dir } => ErrorView::YearMismatch { dir: dir@ },
            WrkError::MonthMismatch { dir } => ErrorView::MonthMismatch { dir: dir@ },
            WrkError::LatestOutside { root } => ErrorView::LatestOutside { root: root@ },
            WrkError::InvalidMonth => ErrorView::InvalidMonth,
            WrkError::InvalidPattern { pattern, reason } => ErrorView::InvalidPattern {
                pattern: pattern@,
                reason: reason@,
            },
            WrkError::EditorUnset => ErrorView::EditorUnset,
            WrkError::EditorUnparsable => ErrorView::EditorUnparsable,
            WrkError::EditorEmpty => ErrorView::EditorEmpty,
        }
    }
}

/// The message that an error reads as.
pub open spec fn message(e: ErrorView) -> Seq<char> {
    match e {
        ErrorView::EmptyValue { label } => label + " cannot be empty"@,
        ErrorView::InvalidToken { label, value } => label + " `"@ + value
            + "` cannot contain whitespace or `:`"@,
        ErrorView::UnknownType { value, allowed } => "unknown type `"@ + value
            + "`; allowed types: "@ + join(allowed, ", "@),
        ErrorView::EmptyEntry => "entry cannot be empty"@,
        ErrorView::NoEntries { date } => "no entries found for "@ + date,
        ErrorView::EmptyFile => "file is empty"@,
        ErrorView::BadTitle { expected } => "first line must be `"@ + expected + "`"@,
        ErrorView::MissingWorkLog => "missing `## Work Log` section"@,
        ErrorView::MissingNotes => "missing `## Notes` section"@,
        ErrorView::NotesBeforeWorkLog => "`## Notes` must appear after `## Work Log`"@,
        ErrorView::InvalidLine { line } => "invalid work-log line `"@ + line + "`"@,
        ErrorView::TitleMismatch { expected } => "title must be `"@ + expected + "`"@,
        ErrorView::UnknownKind { kind } => "unknown type `"@ + kind + "`"@,
        ErrorView::OrphanDetail => "indented continuation line must follow a log entry"@,
        ErrorView::OutsideRoot { path, root } => path + " is outside "@ + root,
        ErrorView::BadLayout => "path must be YYYY/MM/YYYY-MM-DD.md under the log root"@,
        ErrorView::NotMarkdown => "file must end in .md"@,
        ErrorView::BadDateName { file_name } => "invalid date filename `"@ + file_name + "`"@,
        ErrorView::YearMismatch { dir } => "year directory `"@ + dir
            + "` does not match filename date"@,
        ErrorView::MonthMismatch { dir } => "month directory `"@ + dir
            + "` does not match filename date"@,
        ErrorView::LatestOutside { root } => "latest symlink must point inside "@ + root,
        ErrorView::InvalidMonth => "invalid month"@,
        ErrorView::InvalidPattern { pattern, .. } => "invalid regex `"@ + pattern + "`"@,
        ErrorView::EditorUnset => "set `editor` in ~/.wrkrc or define $EDITOR/$VISUAL"@,
        ErrorView::EditorUnparsable => "failed to parse editor command"@,
        ErrorView::EditorEmpty => "editor command is empty"@,
    }
}

fn concat2(a: &str, b: &str) -> (r: String)
    ensures
        r@ == a@ + b@,
{
    let mut out = String::from_str(a);
    out.append(b);
    out
}

fn concat3(a: &str, b: &str, c: &str) -> (r: String)
    ensures
        r@ == a@ + b@ + c@,
{
    let mut out = String::from_str(a);
    out.append(b);
    out.append(c);
    out
}

impl WrkError {
    /// The message of the error.
    pub fn to_string(&self) -> (r: String)
        ensures
            r@ == message(self@),
    {
        match self {
            WrkError::EmptyValue { label } => concat2(label.as_str(), " cannot be empty"),
            WrkError::InvalidToken { label, value } => {
                let mut out = concat3(label.as_str(), " `", value.as_str());
                out.append("` cannot contain whitespace or `:`");
                out
            },
            WrkError::UnknownType { value, allowed } => {
                let mut out = concat3("unknown type `", value.as_str(), "`; allowed types: ");
                out.append(join_strings(allowed, ", ").as_str());
                out
            },
            WrkError::EmptyEntry => String::from_str("entry cannot be empty"),
            WrkError::NoEntries { date } => concat2("no entries found for ", date.as_str()),
            WrkError::EmptyFile => String::from_str("file is empty"),
            WrkError::BadTitle { expected } => concat3(
                "first line must be `",
                expected.as_str(),
                "`",
            ),
            WrkError::MissingWorkLog => String::from_str("missing `## Work Log` section"),
            WrkError::MissingNotes => String::from_str("missing `## Notes` section"),
            WrkError::NotesBeforeWorkLog => String::from_str(
                "`## Notes` must appear after `## Work Log`",
            ),
            WrkError::InvalidLine { line } => concat3(
                "invalid work-log line `",
                line.as_str(),
                "`",
            ),
            WrkError::TitleMismatch { expected } => concat3(
                "title must be `",
                expected.as_str(),
                "`",
            ),
            WrkError::UnknownKind { kind } => concat3("unknown type `", kind.as_str(), "`"),
            WrkError::OrphanDetail => String::from_str(
                "indented continuation line must follow a log entry",
            ),
            WrkError::OutsideRoot { path, root } => concat3(
                path.as_str(),
                " is outside ",
                root.as_str(),
            ),
            WrkError::BadLayout => String::from_str(
                "path must be YYYY/MM/YYYY-MM-DD.md under the log root",
            ),
            WrkError::NotMarkdown => String::from_str("file must end in .md"),
            WrkError::BadDateName { file_name } => concat3(
                "invalid date filename `",
                file_name.as_str(),
                "`",
            ),
            WrkError::YearMismatch { dir } => concat3(
                "year directory `",
                dir.as_str(),
                "` does not match filename date",
            ),
            WrkError::MonthMismatch { dir } => concat3(
                "month directory `",
                dir.as_str(),
                "` does not match filename date",
            ),
            WrkError::LatestOutside { root } => concat2(
                "latest symlink must point inside ",
                root.as_str(),
            ),
            WrkError::InvalidMonth => String::from_str("invalid month"),
            WrkError::InvalidPattern { pattern, .. } => concat3(
                "invalid regex `",
                pattern.as_str(),
                "`",
            ),
            WrkError::EditorUnset => String::from_str(
                "set `editor` in ~/.wrkrc or define $EDITOR/$VISUAL",
            ),
            WrkError::EditorUnparsable => String::from_str("failed to parse editor command"),
            WrkError::EditorEmpty => String::from_str("editor command is empty"),
        }
    }
}

} // verus!
