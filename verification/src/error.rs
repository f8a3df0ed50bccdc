//! What can go wrong in a diff, and the message for each.

use crate::text::{join, joined, views};
use crate::value::{quote, quoted};
use vstd::prelude::*;
use vstd::string::StringExecFns;

verus! {

/// Why a diff was refused or stopped.
#[derive(Debug)]
pub enum Error {
    NoSharedColumns,
    KeylessWithKey,
    KeylessWithTolerances,
    KeylessAssumeSorted,
    AssumeSortedWithoutKey,
    /// A key column that only one side has, or neither.
    KeyNotShared { column: String, shared: Vec<String> },
    NoKeyFound,
    /// No key could be inferred, and tolerances rule out a diff without one.
    NoKeyForTolerances,
    MissingColumn { column: String },
    HashColumnTaken,
    NotSorted { label: String, row: String, after: String },
    NotUnique { columns: Vec<String>, label: String, example: String },
    /// A column of a row filter that the table does not have.
    FilterColumn { column: String },
    UnsupportedExtension { extension: String },
    UnknownFormat { format: String },
}

/// An error with its strings as sequences of characters.
pub enum ErrorView {
    NoSharedColumns,
    KeylessWithKey,
    KeylessWithTolerances,
    KeylessAssumeSorted,
    AssumeSortedWithoutKey,
    KeyNotShared { column: Seq<char>, shared: Seq<Seq<char>> },
    NoKeyFound,
    NoKeyForTolerances,
    MissingColumn { column: Seq<char> },
    HashColumnTaken,
    NotSorted { label: Seq<char>, row: Seq<char>, after: Seq<char> },
    NotUnique { columns: Seq<Seq<char>>, label: Seq<char>, example: Seq<char> },
    FilterColumn { column: Seq<char> },
    UnsupportedExtension { extension: Seq<char> },
    UnknownFormat { format: Seq<char> },
}

impl View for Error {
    type V = ErrorView;

    open spec fn view(&self) -> ErrorView {
        match self {
            Error::NoSharedColumns => ErrorView::NoSharedColumns,
            Error::KeylessWithKey => ErrorView::KeylessWithKey,
            Error::KeylessWithTolerances => ErrorView::KeylessWithTolerances,
            Error::KeylessAssumeSorted => ErrorView::KeylessAssumeSorted,
            Error::AssumeSortedWithoutKey => ErrorView::AssumeSortedWithoutKey,
            Error::KeyNotShared { column, shared } => ErrorView::KeyNotShared {
                column: column@,
                shared: views(shared@),
            },
            Error::NoKeyFound => ErrorView::NoKeyFound,
            Error::NoKeyForTolerances => ErrorView::NoKeyForTolerances,
            Error::MissingColumn { column } => ErrorView::MissingColumn { column: column@ },
            Error::HashColumnTaken => ErrorView::HashColumnTaken,
            Error::NotSorted { label, row, after } => ErrorView::NotSorted {
                label: label@,
                row: row@,
                after: after@,
            },
            Error::NotUnique { columns, label, example } => ErrorView::NotUnique {
                columns: views(columns@),
                label: label@,
                example: example@,
            },
            Error::FilterColumn { column } => ErrorView::FilterColumn { column: column@ },
            Error::UnsupportedExtension { extension } => ErrorView::UnsupportedExtension {
                extension: extension@,
            },
            Error::UnknownFormat { format } => ErrorView::UnknownFormat { format: format@ },
        }
    }
}

/// The message for an error.
pub open spec fn error_message(e: ErrorView) -> Seq<char> {
    match e {
        ErrorView::NoSharedColumns => "tables share no columns; nothing to compare"@,
        ErrorView::KeylessWithKey => "--keyless and --key are mutually exclusive"@,
        ErrorView::KeylessWithTolerances => "float tolerances are not supported in keyless mode (rows are matched by exact content hash)"@,
        ErrorView::KeylessAssumeSorted => "--assume-sorted requires a key (keyless mode orders rows by content hash, not file order)"@,
        ErrorView::AssumeSortedWithoutKey => "--assume-sorted requires an explicit --key"@,
        ErrorView::KeyNotShared { column, shared } => "key column `"@ + column
            + "` is not present in both tables (shared columns: "@ + joined(shared, ", "@) + ")"@,
        ErrorView::NoKeyFound => "could not infer a key column that is unique and non-null on both sides; pass --key <column[,column]>"@,
        ErrorView::NoKeyForTolerances => "key inference failed and keyless mode cannot honor float tolerances; pass --key or drop --tol-abs/--tol-rel"@,
        ErrorView::MissingColumn { column } => "column `"@ + column + "` missing"@,
        ErrorView::HashColumnTaken => "input already contains a `__tabdiff_row_hash` column"@,
        ErrorView::NotSorted { label, row, after } => label + " is not sorted by the key (row with "@
            + row + " arrived after "@ + after + "); drop --assume-sorted"@,
        ErrorView::NotUnique { columns, label, example } => "key ("@ + joined(columns, ", "@)
            + ") is not unique in "@ + label + ": e.g. "@ + example
            + "; pick a different --key or use --keyless"@,
        ErrorView::FilterColumn { column } => "--where column `"@ + column + "` not found"@,
        ErrorView::UnsupportedExtension { extension } => "unsupported file extension `"@ + extension
            + "` (expected .csv or .parquet)"@,
        ErrorView::UnknownFormat { format } => "input_format must be 'csv' or 'parquet', got "@ + quoted(
            format,
        ),
    }
}

impl Error {
    /// The message for the error.
    pub fn message(&self) -> (r: String)
        ensures
            r@ == error_message(self@),
    {
        match self {
            Error::NoSharedColumns => "tables share no columns; nothing to compare".to_owned(),
            Error::KeylessWithKey => "--keyless and --key are mutually exclusive".to_owned(),
            Error::KeylessWithTolerances => "float tolerances are not supported in keyless mode (rows are matched by exact content hash)".to_owned(),
            Error::KeylessAssumeSorted => "--assume-sorted requires a key (keyless mode orders rows by content hash, not file order)".to_owned(),
            Error::AssumeSortedWithoutKey => "--assume-sorted requires an explicit --key".to_owned(),
            Error::KeyNotShared { column, shared } => {
                let mut s = "key column `".to_owned();
                s.append(column.as_str());
                s.append("` is not present in both tables (shared columns: ");
                s.append(join(shared, ", ").as_str());
                s.append(")");
                s
            },
            Error::NoKeyFound => "could not infer a key column that is unique and non-null on both sides; pass --key <column[,column]>".to_owned(),
            Error::NoKeyForTolerances => "key inference failed and keyless mode cannot honor float tolerances; pass --key or drop --tol-abs/--tol-rel".to_owned(),
            Error::MissingColumn { column } => {
                let mut s = "column `".to_owned();
                s.append(column.as_str());
                s.append("` missing");
                s
            },
            Error::HashColumnTaken => "input already contains a `__tabdiff_row_hash` column".to_owned(),
            Error::NotSorted { label, row, after } => {
                let mut s = label.clone();
                s.append(" is not sorted by the key (row with ");
                s.append(row.as_str());
                s.append(" arrived after ");
                s.append(after.as_str());
                s.append("); drop --assume-sorted");
                s
            },
            Error::NotUnique { columns, label, example } => {
                let mut s = "key (".to_owned();
                s.append(join(columns, ", ").as_str());
                s.append(") is not unique in ");
                s.append(label.as_str());
                s.append(": e.g. ");
                s.append(example.as_str());
                s.append("; pick a different --key or use --keyless");
                s
            },
            Error::FilterColumn { column } => {
                let mut s = "--where column `".to_owned();
                s.append(column.as_str());
                s.append("` not found");
                s
            },
            Error::UnsupportedExtension { extension } => {
                let mut s = "unsupported file extension `".to_owned();
                s.append(extension.as_str());
                s.append("` (expected .csv or .parquet)");
                s
            },
            Error::UnknownFormat { format } => {
                let mut s = "input_format must be 'csv' or 'parquet', got ".to_owned();
                s.append(quote(format.as_str()).as_str());
                s
            },
        }
    }
}

/// The message for an error, with that of its cause behind it.
pub open spec fn full_message(e: ErrorView) -> Seq<char> {
    match e {
        ErrorView::NoKeyForTolerances => error_message(e) + ": "@ + error_message(ErrorView::NoKeyFound),
        _ => error_message(e),
    }
}

impl Error {
    /// The message for the error, with that of its cause behind it.
    pub fn full_message(&self) -> (r: String)
        ensures
            r@ == full_message(self@),
    {
        let mut s = self.message();
        if let Error::NoKeyForTolerances = self {
            s.append(": ");
            s.append(Error::NoKeyFound.message().as_str());
        }
        s
    }
}

} // verus!
