use crate::text::{decimal, push_decimal, string_of};
use vstd::prelude::*;
use vstd::string::StringExecFns;

verus! {

/// What can go wrong while a listing is taken, an edited listing is read, or
/// the changes are worked out.
#[derive(Debug, PartialEq, Eq)]
pub enum Error {
    /// A line of the edited text is not an index and a name with one tab
    /// between them.
    MalformedInstructionLine(String),
    /// What stands before the tab of a line writes no index.
    BadIndex(String),
    /// The edited text names an index that the listing does not have.
    IndexOutOfRange(usize),
    /// A path given by hand lies in another directory than the first one.
    DirectoryNotUnique { expected: String, found: String },
    /// A path given by hand does not exist.
    PathDoesNotExist(String),
    /// There is nothing to edit.
    EmptyEntrySet,
    /// A directory was to be deleted, and deleting directories was not allowed.
    RefusedNonRecursiveDelete(String),
    /// What was to be deleted or copied is neither a file nor a directory.
    BadFileType,
    /// The path has no parent directory.
    NoParent(String),
    /// The path does not end in a file name.
    NoFileName(String),
}

/// An [`Error`] with the texts of its strings.
pub enum ErrorView {
    MalformedInstructionLine(Seq<char>),
    BadIndex(Seq<char>),
    IndexOutOfRange(usize),
    DirectoryNotUnique { expected: Seq<char>, found: Seq<char> },
    PathDoesNotExist(Seq<char>),
    EmptyEntrySet,
    RefusedNonRecursiveDelete(Seq<char>),
    BadFileType,
    NoParent(Seq<char>),
    NoFileName(Seq<char>),
}

impl View for Error {
    type V = ErrorView;

    open spec fn view(&self) -> ErrorView {
        match *self {
            Error::MalformedInstructionLine(line) => ErrorView::MalformedInstructionLine(line@),
            Error::BadIndex(text) => ErrorView::BadIndex(text@),
            Error::IndexOutOfRange(index) => ErrorView::IndexOutOfRange(index),
            Error::DirectoryNotUnique { expected, found } => ErrorView::DirectoryNotUnique {
                expected: expected@,
                found: found@,
            },
            Error::PathDoesNotExist(path) => ErrorView::PathDoesNotExist(path@),
            Error::EmptyEntrySet => ErrorView::EmptyEntrySet,
            Error::RefusedNonRecursiveDelete(path) => ErrorView::RefusedNonRecursiveDelete(path@),
            Error::BadFileType => ErrorView::BadFileType,
            Error::NoParent(path) => ErrorView::NoParent(path@),
            Error::NoFileName(path) => ErrorView::NoFileName(path@),
        }
    }
}

/// The message that reports `error`.
pub open spec fn message_of(error: ErrorView) -> Seq<char> {
    match error {
        ErrorView::MalformedInstructionLine(line) => "bad line: "@ + line,
        ErrorView::BadIndex(text) => "bad index: "@ + text,
        ErrorView::IndexOutOfRange(index) => "index out of range: "@ + decimal(index as nat),
        ErrorView::DirectoryNotUnique { expected, found } => "directories not unique: "@ + expected
            + " and "@ + found,
        ErrorView::PathDoesNotExist(path) => "path does not exist: "@ + path,
        ErrorView::EmptyEntrySet => "no files to edit"@,
        ErrorView::RefusedNonRecursiveDelete(path) =>
            "cowardly refusing to unlink, not in recursive mode: "@ + path,
        ErrorView::BadFileType => "bad file type"@,
        ErrorView::NoParent(path) => "no parent: "@ + path,
        ErrorView::NoFileName(path) => "no file name: "@ + path,
    }
}

/// `head` followed by `tail`.
fn prefixed(head: &str, tail: &str) -> (whole: String)
    ensures
        whole@ == head@ + tail@,
{
    let mut whole = String::from_str(head);
    whole.append(tail);
    whole
}

impl Error {
    /// The message that reports this error.
    pub fn message(&self) -> (message: String)
        ensures
            message@ == message_of(self@),
    {
        match self {
            Error::MalformedInstructionLine(line) => prefixed("bad line: ", line.as_str()),
            Error::BadIndex(text) => prefixed("bad index: ", text.as_str()),
            Error::IndexOutOfRange(index) => {
                let mut digits: Vec<char> = Vec::new();
                push_decimal(&mut digits, *index);
                let number = string_of(&digits);
                prefixed("index out of range: ", number.as_str())
            },
            Error::DirectoryNotUnique { expected, found } => {
                let mut message = prefixed("directories not unique: ", expected.as_str());
                message.append(" and ");
                message.append(found.as_str());
                message
            },
            Error::PathDoesNotExist(path) => prefixed("path does not exist: ", path.as_str()),
            Error::EmptyEntrySet => String::from_str("no files to edit"),
            Error::RefusedNonRecursiveDelete(path) => prefixed(
                "cowardly refusing to unlink, not in recursive mode: ",
                path.as_str(),
            ),
            Error::BadFileType => String::from_str("bad file type"),
            Error::NoParent(path) => prefixed("no parent: ", path.as_str()),
            Error::NoFileName(path) => prefixed("no file name: ", path.as_str()),
        }
    }
}

} // verus!
