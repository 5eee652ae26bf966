//! Errors that can be produced while reading a change set.

use vstd::prelude::*;

verus! {

/// All error variants that can be produced while reading a change set.
#[derive(Debug)]
pub enum Error {
    /// A file or directory could not be read; holds the failure's message.
    Io(String),
    /// What was to be a directory is none; holds the path. For callers that
    /// insist on a directory: the readers report what cannot be enumerated
    /// as an I/O error.
    ExpectedDir(String),
    /// The last component of the path is missing or is not valid UTF-8;
    /// holds the path.
    CannotObtainName(String),
    /// The directory name is not the ID of a configured component; holds
    /// the name.
    ComponentNotDefined(String),
    /// The entry's file name does not start with a decimal digit; holds
    /// the file name.
    InvalidEntryId(String),
    /// The entry's leading digits do not fit the ID's integer type; holds
    /// the digits.
    InvalidEntryNumber(String),
    /// The bullet style is neither `*` nor `-`.
    InvalidBulletStyle,
}

/// The mathematical value of an [`Error`].
pub enum ErrorView {
    Io(Seq<char>),
    ExpectedDir(Seq<char>),
    CannotObtainName(Seq<char>),
    ComponentNotDefined(Seq<char>),
    InvalidEntryId(Seq<char>),
    InvalidEntryNumber(Seq<char>),
    InvalidBulletStyle,
}

impl View for Error {
    type V = ErrorView;

    open spec fn view(&self) -> ErrorView {
        match *self {
            Error::Io(s) => ErrorView::Io(s@),
            Error::ExpectedDir(s) => ErrorView::ExpectedDir(s@),
            Error::CannotObtainName(s) => ErrorView::CannotObtainName(s@),
            Error::ComponentNotDefined(s) => ErrorView::ComponentNotDefined(s@),
            Error::InvalidEntryId(s) => ErrorView::InvalidEntryId(s@),
            Error::InvalidEntryNumber(s) => ErrorView::InvalidEntryNumber(s@),
            Error::InvalidBulletStyle => ErrorView::InvalidBulletStyle,
        }
    }
}

} // verus!
