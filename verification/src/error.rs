//! What can go wrong while the track library is found, read and understood.

use vstd::prelude::*;
use vstd::string::StringExecFns;

verus! {

/// Why the track library could not be had.
#[derive(Debug, Clone, PartialEq, Eq)]
pub enum LibraryError {
    /// None of the places where the library may be holds it.
    NotFound,
    /// The file could not be read; the text says why.
    Io(String),
    /// The file is not well-formed XML; the text says why.
    Parse(String),
}

/// What a failure says.
pub enum ErrorView {
    NotFound,
    Io(Seq<char>),
    Parse(Seq<char>),
}

impl View for LibraryError {
    type V = ErrorView;

    open spec fn view(&self) -> ErrorView {
        match self {
            LibraryError::NotFound => ErrorView::NotFound,
            LibraryError::Io(cause) => ErrorView::Io(cause@),
            LibraryError::Parse(cause) => ErrorView::Parse(cause@),
        }
    }
}

/// The message of a failure: a fixed text where nothing was found, the cause
/// alone where reading failed, and the cause behind a fixed opening where
/// the file was not understood.
pub open spec fn spec_message(error: ErrorView) -> Seq<char> {
    match error {
        ErrorView::NotFound => "VirtualDJ files not found"@,
        ErrorView::Io(cause) => cause,
        ErrorView::Parse(cause) => "XML parsing error: "@ + cause,
    }
}

impl LibraryError {
    /// The message that is handed to the caller of the application.
    pub fn message(&self) -> (r: String)
        ensures
            r@ == spec_message(self@),
    {
        match self {
            LibraryError::NotFound => String::from_str("VirtualDJ files not found"),
            LibraryError::Io(cause) => cause.clone(),
            LibraryError::Parse(cause) => {
                let mut text = String::from_str("XML parsing error: ");
                text.append(cause.as_str());
                text
            },
        }
    }
}

} // verus!
