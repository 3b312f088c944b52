use vstd::prelude::*;

verus! {

/// An error met while addressing or patching a document.
#[derive(Debug)]
pub enum Error {
    /// The text is not a JSON Pointer, or a segment that addresses an array
    /// element is neither a decimal index nor `-`. Carries the offending
    /// text, or a message that quotes it.
    InvalidPath(String),
    /// The path does not lead to a location in the document.
    PathDoesntExist,
    /// A `test` operation found another value than the expected one.
    FailedTest,
}

/// What an [`Error`] says, with its text as a sequence of characters.
pub enum ErrorView {
    InvalidPath(Seq<char>),
    PathDoesntExist,
    FailedTest,
}

impl View for Error {
    type V = ErrorView;

    open spec fn view(&self) -> ErrorView {
        match self {
            Error::InvalidPath(text) => ErrorView::InvalidPath(text@),
            Error::PathDoesntExist => ErrorView::PathDoesntExist,
            Error::FailedTest => ErrorView::FailedTest,
        }
    }
}

impl Clone for Error {
    fn clone(&self) -> (copy: Self)
        ensures
            copy@ == self@,
    {
        match self {
            Error::InvalidPath(text) => Error::InvalidPath(text.clone()),
            Error::PathDoesntExist => Error::PathDoesntExist,
            Error::FailedTest => Error::FailedTest,
        }
    }
}

impl PartialEq for Error {
    fn eq(&self, other: &Self) -> (same: bool) {
        match self {
            Error::InvalidPath(a) => match other {
                Error::InvalidPath(b) => *a == *b,
                _ => false,
            },
            Error::PathDoesntExist => matches!(other, Error::PathDoesntExist),
            Error::FailedTest => matches!(other, Error::FailedTest),
        }
    }
}

impl vstd::std_specs::cmp::PartialEqSpecImpl for Error {
    open spec fn obeys_eq_spec() -> bool {
        true
    }

    open spec fn eq_spec(&self, other: &Self) -> bool {
        self@ == other@
    }
}

impl Eq for Error {

}

} // verus!
