//! The error of reading a document.
use vstd::prelude::*;

verus! {

/// Why a text could not be read: a message and, where it is known, the index of the character
/// at which the trouble was noticed.
#[derive(Debug, PartialEq, Eq)]
pub struct EyeronError {
    pub message: String,
    pub offset: Option<usize>,
}

/// What an [`EyeronError`] says.
pub struct ErrorView {
    pub message: Seq<char>,
    pub offset: Option<int>,
}

impl View for EyeronError {
    type V = ErrorView;

    open spec fn view(&self) -> ErrorView {
        ErrorView {
            message: self.message@,
            offset: match self.offset {
                Some(offset) => Some(offset as int),
                None => None,
            },
        }
    }
}

impl ErrorView {
    /// An error without a position.
    pub open spec fn plain(message: Seq<char>) -> ErrorView {
        ErrorView { message, offset: None }
    }

    /// An error at a position.
    pub open spec fn located(message: Seq<char>, offset: int) -> ErrorView {
        ErrorView { message, offset: Some(offset) }
    }
}

impl EyeronError {
    /// An error without a position.
    pub fn new(message: String) -> (r: EyeronError)
        ensures
            r@ == ErrorView::plain(message@),
    {
        EyeronError { message, offset: None }
    }

    /// An error at a position.
    pub fn at(message: String, offset: usize) -> (r: EyeronError)
        ensures
            r@ == ErrorView::located(message@, offset as int),
    {
        EyeronError { message, offset: Some(offset) }
    }
}

} // verus!
