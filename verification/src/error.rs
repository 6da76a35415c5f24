//! What can go wrong in a run.

use vstd::prelude::*;
use vstd::string::StringExecFns;

verus! {

/// A failure of a run. The first two concern one path or one file and do not
/// end the run; the third concerns the run as a whole.
#[derive(Clone, Debug, PartialEq, Eq)]
pub enum SearchError {
    /// A path to search names neither a file nor a directory.
    PathNotFound(String),
    /// A file does not hold text.
    UnreadableFile(String),
    /// The options make no sense. No search gives this today: it is kept for
    /// a stricter reading of the command line.
    InvalidConfiguration,
}

/// A `SearchError` as plain values.
pub enum SearchErrorView {
    PathNotFound(Seq<char>),
    UnreadableFile(Seq<char>),
    InvalidConfiguration,
}

impl View for SearchError {
    type V = SearchErrorView;

    open spec fn view(&self) -> SearchErrorView {
        match self {
            SearchError::PathNotFound(path) => SearchErrorView::PathNotFound(path@),
            SearchError::UnreadableFile(path) => SearchErrorView::UnreadableFile(path@),
            SearchError::InvalidConfiguration => SearchErrorView::InvalidConfiguration,
        }
    }
}

/// What is said of a failure: the path it concerns, then what is wrong with
/// it.
pub open spec fn message_of(error: SearchErrorView) -> Seq<char> {
    match error {
        SearchErrorView::PathNotFound(path) => path + ": not found"@,
        SearchErrorView::UnreadableFile(path) => path + ": not readable as text"@,
        SearchErrorView::InvalidConfiguration => "invalid configuration"@,
    }
}

impl SearchError {
    /// Whether the failure ends the run.
    pub fn is_fatal(&self) -> (r: bool)
        ensures
            r == (self@ is InvalidConfiguration),
    {
        match self {
            SearchError::InvalidConfiguration => true,
            _ => false,
        }
    }

    /// What is said of the failure.
    pub fn message(&self) -> (text: String)
        ensures
            text@ == message_of(self@),
    {
        match self {
            SearchError::PathNotFound(path) => {
                let mut text = path.clone();
                text.append(": not found");
                text
            },
            SearchError::UnreadableFile(path) => {
                let mut text = path.clone();
                text.append(": not readable as text");
                text
            },
            SearchError::InvalidConfiguration => String::from_str("invalid configuration"),
        }
    }
}

} // verus!
