//! The ways in which a copy can fail.

use vstd::prelude::*;

verus! {

/// Why an entry, a file or a tree could not be copied.
#[derive(Debug, PartialEq, Eq)]
pub enum CopyError {
    /// The source path does not exist.
    SourceNotFound,
    /// The source is a directory and recursion was not asked for.
    SourceIsDirectoryWithoutRecursion,
    /// The destination lies below the source.
    DestinationInsideSource,
    /// Reading, writing, creating or inspecting something failed; the text
    /// is that of the underlying cause.
    Io(String),
}

/// The mathematical content of a [`CopyError`].
pub enum CopyErrorView {
    SourceNotFound,
    SourceIsDirectoryWithoutRecursion,
    DestinationInsideSource,
    Io(Seq<char>),
}

impl View for CopyError {
    type V = CopyErrorView;

    open spec fn view(&self) -> CopyErrorView {
        match self {
            CopyError::SourceNotFound => CopyErrorView::SourceNotFound,
            CopyError::SourceIsDirectoryWithoutRecursion => {
                CopyErrorView::SourceIsDirectoryWithoutRecursion
            },
            CopyError::DestinationInsideSource => CopyErrorView::DestinationInsideSource,
            CopyError::Io(cause) => CopyErrorView::Io(cause@),
        }
    }
}

/// The text that describes an error to the user.
pub open spec fn message_of(error: CopyErrorView) -> Seq<char> {
    match error {
        CopyErrorView::SourceNotFound => "Source path does not exist"@,
        CopyErrorView::SourceIsDirectoryWithoutRecursion => {
            "Source path is a directory, but recursive flag is not set"@
        },
        CopyErrorView::DestinationInsideSource => "cannot copy a directory into itself"@,
        CopyErrorView::Io(cause) => cause,
    }
}

impl CopyError {
    /// The text that describes this error to the user.
    pub fn message(&self) -> (text: String)
        ensures
            text@ == message_of(self@),
    {
        match self {
            CopyError::SourceNotFound => "Source path does not exist".to_owned(),
            CopyError::SourceIsDirectoryWithoutRecursion => {
                "Source path is a directory, but recursive flag is not set".to_owned()
            },
            CopyError::DestinationInsideSource => "cannot copy a directory into itself".to_owned(),
            CopyError::Io(cause) => cause.clone(),
        }
    }

    /// A copy of this error.
    pub fn duplicate(&self) -> (copy: CopyError)
        ensures
            copy@ == self@,
    {
        match self {
            CopyError::SourceNotFound => CopyError::SourceNotFound,
            CopyError::SourceIsDirectoryWithoutRecursion => {
                CopyError::SourceIsDirectoryWithoutRecursion
            },
            CopyError::DestinationInsideSource => CopyError::DestinationInsideSource,
            CopyError::Io(cause) => CopyError::Io(cause.clone()),
        }
    }
}

} // verus!
