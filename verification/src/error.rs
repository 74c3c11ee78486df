//! The ways in which a selection can fail.

use vstd::prelude::*;

verus! {

/// Why a selection did not yield a list of files.
#[derive(Debug, Clone, PartialEq, Eq)]
pub enum SelectError {
    /// A path cannot be put into text, so it cannot be matched.
    Encoding { path: String },
    /// The root of the library could not be opened.
    Traversal { root: String },
    /// A time stamp that the ordering needs could not be read.
    Metadata { path: String },
    /// The query matched no file. This is the ordinary miss, not a fault.
    NoMatch,
}

/// A `SelectError` with its texts as sequences of characters.
pub ghost enum Failure {
    Encoding { path: Seq<char> },
    Traversal { root: Seq<char> },
    Metadata { path: Seq<char> },
    NoMatch,
}

impl View for SelectError {
    type V = Failure;

    open spec fn view(&self) -> Failure {
        match self {
            SelectError::Encoding { path } => Failure::Encoding { path: path@ },
            SelectError::Traversal { root } => Failure::Traversal { root: root@ },
            SelectError::Metadata { path } => Failure::Metadata { path: path@ },
            SelectError::NoMatch => Failure::NoMatch,
        }
    }
}

/// The outcome of an operation, with its error as a `Failure`.
pub open spec fn outcome_view<T>(outcome: Result<T, SelectError>) -> Result<T, Failure> {
    match outcome {
        Ok(value) => Ok(value),
        Err(error) => Err(error@),
    }
}

impl Failure {
    /// Every failure but the ordinary miss aborts the run.
    pub open spec fn is_fatal(self) -> bool {
        !(self is NoMatch)
    }

    /// The text shown for the failure; it names the path at fault.
    pub open spec fn message(self) -> Seq<char> {
        match self {
            Failure::Encoding { path } => "Non UTF-8 Characters for file: "@ + path,
            Failure::Traversal { root } => "Error trying to open '"@ + root + "'"@,
            Failure::Metadata { path } => "Error trying to read '"@ + path + "'"@,
            Failure::NoMatch => "Didn't match anything"@,
        }
    }
}

impl SelectError {
    /// Whether the failure is a fault rather than an empty result.
    pub fn is_fatal(&self) -> (fatal: bool)
        ensures
            fatal == self@.is_fatal(),
    {
        match self {
            SelectError::NoMatch => false,
            _ => true,
        }
    }

    /// The text to show for the failure.
    pub fn message(&self) -> (text: String)
        ensures
            text@ == self@.message(),
    {
        match self {
            SelectError::Encoding { path } => {
                let mut text = String::from_str("Non UTF-8 Characters for file: ");
                text.append(path.as_str());
                text
            },
            SelectError::Traversal { root } => {
                let mut text = String::from_str("Error trying to open '");
                text.append(root.as_str());
                text.append("'");
                text
            },
            SelectError::Metadata { path } => {
                let mut text = String::from_str("Error trying to read '");
                text.append(path.as_str());
                text.append("'");
                text
            },
            SelectError::NoMatch => String::from_str("Didn't match anything"),
        }
    }
}

} // verus!
