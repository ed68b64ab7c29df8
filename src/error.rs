use vstd::prelude::*;

verus! {

/// Why a substitution failed.
#[derive(Debug)]
pub enum Error {
    /// A placeholder's name had no value.
    UnresolvedVariable(String),
    /// An opening marker has no closing marker after it.
    SyntaxError,
}

/// The mathematical view of an [`Error`].
pub ghost enum Failure {
    /// The name that had no value.
    Unresolved(Seq<char>),
    /// An opening marker that is never closed.
    Syntax,
}

impl View for Error {
    type V = Failure;

    open spec fn view(&self) -> Failure {
        match self {
            Error::UnresolvedVariable(name) => Failure::Unresolved(name@),
            Error::SyntaxError => Failure::Syntax,
        }
    }
}

} // verus!
