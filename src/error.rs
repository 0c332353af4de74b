//! Error kinds shared by the library.
use vstd::prelude::*;

verus! {

/// What went wrong.
#[derive(Copy, Clone, Eq, PartialEq, Debug)]
pub enum SmolErrorKind {
    /// Persisted data could not be decoded.
    Deserialize,
    /// A model without any class was asked to tag.
    EmptyModel,
    /// A data structure could not be encoded.
    Serialize,
    /// Writing the result of tagging failed.
    Write,
    /// Anything else.
    Other,
}

/// An error of the library, carrying its kind.
#[derive(Copy, Clone, Eq, PartialEq, Debug)]
pub struct SmolError {
    kind: SmolErrorKind,
}

impl SmolError {
    pub fn new(kind: SmolErrorKind) -> (r: SmolError)
        ensures
            r.kind() == kind,
    {
        SmolError { kind }
    }

    pub closed spec fn spec_kind(&self) -> SmolErrorKind {
        self.kind
    }

    #[verifier::when_used_as_spec(spec_kind)]
    pub fn kind(&self) -> (r: SmolErrorKind)
        ensures
            r == self.spec_kind(),
    {
        self.kind
    }
}

} // verus!
