//! The failure taxonomy of the engine.  Every failure aborts the render of
//! the one template it arose in; the orchestrator aggregates outcomes.

use vstd::prelude::*;

verus! {

/// Why a load, mutation, resolution or expansion failed.
#[derive(Debug, Clone, Copy, PartialEq, Eq, Structural)]
pub enum Error {
    /// Malformed source document: mutation or path-spec syntax, or a
    /// non-sequence `mutations` value.
    Parse,
    /// A mutation path traverses a missing key or a non-mapping node, or
    /// addresses a key whose presence contradicts the action.
    Navigation,
    /// A value of the wrong kind: a scalar `Add` payload, a non-string and
    /// non-number embedded interpolation target, or a bad `/json` target.
    TypeMismatch,
    /// A build-time reference has no definition and is not runtime-deferred.
    UnresolvedReference,
    /// Expansion exceeded the nesting budget (cyclic definitions).
    DepthExceeded,
}

impl Error {
    /// A short diagnostic name for the failure.
    pub fn describe(&self) -> (r: &'static str)
        ensures
            r@ == self.describe_spec(),
    {
        match self {
            Error::Parse => "parse error",
            Error::Navigation => "navigation error",
            Error::TypeMismatch => "type error",
            Error::UnresolvedReference => "unresolved reference",
            Error::DepthExceeded => "expansion depth exceeded",
        }
    }

    /// What `describe` returns.
    pub open spec fn describe_spec(self) -> Seq<char> {
        match self {
            Error::Parse => "parse error"@,
            Error::Navigation => "navigation error"@,
            Error::TypeMismatch => "type error"@,
            Error::UnresolvedReference => "unresolved reference"@,
            Error::DepthExceeded => "expansion depth exceeded"@,
        }
    }
}

} // verus!
