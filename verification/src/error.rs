//! Why a signature could not be inferred.

use vstd::prelude::*;
use vstd::std_specs::convert::FromSpecImpl;

use crate::signature::Signature;

verus! {

/// The ways in which inference fails.
#[derive(Debug, Clone, Copy, PartialEq, Eq, Structural)]
pub enum SigCheckErrorKind {
    /// The code is wrong.
    Incorrect,
    /// The code may have more than one signature.
    Ambiguous,
    /// A loop takes more from the stack each time round.
    LoopOverreach,
    /// A loop leaves more on the stack each time round. `sig` is the signature of its body,
    /// and `inf` tells that the loop has no end.
    LoopExcess { sig: Signature, inf: bool },
}

/// A failure of inference.
#[derive(Debug, Clone, PartialEq, Eq)]
pub struct SigCheckError {
    pub message: String,
    pub kind: SigCheckErrorKind,
}

/// What a [`SigCheckError`] says.
pub struct Failure {
    pub message: Seq<char>,
    pub kind: SigCheckErrorKind,
}

impl View for SigCheckError {
    type V = Failure;

    open spec fn view(&self) -> Failure {
        Failure { message: self.message@, kind: self.kind }
    }
}

/// The failure of kind `Incorrect` with the given message.
pub open spec fn incorrect(message: Seq<char>) -> Failure {
    Failure { message, kind: SigCheckErrorKind::Incorrect }
}

impl SigCheckError {
    /// The same message, marked as ambiguous.
    pub fn ambiguous(self) -> (error: SigCheckError)
        ensures
            error == (SigCheckError { message: self.message, kind: SigCheckErrorKind::Ambiguous }),
    {
        SigCheckError { kind: SigCheckErrorKind::Ambiguous, ..self }
    }

    /// The same message, marked as a loop that overreaches.
    pub fn loop_overreach(self) -> (error: SigCheckError)
        ensures
            error == (SigCheckError {
                message: self.message,
                kind: SigCheckErrorKind::LoopOverreach,
            }),
    {
        SigCheckError { kind: SigCheckErrorKind::LoopOverreach, ..self }
    }

    /// The same message, marked as a loop that leaves more each time round.
    pub fn loop_excess(self, sig: Signature, inf: bool) -> (error: SigCheckError)
        ensures
            error == (SigCheckError {
                message: self.message,
                kind: SigCheckErrorKind::LoopExcess { sig, inf },
            }),
    {
        SigCheckError { kind: SigCheckErrorKind::LoopExcess { sig, inf }, ..self }
    }

    /// The text to show for the error: its message.
    pub fn text(&self) -> (text: String)
        ensures
            text@ == self.message@,
    {
        self.message.clone()
    }
}

impl<'a> From<&'a str> for SigCheckError {
    fn from(s: &'a str) -> (error: SigCheckError)
        ensures
            error@ == incorrect(s@),
    {
        SigCheckError { message: s.to_owned(), kind: SigCheckErrorKind::Incorrect }
    }
}

impl<'a> FromSpecImpl<&'a str> for SigCheckError {
    open spec fn obeys_from_spec() -> bool {
        false
    }

    open spec fn from_spec(s: &'a str) -> SigCheckError {
        arbitrary()
    }
}

impl From<String> for SigCheckError {
    fn from(s: String) -> (error: SigCheckError) {
        SigCheckError { message: s, kind: SigCheckErrorKind::Incorrect }
    }
}

impl FromSpecImpl<String> for SigCheckError {
    open spec fn obeys_from_spec() -> bool {
        true
    }

    open spec fn from_spec(s: String) -> SigCheckError {
        SigCheckError { message: s, kind: SigCheckErrorKind::Incorrect }
    }
}

} // verus!
