//! How many values a piece of code takes from the stack, and how many it leaves.

use vstd::prelude::*;

use crate::text::{decimal, push_decimal};

verus! {

/// The stack effect of a piece of code: `args` values are taken from the top of the stack
/// and `outputs` values are put there instead.
#[derive(Debug, Clone, Copy, PartialEq, Eq, Structural)]
pub struct Signature {
    pub args: usize,
    pub outputs: usize,
}

/// `a - b`, or 0 where `b` is the larger.
pub open spec fn monus(a: int, b: int) -> nat {
    if a > b {
        (a - b) as nat
    } else {
        0
    }
}

/// The number of arguments of code that first does `first` and then `second`.
pub open spec fn composed_args(second: Signature, first: Signature) -> nat {
    first.args as nat + monus(second.args as int, first.outputs as int)
}

/// The number of outputs of code that first does `first` and then `second`.
pub open spec fn composed_outputs(second: Signature, first: Signature) -> nat {
    second.outputs as nat + monus(first.outputs as int, second.args as int)
}

/// `sig` as it stands in messages: a bar, the arguments, a dot and the outputs.
pub open spec fn signature_text(sig: Signature) -> Seq<char> {
    seq!['|'] + decimal(sig.args as nat) + seq!['.'] + decimal(sig.outputs as nat)
}

impl Signature {
    /// A signature with the given number of arguments and outputs.
    pub fn new(args: usize, outputs: usize) -> (sig: Signature)
        ensures
            sig == (Signature { args, outputs }),
    {
        Signature { args, outputs }
    }

    /// The signature of code that first does `other` and then `self`.
    pub fn compose(self, other: Signature) -> (sig: Signature)
        requires
            composed_args(self, other) <= usize::MAX,
            composed_outputs(self, other) <= usize::MAX,
        ensures
            sig.args == composed_args(self, other),
            sig.outputs == composed_outputs(self, other),
    {
        Signature {
            args: other.args + self.args.saturating_sub(other.outputs),
            outputs: self.outputs + other.outputs.saturating_sub(self.args),
        }
    }

    /// Appends the signature to `text`, as it stands in messages.
    pub fn push_text(&self, text: &mut String)
        ensures
            final(text)@ == old(text)@ + signature_text(*self),
    {
        proof {
            reveal_strlit("|");
            reveal_strlit(".");
        }
        text.append("|");
        push_decimal(text, self.args);
        text.append(".");
        push_decimal(text, self.outputs);
        assert("|"@ =~= seq!['|']);
        assert("."@ =~= seq!['.']);
        assert(text@ =~= old(text)@ + signature_text(*self));
    }
}

} // verus!
