//! How runs of pieces of code fit together.

use vstd::prelude::*;

use crate::error::{Failure, SigCheckErrorKind};
use crate::instr::Instr;
use crate::laws::instructions::stopped;
use crate::model::{
    lemma_pop_sig_after_bounds, pop_sig_after, recursion, run, start, too_many_args, Outcome, State,
    Stop, START_HEIGHT,
};
use crate::signature::Signature;

verus! {

/// How many stated signatures have begun and not ended in the code from `i` up to `j`, less those
/// that ended without having begun.
pub open spec fn open_sigs(instrs: Seq<Instr>, i: int, j: int) -> int
    decreases j - i,
{
    if j <= i {
        0
    } else {
        open_sigs(instrs, i, j - 1) + match instrs[j - 1] {
            Instr::PushSig(_) => 1int,
            Instr::PopSig => -1int,
            _ => 0int,
        }
    }
}

/// Whether the [`Instr::PopSig`] at `j` is the one that ends the code from `i` on.
pub open spec fn ends_at(instrs: Seq<Instr>, i: int, j: int) -> bool {
    instrs[j] is PopSig && open_sigs(instrs, i, j) == 0
}

proof fn lemma_open_sigs_first(instrs: Seq<Instr>, i: int, j: int)
    requires
        i < j,
    ensures
        open_sigs(instrs, i, j) == open_sigs(instrs, i + 1, j) + match instrs[i] {
            Instr::PushSig(_) => 1int,
            Instr::PopSig => -1int,
            _ => 0int,
        },
    decreases j - i,
{
    if i + 1 < j {
        lemma_open_sigs_first(instrs, i, j - 1);
    } else {
        assert(open_sigs(instrs, i, i) == 0);
        assert(open_sigs(instrs, i + 1, j) == 0);
    }
}

proof fn lemma_matching(instrs: Seq<Instr>, i: int, depth: nat)
    requires
        0 <= i <= instrs.len(),
    ensures
        ({
            let end = pop_sig_after(instrs, i, depth);
            &&& i <= end <= instrs.len()
            &&& end < instrs.len() ==> instrs[end] is PopSig && open_sigs(instrs, i, end) == -depth
            &&& forall|j: int|
                i <= j < end && #[trigger] instrs[j] is PopSig ==> open_sigs(instrs, i, j) > -depth
        }),
    decreases instrs.len() - i,
{
    let end = pop_sig_after(instrs, i, depth);
    if i < instrs.len() {
        let next_depth: int = match instrs[i] {
            Instr::PushSig(_) => depth as int + 1,
            Instr::PopSig => depth - 1,
            _ => depth as int,
        };
        if next_depth >= 0 {
            lemma_matching(instrs, i + 1, next_depth as nat);
            if i < end {
                lemma_open_sigs_first(instrs, i, end);
            }
            assert forall|j: int|
                i <= j < end && #[trigger] instrs[j] is PopSig implies open_sigs(instrs, i, j)
                > -depth by {
                if i < j {
                    lemma_open_sigs_first(instrs, i, j);
                } else {
                    assert(open_sigs(instrs, i, i) == 0);
                }
            }
        } else {
            assert(open_sigs(instrs, i, i) == 0);
        }
    }
}

/// The code whose signature is stated ends at the first [`Instr::PopSig`] at which all signatures
/// that were stated inside it have ended. Where there is none, it ends with the code around it.
pub proof fn stated_code_ends_at_the_matching_pop(instrs: Seq<Instr>, i: int)
    requires
        0 <= i <= instrs.len(),
    ensures
        ({
            let end = pop_sig_after(instrs, i, 0);
            &&& i <= end <= instrs.len()
            &&& end < instrs.len() ==> ends_at(instrs, i, end)
            &&& forall|j: int| i <= j < end ==> !#[trigger] ends_at(instrs, i, j)
        }),
{
    lemma_matching(instrs, i, 0);
}

/// Whether every signature that is stated in the code from `i` on also ends there.
pub open spec fn closes_all(instrs: Seq<Instr>, i: int) -> bool
    decreases instrs.len() + 1 - i,
{
    if i >= instrs.len() {
        true
    } else if instrs[i] is PushSig {
        let end = pop_sig_after(instrs, i + 1, 0);
        proof {
            lemma_pop_sig_after_bounds(instrs, i + 1, 0);
        }
        end < instrs.len() && closes_all(instrs, end + 1)
    } else {
        closes_all(instrs, i + 1)
    }
}

proof fn lemma_pop_sig_in_first(first: Seq<Instr>, second: Seq<Instr>, i: int, depth: nat)
    requires
        0 <= i,
        pop_sig_after(first, i, depth) < first.len(),
    ensures
        pop_sig_after(first + second, i, depth) == pop_sig_after(first, i, depth),
    decreases first.len() - i,
{
    if i < first.len() {
        assert((first + second)[i] == first[i]);
        match first[i] {
            Instr::PushSig(_) => lemma_pop_sig_in_first(first, second, i + 1, depth + 1),
            Instr::PopSig => if depth > 0 {
                lemma_pop_sig_in_first(first, second, i + 1, (depth - 1) as nat);
            },
            _ => lemma_pop_sig_in_first(first, second, i + 1, depth),
        }
    }
}

proof fn lemma_pop_sig_in_second(first: Seq<Instr>, second: Seq<Instr>, i: int, depth: nat)
    requires
        0 <= i,
    ensures
        pop_sig_after(first + second, first.len() + i, depth) == first.len()
            + pop_sig_after(second, i, depth),
    decreases second.len() - i,
{
    if i < second.len() {
        assert((first + second)[first.len() + i] == second[i]);
        match second[i] {
            Instr::PushSig(_) => lemma_pop_sig_in_second(first, second, i + 1, depth + 1),
            Instr::PopSig => if depth > 0 {
                lemma_pop_sig_in_second(first, second, i + 1, (depth - 1) as nat);
            },
            _ => lemma_pop_sig_in_second(first, second, i + 1, depth),
        }
    }
}

proof fn lemma_run_in_second(state: State, first: Seq<Instr>, second: Seq<Instr>, i: int)
    requires
        0 <= i,
    ensures
        run(state, first + second, first.len() + i) == run(state, second, i),
    decreases second.len() + 1 - i,
{
    if i < second.len() {
        assert((first + second)[first.len() + i] == second[i]);
        lemma_pop_sig_after_bounds(second, i + 1, 0);
        match second[i] {
            Instr::PushSig(sig) => {
                lemma_pop_sig_in_second(first, second, i + 1, 0);
                if let Ok(next) = state.handle_sig(sig) {
                    lemma_run_in_second(next, first, second, pop_sig_after(second, i + 1, 0) + 1);
                }
            },
            Instr::PopSig => {},
            instr => {
                if let Ok(next) = state.step(instr) {
                    lemma_run_in_second(next, first, second, i + 1);
                }
            },
        }
    }
}

proof fn lemma_run_both(state: State, first: Seq<Instr>, second: Seq<Instr>, i: int)
    requires
        0 <= i <= first.len(),
        closes_all(first, i),
    ensures
        run(state, first + second, i) == run_then(run(state, first, i), second),
    decreases first.len() + 1 - i,
{
    if i < first.len() {
        assert((first + second)[i] == first[i]);
        lemma_pop_sig_after_bounds(first, i + 1, 0);
        match first[i] {
            Instr::PushSig(sig) => {
                lemma_pop_sig_in_first(first, second, i + 1, 0);
                if let Ok(next) = state.handle_sig(sig) {
                    lemma_run_both(next, first, second, pop_sig_after(first, i + 1, 0) + 1);
                }
            },
            Instr::PopSig => {},
            instr => {
                if let Ok(next) = state.step(instr) {
                    lemma_run_both(next, first, second, i + 1);
                }
            },
        }
    } else {
        lemma_run_in_second(state, first, second, 0);
    }
}

/// Run `instrs` on from `outcome`, unless that is a failure.
pub open spec fn run_then(outcome: Outcome, instrs: Seq<Instr>) -> Outcome {
    match outcome {
        Ok(state) => run(state, instrs, 0),
        Err(stop) => Err(stop),
    }
}

/// To run code that is put together of two parts is to run the first part, and to run the second
/// part from where that ended. The first part has to end the signatures that it states.
pub proof fn parts_run_one_after_the_other(state: State, first: Seq<Instr>, second: Seq<Instr>)
    requires
        closes_all(first, 0),
    ensures
        run(state, first + second, 0) == run_then(run(state, first, 0), second),
{
    lemma_run_both(state, first, second, 0);
}

/// To run no code at all changes nothing.
pub proof fn empty_code_does_nothing(state: State)
    ensures
        run(state, Seq::empty(), 0) == Ok::<State, Stop>(state),
{
}

/// Whether stated signatures begin and end in pairs in the code.
pub open spec fn well_nested(instrs: Seq<Instr>) -> bool {
    &&& forall|j: int| 0 <= j <= instrs.len() ==> #[trigger] open_sigs(instrs, 0, j) >= 0
    &&& open_sigs(instrs, 0, instrs.len() as int) == 0
}

/// The code `body`, with the signature `sig` stated for it.
pub open spec fn stated(sig: Signature, body: Seq<Instr>) -> Seq<Instr> {
    seq![Instr::PushSig(sig)] + body + seq![Instr::PopSig]
}

proof fn lemma_open_sigs_in_stated(sig: Signature, body: Seq<Instr>, j: int)
    requires
        0 <= j <= body.len(),
    ensures
        open_sigs(stated(sig, body), 1, j + 1) == open_sigs(body, 0, j),
    decreases j,
{
    if j > 0 {
        lemma_open_sigs_in_stated(sig, body, j - 1);
        assert(stated(sig, body)[j] == body[j - 1]);
    }
}

/// To run code whose signature is stated is to do what the stated signature says, from any state
/// and whatever the code holds.
pub proof fn stated_code_does_what_is_stated(state: State, sig: Signature, body: Seq<Instr>)
    requires
        well_nested(body),
    ensures
        run(state, stated(sig, body), 0) == state.handle_sig(sig),
{
    let code = stated(sig, body);
    let place: int = body.len() as int + 1;
    let end = pop_sig_after(code, 1, 0);
    stated_code_ends_at_the_matching_pop(code, 1);
    lemma_open_sigs_in_stated(sig, body, body.len() as int);
    assert(ends_at(code, 1, place));
    assert(end >= place) by {
        if end < place {
            lemma_open_sigs_in_stated(sig, body, end - 1);
            lemma_open_sigs_in_stated(sig, body, end);
            assert(code[end] == body[end - 1]);
            assert(open_sigs(body, 0, end) >= 0);
        }
    }
    assert(code[0] == Instr::PushSig(sig));
    if let Ok(next) = state.handle_sig(sig) {
        assert(run(next, code, end + 1) == Ok::<State, Stop>(next));
    }
}

/// Code whose signature is stated has the signature that is stated for it, whatever it holds. Only
/// a signature with more arguments than there are values at the start is refused.
pub proof fn stated_signature_is_taken(sig: Signature, body: Seq<Instr>)
    requires
        well_nested(body),
    ensures
        crate::model::signature(stated(sig, body)) == if sig.args <= START_HEIGHT {
            Ok::<Signature, Failure>(sig)
        } else {
            Err(too_many_args())
        },
{
    stated_code_does_what_is_stated(start(), sig, body);
}

/// Code that calls itself is ambiguous, if it comes that far, whatever follows.
pub proof fn recursion_is_ambiguous(
    state: State,
    before: Seq<Instr>,
    span: usize,
    after: Seq<Instr>,
)
    requires
        closes_all(before, 0),
    ensures
        run(state, before, 0) matches Ok(end) ==> run(
            state,
            before + (seq![Instr::Recur(span)] + after),
            0,
        ) == end.stops(recursion()),
{
    let rest = seq![Instr::Recur(span)] + after;
    parts_run_one_after_the_other(state, before, rest);
    assert(rest[0] == Instr::Recur(span));
}

/// To run one instruction that stands for itself is to do it once.
pub proof fn lone_instruction_is_done_once(state: State, instr: Instr)
    requires
        !(instr is PushSig),
        !(instr is PopSig),
    ensures
        run(state, seq![instr], 0) == state.step(instr),
{
    let code = seq![instr];
    if let Ok(next) = state.step(instr) {
        assert(run(next, code, 1) == Ok::<State, Stop>(next));
    }
}

/// Code that ends a stated signature where none has begun is refused there, whatever follows.
pub proof fn stray_ends_are_refused(state: State, after: Seq<Instr>)
    ensures
        stopped(
            state,
            run(state, seq![Instr::PopSig] + after, 0),
            "PopSig without PushSig. It is a bug in the interpreter for you to see this message."@,
            SigCheckErrorKind::Incorrect,
        ),
{
    assert((seq![Instr::PopSig] + after)[0] == Instr::PopSig);
}

proof fn lemma_open_sigs_after(instr: Instr, body: Seq<Instr>, j: int)
    requires
        0 <= j <= body.len(),
    ensures
        open_sigs(seq![instr] + body, 1, j + 1) == open_sigs(body, 0, j),
    decreases j,
{
    if j > 0 {
        lemma_open_sigs_after(instr, body, j - 1);
        assert((seq![instr] + body)[j] == body[j - 1]);
    }
}

/// A stated signature that does not end holds for all the rest of the code.
pub proof fn unended_statement_covers_the_rest(state: State, sig: Signature, rest: Seq<Instr>)
    requires
        forall|j: int| 0 <= j < rest.len() ==> !#[trigger] ends_at(rest, 0, j),
    ensures
        run(state, seq![Instr::PushSig(sig)] + rest, 0) == state.handle_sig(sig),
{
    let code = seq![Instr::PushSig(sig)] + rest;
    let end = pop_sig_after(code, 1, 0);
    stated_code_ends_at_the_matching_pop(code, 1);
    if end < code.len() {
        lemma_open_sigs_after(Instr::PushSig(sig), rest, end - 1);
        assert(code[end] == rest[end - 1]);
        assert(ends_at(rest, 0, end - 1));
    }
    assert(code[0] == Instr::PushSig(sig));
    if let Ok(next) = state.handle_sig(sig) {
        assert(run(next, code, end + 1) == Ok::<State, Stop>(next));
    }
}

} // verus!
