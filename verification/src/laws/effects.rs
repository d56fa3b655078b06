//! How the effects of instructions add up.

use vstd::prelude::*;

use crate::instr::{Primitive, TempStack};
use crate::model::{min, repeated_args, repeated_outputs, Outcome, State, Stop};
use crate::number::{count_of, Count};
use crate::signature::{composed_args, composed_outputs, monus, Signature};
use crate::value::Item;

verus! {

impl State {
    /// Do something with the signature `first`, and then something with the signature `second`.
    pub open spec fn handle_both(self, first: Signature, second: Signature) -> Outcome {
        match self.handle_sig(first) {
            Ok(between) => between.handle_sig(second),
            Err(stop) => Err(stop),
        }
    }
}

/// Whether two outcomes are the same state, or failures for the same reason.
pub open spec fn same_result(a: Outcome, b: Outcome) -> bool {
    match (a, b) {
        (Ok(x), Ok(y)) => x == y,
        (Err(x), Err(y)) => x.failure == y.failure,
        _ => false,
    }
}

/// To take and leave values twice is to do it once, with what the second time takes of what the
/// first time left not counted.
pub proof fn lemma_two_effects(
    state: State,
    args: nat,
    outputs: nat,
    next_args: nat,
    next_outputs: nat,
)
    ensures
        same_result(
            match state.handle(args, outputs) {
                Ok(between) => between.handle(next_args, next_outputs),
                Err(stop) => Err(stop),
            },
            state.handle(
                args + monus(next_args as int, outputs as int),
                next_outputs + monus(outputs as int, next_args as int),
            ),
        ),
{
    let all_args = args + monus(next_args as int, outputs as int);
    let all_outputs = next_outputs + monus(outputs as int, next_args as int);
    if state.stack.len() >= all_args {
        let between = state.handle(args, outputs)->Ok_0;
        let both = between.handle(next_args, next_outputs)->Ok_0;
        let once = state.handle(all_args, all_outputs)->Ok_0;
        assert(both.stack =~= once.stack);
        assert(both.arrays =~= once.arrays);
        assert(both.temp_min_heights =~= once.temp_min_heights);
    }
}

/// To do one thing and then another is to do something whose signature is composed of theirs: the
/// stacks end up the same, and it fails for the same reason.
pub proof fn composition_is_sequence(state: State, first: Signature, second: Signature)
    ensures
        same_result(
            state.handle_both(first, second),
            state.handle(composed_args(second, first), composed_outputs(second, first)),
        ),
{
    lemma_two_effects(
        state,
        first.args as nat,
        first.outputs as nat,
        second.args as nat,
        second.outputs as nat,
    );
}

impl State {
    /// Do something with the signature `sig`, `n` times.
    pub open spec fn handle_times(self, sig: Signature, n: nat) -> Outcome
        decreases n,
    {
        if n == 0 {
            Ok(self)
        } else {
            match self.handle_times(sig, (n - 1) as nat) {
                Ok(state) => state.handle_sig(sig),
                Err(stop) => Err(stop),
            }
        }
    }
}

proof fn lemma_one_more_time(sig: Signature, n: nat)
    requires
        n > 0,
    ensures
        repeated_args(sig, n + 1) == repeated_args(sig, n)
            + monus(sig.args as int, repeated_outputs(sig, n) as int),
        repeated_outputs(sig, n + 1) == sig.outputs + monus(
            repeated_outputs(sig, n) as int,
            sig.args as int,
        ),
{
    let gain = sig.outputs - sig.args;
    assert((n + 1) * gain == n * gain + gain) by (nonlinear_arith);
    assert(n * -gain == (n - 1) * -gain - gain) by (nonlinear_arith);
    if gain >= 0 {
        assert(n * gain >= 0) by (nonlinear_arith)
            requires
                gain >= 0,
        ;
    } else {
        assert((n - 1) * -gain >= 0) by (nonlinear_arith)
            requires
                n > 0,
                gain < 0,
        ;
    }
}

proof fn lemma_repeated(state: State, sig: Signature, n: nat)
    requires
        n > 0,
    ensures
        same_result(
            state.handle_times(sig, n),
            state.handle(repeated_args(sig, n), repeated_outputs(sig, n)),
        ),
    decreases n,
{
    if n == 1 {
        assert(state.handle_times(sig, 0) == Ok::<State, Stop>(state));
    } else {
        let before = (n - 1) as nat;
        lemma_repeated(state, sig, before);
        lemma_one_more_time(sig, before);
        lemma_two_effects(
            state,
            repeated_args(sig, before),
            repeated_outputs(sig, before),
            sig.args as nat,
            sig.outputs as nat,
        );
    }
}

/// With a known natural number, repeating a function is the same as doing it that many times one
/// after the other, whatever its signature.
pub proof fn known_repetition_is_iteration(state: State, sig: Signature, bits: u64, n: usize)
    requires
        count_of(bits) == Count::Natural(n),
    ensures
        same_result(state.repeat_times(sig, Item::Num(bits)), state.handle_times(sig, n as nat)),
{
    if n > 0 {
        lemma_repeated(state, sig, n as nat);
    }
}

impl State {
    /// Whether all stacks are as high as those of `other`, and have been as low.
    pub open spec fn same_heights(self, other: State) -> bool {
        &&& self.stack.len() == other.stack.len()
        &&& self.min_height == other.min_height
        &&& self.temps == other.temps
        &&& self.temp_min_heights == other.temp_min_heights
        &&& self.functions == other.functions
        &&& self.arrays == other.arrays
    }
}

/// Whether two outcomes are the same as regards the heights of the stacks: the same failure, or
/// equally high stacks.
pub open spec fn same_outcome_heights(a: Outcome, b: Outcome) -> bool {
    match (a, b) {
        (Ok(x), Ok(y)) => x.same_heights(y),
        (Err(x), Err(y)) => x == y,
        _ => false,
    }
}

/// The primitives that only rearrange the stack have fixed signatures: as regards the heights,
/// they do what something with that signature does.
pub proof fn shuffles_have_signatures(state: State)
    ensures
        same_outcome_heights(state.dup(), state.handle(1, 2)),
        same_outcome_heights(state.flip(), state.handle(2, 2)),
        same_outcome_heights(state.pop(), state.handle(1, 0)),
        same_outcome_heights(state.over(), state.handle(2, 3)),
        same_outcome_heights(state.join(), state.handle(2, 1)),
{
}

/// Values that are moved to a temporary stack and back end up where they were, on both stacks. All
/// that is left of it is that the main stack was lower by as much.
pub proof fn moving_there_and_back_restores(state: State, stack: TempStack, count: nat)
    requires
        state.temps.len() == TempStack::CARDINALITY,
        state.temp_min_heights.len() == TempStack::CARDINALITY,
        count <= state.stack.len(),
    ensures
        ({
            &&& state.push_temp(stack, count) matches Ok(there)
            &&& there.pop_temp(stack, count) matches Ok(back)
            &&& back == state.drop_values(count).note_heights().with_stack(state.stack)
            &&& back.min_height == min(state.min_height, (state.stack.len() - count) as nat)
        }),
{
    let there = state.push_temp(stack, count)->Ok_0;
    let back = there.pop_temp(stack, count)->Ok_0;
    let temp = state.temps[stack.position()];
    let moved = there.temps[stack.position()];
    let low = state.drop_values(count).note_heights().with_stack(state.stack);
    assert(moved.skip(moved.len() - count) =~= state.top_values(count));
    assert(moved.take(moved.len() - count) =~= temp);
    assert(back.stack =~= low.stack);
    assert(back.temps =~= low.temps);
    assert(back.arrays =~= low.arrays);
    assert(back.temp_min_heights =~= low.temp_min_heights);
}

/// To fill takes two functions. The values that the first makes are used up: what is left to do is
/// to take the arguments of the first, if it makes any values, and then to do the second.
pub proof fn fill_values_are_used_up(state: State)
    requires
        state.functions.len() >= 2,
    ensures
        ({
            let fill = state.functions.last();
            let filled = state.functions[state.functions.len() - 2];
            let taken = state.drop_functions(2);
            let args = if fill.outputs > 0 {
                fill.args as nat
            } else {
                0
            };
            same_result(
                state.fill(),
                match taken.handle(args, 0) {
                    Ok(ready) => ready.handle_sig(filled),
                    Err(stop) => Err(stop),
                },
            )
        }),
{
    let fill = state.functions.last();
    let one = state.drop_functions(1);
    let two = state.drop_functions(2);
    assert(one.drop_functions(1) =~= two);
    if fill.outputs > 0 {
        lemma_two_effects(one, fill.args as nat, fill.outputs as nat, fill.outputs as nat, 0);
    }
    let args = if fill.outputs > 0 {
        fill.args as nat
    } else {
        0
    };
    if args <= state.stack.len() {
        let ready = one.handle(args, 0)->Ok_0;
        assert(ready.drop_functions(1) =~= two.handle(args, 0)->Ok_0);
    }
}

/// To invert a function takes back what the function did to the height of the stack.
pub proof fn inversion_restores_the_height(state: State, un: Primitive)
    requires
        un.op is Un,
        state.functions.len() > 0,
        state.functions.last().args <= state.stack.len(),
    ensures
        ({
            &&& state.handle_sig(state.functions.last()) matches Ok(done)
            &&& done.prim(un) matches Ok(undone)
            &&& undone.stack.len() == state.stack.len()
            &&& undone.min_height == done.min_height
        }),
{
}

} // verus!
