//! Code with small numbers in it can always be run with machine integers.

use vstd::prelude::*;

use crate::instr::{ImplPrimitive, Instr, PrimOp, Primitive, TempStack};
use crate::model::{
    condition_sig, functions_taken, lemma_pop_sig_after_bounds, pop_sig_after, round_sig, run_fits,
    runnable, start, State,
};
use crate::number::{count_of, Count};
use crate::signature::{monus, Signature};
use crate::value::{known_of, Item};

verus! {

/// Whether neither number of the signature is above `bound`.
pub open spec fn small_sig(sig: Signature, bound: nat) -> bool {
    sig.args <= bound && sig.outputs <= bound
}

/// Whether the value does not ask for more than `times` repetitions.
pub open spec fn small_item(item: Item, times: nat) -> bool {
    item matches Item::Num(bits) ==> (count_of(bits) matches Count::Natural(n) ==> n
        <= times)
}

/// Whether none of the values asks for more than `times` repetitions.
pub open spec fn small_items(items: Seq<Item>, times: nat) -> bool {
    forall|i: int| 0 <= i < items.len() ==> small_item(#[trigger] items[i], times)
}

/// Whether the instruction pushes no function with a number above `bound` in its signature, and no
/// number that asks for more than `times` repetitions.
pub open spec fn small_instr(instr: Instr, bound: nat, times: nat) -> bool {
    match instr {
        Instr::Push(value) => small_item(known_of(value), times),
        Instr::PushFunc(function) => small_sig(function.sig, bound),
        _ => true,
    }
}

impl State {
    /// Whether no function has a number above `bound` in its signature, and no value asks for more
    /// than `times` repetitions.
    #[verifier::opaque]
    pub open spec fn small(self, bound: nat, times: nat) -> bool {
        &&& forall|i: int|
            0 <= i < self.functions.len() ==> small_sig(#[trigger] self.functions[i], bound)
        &&& small_items(self.stack, times)
        &&& self.temps.len() == TempStack::CARDINALITY
        &&& forall|i: int|
            0 <= i < self.temps.len() ==> small_items(#[trigger] self.temps[i], times)
    }
}

proof fn lemma_handle_small(state: State, args: nat, outputs: nat, bound: nat, times: nat)
    requires
        state.small(bound, times),
    ensures
        state.handle(args, outputs) matches Ok(next) ==> next.small(bound, times),
{
    reveal(State::small);
}

proof fn lemma_functions_small(
    state: State,
    count: nat,
    args: nat,
    outputs: nat,
    bound: nat,
    times: nat,
)
    requires
        state.small(bound, times),
        count <= state.functions.len(),
    ensures
        state.drop_functions(count).small(bound, times),
        state.drop_functions(count).handle(args, outputs) matches Ok(next) ==> next.small(
            bound,
            times,
        ),
{
    reveal(State::small);
}

proof fn lemma_end_array_small(state: State, bound: nat, times: nat)
    requires
        state.small(bound, times),
    ensures
        state.end_array() matches Ok(next) ==> next.small(bound, times),
{
    reveal(State::small);
}

proof fn lemma_temp_small(state: State, stack: TempStack, count: nat, bound: nat, times: nat)
    requires
        state.small(bound, times),
    ensures
        state.push_temp(stack, count) matches Ok(next) ==> next.small(bound, times),
        state.copy_to_temp(stack, count) matches Ok(next) ==> next.small(bound, times),
        state.pop_temp(stack, count) matches Ok(next) ==> next.small(bound, times),
{
    reveal(State::small);
    assert(small_items(state.temps[stack.position()], times));
}

proof fn lemma_switch_small(
    state: State,
    count: nat,
    sig: Signature,
    under_cond: bool,
    bound: nat,
    times: nat,
)
    requires
        state.small(bound, times),
    ensures
        state.switch(count, sig, under_cond) matches Ok(next) ==> next.small(bound, times),
{
    reveal(State::small);
    assert(small_items(state.temps[TempStack::Under.position()], times));
}

proof fn lemma_repeat_small(state: State, bound: nat, times: nat)
    requires
        state.small(bound, times),
        times * bound + bound <= usize::MAX,
    ensures
        state.repeat_fits(),
        state.repeat() matches Ok(next) ==> next.small(bound, times),
{
    reveal(State::small);
    if state.functions.len() > 0 && state.stack.len() > 0 {
        let sig = state.functions.last();
        assert(small_sig(sig, bound));
        assert(small_item(state.stack.last(), times));
        if let Item::Num(bits) = state.stack.last() {
            if let Count::Natural(n) = count_of(bits) {
                if n > 0 {
                    let more = sig.outputs - sig.args;
                    if more >= 0 {
                        assert(n * more <= times * bound) by (nonlinear_arith)
                            requires
                                0 <= n <= times,
                                0 <= more <= bound,
                        ;
                    } else {
                        assert((n - 1) * -more <= times * bound) by (nonlinear_arith)
                            requires
                                0 < n <= times,
                                0 <= -more <= bound,
                        ;
                    }
                }
            }
        }
    }
}

proof fn lemma_do_loop_small(state: State, bound: nat, times: nat)
    requires
        state.small(bound, times),
        5 * bound <= usize::MAX,
    ensures
        state.do_loop_fits(),
        state.do_loop() matches Ok(next) ==> next.small(bound, times),
{
    if state.functions.len() >= 2 {
        let body = state.functions.last();
        let cond = state.functions[state.functions.len() - 2];
        assert(small_sig(body, bound) && small_sig(cond, bound)) by {
            reveal(State::small);
        }
        let round = round_sig(body, cond);
        lemma_functions_small(
            state,
            2,
            round.args as nat,
            round.outputs as nat + monus(condition_sig(cond).outputs as int, cond.args as int),
            bound,
            times,
        );
    }
}

proof fn lemma_fill_small(state: State, bound: nat, times: nat)
    requires
        state.small(bound, times),
    ensures
        state.fill() matches Ok(next) ==> next.small(bound, times),
{
    if state.functions.len() > 0 {
        let fill = state.functions.last();
        lemma_functions_small(state, 1, fill.args as nat, fill.outputs as nat, bound, times);
        let taken = state.drop_functions(1);
        let made = if fill.outputs > 0 {
            taken.handle_sig(fill)
        } else {
            Ok(taken)
        };
        if let Ok(next) = made {
            lemma_handle_small(next, fill.outputs as nat, 0, bound, times);
            if let Ok(ready) = next.handle(fill.outputs as nat, 0) {
                if ready.functions.len() > 0 {
                    let sig = ready.functions.last();
                    lemma_functions_small(
                        ready,
                        1,
                        sig.args as nat,
                        sig.outputs as nat,
                        bound,
                        times,
                    );
                }
            }
        }
    }
}

proof fn lemma_shuffle_small(state: State, bound: nat, times: nat)
    requires
        state.small(bound, times),
    ensures
        state.dup() matches Ok(next) ==> next.small(bound, times),
        state.flip() matches Ok(next) ==> next.small(bound, times),
        state.pop() matches Ok(next) ==> next.small(bound, times),
        state.over() matches Ok(next) ==> next.small(bound, times),
        state.join() matches Ok(next) ==> next.small(bound, times),
{
    reveal(State::small);
    if state.stack.len() >= 1 {
        assert(small_item(state.stack.last(), times));
    }
    if state.stack.len() >= 2 {
        assert(small_item(state.stack[state.stack.len() - 2], times));
    }
}

proof fn lemma_prim_small(state: State, prim: Primitive, bound: nat, times: nat)
    requires
        state.small(bound, times),
        times * bound + bound <= usize::MAX,
        5 * bound <= usize::MAX,
    ensures
        state.prim(prim) matches Ok(next) ==> next.small(bound, times),
{
    let functions = state.functions;
    if functions.len() > 0 {
        let sig = functions.last();
        let args = sig.args as nat;
        let outputs = sig.outputs as nat;
        lemma_functions_small(
            state,
            1,
            monus(sig.args as int, sig.outputs as int),
            outputs,
            bound,
            times,
        );
        lemma_functions_small(state, 1, 1, 1, bound, times);
        lemma_functions_small(state, 1, args, outputs, bound, times);
        if functions.len() >= 2 {
            lemma_functions_small(state, 2, args, outputs, bound, times);
        }
        if functions.len() >= 3 {
            lemma_functions_small(state, 3, args, outputs, bound, times);
        }
        lemma_functions_small(state, 1, 2, outputs, bound, times);
        lemma_functions_small(state, 1, args, 1, bound, times);
        lemma_functions_small(state, 1, outputs, args, bound, times);
    }
    match prim.op {
        PrimOp::Repeat => lemma_repeat_small(state, bound, times),
        PrimOp::Do => lemma_do_loop_small(state, bound, times),
        PrimOp::Fill => lemma_fill_small(state, bound, times),
        PrimOp::Dup | PrimOp::Flip | PrimOp::Pop | PrimOp::Over | PrimOp::Join => {
            lemma_shuffle_small(state, bound, times);
        },
        PrimOp::Other => {
            let taken = functions_taken(prim.modifier_args);
            if prim.args is Some && prim.outputs is Some && taken <= functions.len() {
                lemma_functions_small(
                    state,
                    taken,
                    prim.args->0 as nat,
                    prim.outputs->0 as nat,
                    bound,
                    times,
                );
            }
        },
        _ => {},
    }
}

proof fn lemma_impl_prim_small(state: State, prim: ImplPrimitive, bound: nat, times: nat)
    requires
        state.small(bound, times),
    ensures
        state.impl_prim(prim) matches Ok(next) ==> next.small(bound, times),
{
    if state.functions.len() > 0 {
        let sig = state.functions.last();
        lemma_functions_small(
            state,
            1,
            monus(sig.args as int, sig.outputs as int),
            sig.outputs as nat,
            bound,
            times,
        );
    }
    let taken = functions_taken(prim.modifier_args);
    if taken <= state.functions.len() {
        lemma_functions_small(state, taken, prim.args as nat, prim.outputs as nat, bound, times);
    }
}

proof fn lemma_step_small(state: State, instr: Instr, bound: nat, times: nat)
    requires
        state.small(bound, times),
        small_instr(instr, bound, times),
        times * bound + bound <= usize::MAX,
        5 * bound <= usize::MAX,
    ensures
        state.step_fits(instr),
        state.step(instr) matches Ok(next) ==> next.small(bound, times),
{
    match instr {
        Instr::Push(_) | Instr::BeginArray | Instr::PushFunc(_) => {
            reveal(State::small);
        },
        Instr::BindGlobal { .. } => lemma_handle_small(state, 1, 0, bound, times),
        Instr::CallGlobal { .. } => lemma_handle_small(state, 0, 1, bound, times),
        Instr::EndArray { .. } => lemma_end_array_small(state, bound, times),
        Instr::Call(_) | Instr::CallRecursive(_) => if state.functions.len() > 0 {
            let sig = state.functions.last();
            lemma_functions_small(state, 1, sig.args as nat, sig.outputs as nat, bound, times);
        },
        Instr::PushTemp { stack, count, .. } => {
            lemma_temp_small(state, stack, count as nat, bound, times);
        },
        Instr::CopyToTemp { stack, count, .. } => {
            lemma_temp_small(state, stack, count as nat, bound, times);
        },
        Instr::PopTemp { stack, count, .. } => {
            lemma_temp_small(state, stack, count as nat, bound, times);
        },
        Instr::Label { .. } => lemma_handle_small(state, 1, 1, bound, times),
        Instr::Switch { count, sig, under_cond, .. } => {
            lemma_switch_small(state, count as nat, sig, under_cond, bound, times);
        },
        Instr::Format { parts, .. } => {
            lemma_handle_small(state, monus(parts@.len() as int, 1), 1, bound, times);
        },
        Instr::MatchFormatPattern { parts, .. } => {
            lemma_handle_small(state, 1, monus(parts@.len() as int, 1), bound, times);
        },
        Instr::StackSwizzle(swizzle, _) => {
            let sig = swizzle.signature;
            lemma_handle_small(state, sig.args as nat, sig.outputs as nat, bound, times);
        },
        Instr::Dynamic(function) => {
            let sig = function.signature;
            lemma_handle_small(state, sig.args as nat, sig.outputs as nat, bound, times);
        },
        Instr::Unpack { count, .. } => lemma_handle_small(state, 1, count as nat, bound, times),
        Instr::TouchStack { count, .. } => {
            lemma_handle_small(state, count as nat, count as nat, bound, times);
        },
        Instr::Prim(prim, _) => {
            lemma_repeat_small(state, bound, times);
            lemma_do_loop_small(state, bound, times);
            lemma_prim_small(state, prim, bound, times);
        },
        Instr::ImplPrim(prim, _) => lemma_impl_prim_small(state, prim, bound, times),
        _ => {},
    }
}

proof fn lemma_run_small(state: State, instrs: Seq<Instr>, i: int, bound: nat, times: nat)
    requires
        0 <= i,
        state.small(bound, times),
        forall|j: int| 0 <= j < instrs.len() ==> small_instr(#[trigger] instrs[j], bound, times),
        times * bound + bound <= usize::MAX,
        5 * bound <= usize::MAX,
    ensures
        run_fits(state, instrs, i),
    decreases instrs.len() + 1 - i,
{
    if i < instrs.len() {
        lemma_pop_sig_after_bounds(instrs, i + 1, 0);
        assert(small_instr(instrs[i], bound, times));
        match instrs[i] {
            Instr::PushSig(sig) => {
                lemma_handle_small(state, sig.args as nat, sig.outputs as nat, bound, times);
                if let Ok(next) = state.handle_sig(sig) {
                    lemma_run_small(
                        next,
                        instrs,
                        pop_sig_after(instrs, i + 1, 0) + 1,
                        bound,
                        times,
                    );
                }
            },
            Instr::PopSig => {},
            instr => {
                lemma_step_small(state, instr, bound, times);
                if let Ok(next) = state.step(instr) {
                    lemma_run_small(next, instrs, i + 1, bound, times);
                }
            },
        }
    }
}

/// Code in which the functions have signatures with no number above `bound`, and no number asks for
/// more than `times` repetitions, can be run with machine integers, if `times` rounds of such a
/// function, and one more, do not count beyond them.
pub proof fn small_code_is_runnable(instrs: Seq<Instr>, bound: nat, times: nat)
    requires
        forall|i: int| 0 <= i < instrs.len() ==> small_instr(#[trigger] instrs[i], bound, times),
        times * bound + bound <= usize::MAX,
        5 * bound <= usize::MAX,
    ensures
        runnable(instrs),
{
    reveal(State::small);
    lemma_run_small(start(), instrs, 0, bound, times);
}

} // verus!
