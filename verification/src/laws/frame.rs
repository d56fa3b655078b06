//! What lies deeper on the stack does not matter.

use vstd::prelude::*;

use crate::instr::{ImplPrimitive, Instr, PrimOp, Primitive, TempStack};
use crate::model::{
    condition_sig, functions_taken, joined, lemma_pop_sig_after_bounds, min, pop_sig_after,
    repeated_args, repeated_outputs, round_sig, run, run_all, start, too_many_args, Outcome, State,
    Stop,
};
use crate::number::{count_of, Count};
use crate::signature::{monus, Signature};
use crate::value::{known_of, others, Item};

verus! {

/// The heights, each greater by `by`.
pub open spec fn raised(heights: Seq<nat>, by: nat) -> Seq<nat> {
    Seq::new(heights.len(), |i: int| heights[i] + by)
}

impl State {
    /// The state with the values `below` put under the main stack. All heights grow by as much.
    pub open spec fn on_top_of(self, below: Seq<Item>) -> State {
        State {
            stack: below + self.stack,
            arrays: raised(self.arrays, below.len()),
            min_height: self.min_height + below.len(),
            ..self
        }
    }
}

/// Whether `deep` is what becomes of `outcome` with the values `below` under the main stack. Only
/// where `outcome` failed for want of values may `deep` be anything else.
pub open spec fn same_on_top_of(outcome: Outcome, deep: Outcome, below: Seq<Item>) -> bool {
    match outcome {
        Ok(state) => deep == Ok::<State, Stop>(state.on_top_of(below)),
        Err(stop) => stop.failure == too_many_args() || deep == stop.state.on_top_of(below).stops(
            stop.failure,
        ),
    }
}

proof fn lemma_drop_on_top_of(state: State, below: Seq<Item>, count: nat)
    requires
        count <= state.stack.len(),
    ensures
        state.on_top_of(below).drop_values(count) == state.drop_values(count).on_top_of(below),
        state.on_top_of(below).top_values(count) == state.top_values(count),
{
    assert(state.on_top_of(below).drop_values(count).stack =~= state.drop_values(count).on_top_of(
        below,
    ).stack);
    assert(state.on_top_of(below).top_values(count) =~= state.top_values(count));
}

proof fn lemma_note_on_top_of(state: State, below: Seq<Item>)
    ensures
        state.on_top_of(below).note_heights() == state.note_heights().on_top_of(below),
{
    assert(state.on_top_of(below).note_heights().arrays =~= state.note_heights().on_top_of(
        below,
    ).arrays);
    assert(state.on_top_of(below).note_heights().temp_min_heights
        =~= state.note_heights().on_top_of(below).temp_min_heights);
}

proof fn lemma_add_on_top_of(state: State, below: Seq<Item>, more: Seq<Item>)
    ensures
        state.on_top_of(below).with_stack(state.on_top_of(below).stack + more)
            == state.with_stack(state.stack + more).on_top_of(below),
{
    assert(below + state.stack + more =~= below + (state.stack + more));
}

proof fn lemma_push_on_top_of(state: State, below: Seq<Item>, item: Item)
    ensures
        state.on_top_of(below).push(item) == state.push(item).on_top_of(below),
{
    assert((below + state.stack).push(item) =~= below + state.stack.push(item));
}

proof fn lemma_handle_on_top_of(state: State, below: Seq<Item>, args: nat, outputs: nat)
    ensures
        same_on_top_of(
            state.handle(args, outputs),
            state.on_top_of(below).handle(args, outputs),
            below,
        ),
{
    if args <= state.stack.len() {
        lemma_drop_on_top_of(state, below, args);
        lemma_note_on_top_of(state.drop_values(args), below);
        lemma_add_on_top_of(state.drop_values(args).note_heights(), below, others(outputs));
    }
}

proof fn lemma_functions_on_top_of(
    state: State,
    below: Seq<Item>,
    count: nat,
    args: nat,
    outputs: nat,
)
    ensures
        state.on_top_of(below).drop_functions(count) == state.drop_functions(count).on_top_of(
            below,
        ),
        same_on_top_of(
            state.drop_functions(count).handle(args, outputs),
            state.on_top_of(below).drop_functions(count).handle(args, outputs),
            below,
        ),
{
    assert(state.on_top_of(below).drop_functions(count).arrays =~= state.drop_functions(
        count,
    ).on_top_of(below).arrays);
    lemma_handle_on_top_of(state.drop_functions(count), below, args, outputs);
}

proof fn lemma_end_array_on_top_of(state: State, below: Seq<Item>)
    ensures
        same_on_top_of(state.end_array(), state.on_top_of(below).end_array(), below),
{
    if state.arrays.len() > 0 {
        let ended = State { arrays: state.arrays.drop_last(), ..state };
        let deep = State {
            arrays: state.on_top_of(below).arrays.drop_last(),
            ..state.on_top_of(below)
        };
        assert(deep.arrays =~= ended.on_top_of(below).arrays);
        let collected = (state.stack.len() - min(state.arrays.last(), state.stack.len())) as nat;
        lemma_drop_on_top_of(state, below, collected);
        lemma_drop_on_top_of(ended, below, collected);
        lemma_note_on_top_of(ended.drop_values(collected), below);
        lemma_push_on_top_of(
            ended.drop_values(collected).note_heights(),
            below,
            Item::Arr(state.top_values(collected)),
        );
    }
}

proof fn lemma_temp_on_top_of(state: State, below: Seq<Item>, stack: TempStack, values: Seq<Item>)
    ensures
        state.on_top_of(below).with_temp(stack, values) == state.with_temp(stack, values).on_top_of(
            below,
        ),
{
    assert(state.on_top_of(below).with_temp(stack, values).arrays =~= state.with_temp(
        stack,
        values,
    ).on_top_of(below).arrays);
}

proof fn lemma_temps_on_top_of(state: State, below: Seq<Item>, stack: TempStack, count: nat)
    ensures
        same_on_top_of(
            state.push_temp(stack, count),
            state.on_top_of(below).push_temp(stack, count),
            below,
        ),
        same_on_top_of(
            state.copy_to_temp(stack, count),
            state.on_top_of(below).copy_to_temp(stack, count),
            below,
        ),
        same_on_top_of(
            state.pop_temp(stack, count),
            state.on_top_of(below).pop_temp(stack, count),
            below,
        ),
{
    let place = stack.position();
    if count <= state.stack.len() {
        let values = state.top_values(count);
        let taken = state.drop_values(count);
        lemma_drop_on_top_of(state, below, count);
        lemma_temp_on_top_of(taken, below, stack, state.temps[place] + values);
        lemma_note_on_top_of(taken.with_temp(stack, state.temps[place] + values), below);
        let noted = taken.note_heights();
        lemma_note_on_top_of(taken, below);
        lemma_add_on_top_of(noted, below, values);
        lemma_temp_on_top_of(
            noted.with_stack(noted.stack + values),
            below,
            stack,
            noted.temps[place] + values,
        );
    }
    let temp = state.temps[place];
    if count <= temp.len() {
        let values = temp.skip(temp.len() - count).reverse();
        let back = state.with_stack(state.stack + values);
        lemma_add_on_top_of(state, below, values);
        lemma_temp_on_top_of(back, below, stack, temp.take(temp.len() - count));
        lemma_note_on_top_of(back.with_temp(stack, temp.take(temp.len() - count)), below);
    }
}

proof fn lemma_switch_on_top_of(
    state: State,
    below: Seq<Item>,
    count: nat,
    sig: Signature,
    under_cond: bool,
)
    ensures
        same_on_top_of(
            state.switch(count, sig, under_cond),
            state.on_top_of(below).switch(count, sig, under_cond),
            below,
        ),
{
    if state.functions.len() >= count && state.stack.len() > 0 {
        lemma_functions_on_top_of(state, below, count, 0, 0);
        let dropped = state.drop_functions(count);
        lemma_drop_on_top_of(dropped, below, 1);
        let taken = dropped.drop_values(1);
        let under = taken.temps[TempStack::Under.position()].push(state.stack.last());
        lemma_temp_on_top_of(taken, below, TempStack::Under, under);
        lemma_handle_on_top_of(taken, below, sig.args as nat, sig.outputs as nat);
        lemma_handle_on_top_of(
            taken.with_temp(TempStack::Under, under),
            below,
            sig.args as nat,
            sig.outputs as nat,
        );
    }
}

proof fn lemma_repeat_on_top_of(state: State, below: Seq<Item>)
    ensures
        same_on_top_of(state.repeat(), state.on_top_of(below).repeat(), below),
{
    if state.functions.len() > 0 && state.stack.len() > 0 {
        let sig = state.functions.last();
        lemma_functions_on_top_of(state, below, 1, 0, 0);
        lemma_drop_on_top_of(state.drop_functions(1), below, 1);
        let taken = state.drop_functions(1).drop_values(1);
        lemma_handle_on_top_of(taken, below, sig.args as nat, sig.outputs as nat);
        if let Item::Num(bits) = state.stack.last() {
            if let Count::Natural(n) = count_of(bits) {
                lemma_handle_on_top_of(
                    taken,
                    below,
                    repeated_args(sig, n as nat),
                    repeated_outputs(sig, n as nat),
                );
            }
        }
    }
}

proof fn lemma_fill_on_top_of(state: State, below: Seq<Item>)
    ensures
        same_on_top_of(state.fill(), state.on_top_of(below).fill(), below),
{
    if state.functions.len() > 0 {
        let fill = state.functions.last();
        lemma_functions_on_top_of(state, below, 1, fill.args as nat, fill.outputs as nat);
        let taken = state.drop_functions(1);
        let made = if fill.outputs > 0 {
            taken.handle_sig(fill)
        } else {
            Ok(taken)
        };
        if let Ok(next) = made {
            lemma_handle_on_top_of(next, below, fill.outputs as nat, 0);
            if let Ok(ready) = next.handle(fill.outputs as nat, 0) {
                let sig = ready.functions.last();
                lemma_functions_on_top_of(ready, below, 1, sig.args as nat, sig.outputs as nat);
            }
        }
    }
}

proof fn lemma_shuffle_on_top_of(state: State, below: Seq<Item>)
    ensures
        same_on_top_of(state.dup(), state.on_top_of(below).dup(), below),
        same_on_top_of(state.flip(), state.on_top_of(below).flip(), below),
        same_on_top_of(state.pop(), state.on_top_of(below).pop(), below),
        same_on_top_of(state.over(), state.on_top_of(below).over(), below),
        same_on_top_of(state.join(), state.on_top_of(below).join(), below),
{
    if state.stack.len() >= 1 {
        let a = state.stack.last();
        let one = state.drop_values(1).note_heights();
        lemma_drop_on_top_of(state, below, 1);
        lemma_note_on_top_of(state.drop_values(1), below);
        lemma_push_on_top_of(one, below, a);
        lemma_push_on_top_of(one.push(a), below, a);
        let popped = match a {
            Item::Unknown(depth) => state.popped.push(depth),
            _ => state.popped,
        };
        let noted = State { popped, ..state };
        assert(State { popped, ..state.on_top_of(below) }.arrays =~= noted.on_top_of(below).arrays);
        lemma_drop_on_top_of(noted, below, 1);
        lemma_note_on_top_of(noted.drop_values(1), below);
    }
    if state.stack.len() >= 2 {
        let a = state.stack.last();
        let b = state.stack[state.stack.len() - 2];
        let two = state.drop_values(2).note_heights();
        lemma_drop_on_top_of(state, below, 2);
        lemma_note_on_top_of(state.drop_values(2), below);
        lemma_push_on_top_of(two, below, a);
        lemma_push_on_top_of(two.push(a), below, b);
        lemma_push_on_top_of(two, below, b);
        lemma_push_on_top_of(two.push(b), below, a);
        lemma_push_on_top_of(two.push(b).push(a), below, b);
        lemma_push_on_top_of(two, below, joined(a, b));
    }
}

proof fn lemma_prim_on_top_of(state: State, below: Seq<Item>, prim: Primitive)
    ensures
        same_on_top_of(state.prim(prim), state.on_top_of(below).prim(prim), below),
{
    let functions = state.functions;
    if functions.len() > 0 {
        let sig = functions.last();
        let args = sig.args as nat;
        let outputs = sig.outputs as nat;
        lemma_functions_on_top_of(
            state,
            below,
            1,
            monus(sig.args as int, sig.outputs as int),
            outputs,
        );
        lemma_functions_on_top_of(state, below, 1, 1, 1);
        lemma_functions_on_top_of(state, below, 1, args, outputs);
        lemma_functions_on_top_of(state, below, 2, args, outputs);
        lemma_functions_on_top_of(state, below, 3, args, outputs);
        lemma_functions_on_top_of(state, below, 1, 2, outputs);
        lemma_functions_on_top_of(state, below, 1, args, 1);
        lemma_functions_on_top_of(state, below, 1, outputs, args);
    }
    match prim.op {
        PrimOp::Repeat => lemma_repeat_on_top_of(state, below),
        PrimOp::Do => if functions.len() >= 2 {
            let cond = functions[functions.len() - 2];
            let round = round_sig(functions.last(), cond);
            lemma_functions_on_top_of(
                state,
                below,
                2,
                round.args as nat,
                round.outputs as nat + monus(condition_sig(cond).outputs as int, cond.args as int),
            );
        },
        PrimOp::Fill => lemma_fill_on_top_of(state, below),
        PrimOp::Dup | PrimOp::Flip | PrimOp::Pop | PrimOp::Over | PrimOp::Join => {
            lemma_shuffle_on_top_of(state, below);
        },
        PrimOp::Other => if prim.args is Some && prim.outputs is Some {
            lemma_functions_on_top_of(
                state,
                below,
                functions_taken(prim.modifier_args),
                prim.args->0 as nat,
                prim.outputs->0 as nat,
            );
        },
        _ => {},
    }
}

proof fn lemma_impl_prim_on_top_of(state: State, below: Seq<Item>, prim: ImplPrimitive)
    ensures
        same_on_top_of(state.impl_prim(prim), state.on_top_of(below).impl_prim(prim), below),
{
    if state.functions.len() > 0 {
        let sig = state.functions.last();
        lemma_functions_on_top_of(
            state,
            below,
            1,
            monus(sig.args as int, sig.outputs as int),
            sig.outputs as nat,
        );
    }
    lemma_functions_on_top_of(
        state,
        below,
        functions_taken(prim.modifier_args),
        prim.args as nat,
        prim.outputs as nat,
    );
}

/// An instruction does the same whatever lies below the values that it works on.
pub proof fn step_ignores_what_lies_below(state: State, below: Seq<Item>, instr: Instr)
    ensures
        same_on_top_of(state.step(instr), state.on_top_of(below).step(instr), below),
{
    match instr {
        Instr::Push(value) => {
            lemma_push_on_top_of(state, below, known_of(value));
        },
        Instr::CallGlobal { .. } => lemma_handle_on_top_of(state, below, 0, 1),
        Instr::BindGlobal { .. } => lemma_handle_on_top_of(state, below, 1, 0),
        Instr::BeginArray => {
            let begun = State { arrays: state.arrays.push(state.stack.len()), ..state };
            let deep = state.on_top_of(below);
            assert(deep.arrays.push(deep.stack.len()) =~= begun.on_top_of(below).arrays);
        },
        Instr::EndArray { .. } => lemma_end_array_on_top_of(state, below),
        Instr::Call(_) | Instr::CallRecursive(_) => if state.functions.len() > 0 {
            let sig = state.functions.last();
            lemma_functions_on_top_of(state, below, 1, sig.args as nat, sig.outputs as nat);
        },
        Instr::PushFunc(function) => {
            let pushed = State { functions: state.functions.push(function.sig), ..state };
            assert(state.on_top_of(below).arrays =~= pushed.on_top_of(below).arrays);
        },
        Instr::PushTemp { stack, count, .. } => {
            lemma_temps_on_top_of(state, below, stack, count as nat);
        },
        Instr::CopyToTemp { stack, count, .. } => {
            lemma_temps_on_top_of(state, below, stack, count as nat);
        },
        Instr::PopTemp { stack, count, .. } => {
            lemma_temps_on_top_of(state, below, stack, count as nat);
        },
        Instr::Label { .. } => lemma_handle_on_top_of(state, below, 1, 1),
        Instr::Switch { count, sig, under_cond, .. } => {
            lemma_switch_on_top_of(state, below, count as nat, sig, under_cond);
        },
        Instr::Format { parts, .. } => {
            lemma_handle_on_top_of(state, below, monus(parts@.len() as int, 1), 1);
        },
        Instr::MatchFormatPattern { parts, .. } => {
            lemma_handle_on_top_of(state, below, 1, monus(parts@.len() as int, 1));
        },
        Instr::StackSwizzle(swizzle, _) => {
            let sig = swizzle.signature;
            lemma_handle_on_top_of(state, below, sig.args as nat, sig.outputs as nat);
        },
        Instr::Dynamic(function) => {
            let sig = function.signature;
            lemma_handle_on_top_of(state, below, sig.args as nat, sig.outputs as nat);
        },
        Instr::Unpack { count, .. } => lemma_handle_on_top_of(state, below, 1, count as nat),
        Instr::TouchStack { count, .. } => {
            lemma_handle_on_top_of(state, below, count as nat, count as nat);
        },
        Instr::Prim(prim, _) => lemma_prim_on_top_of(state, below, prim),
        Instr::ImplPrim(prim, _) => lemma_impl_prim_on_top_of(state, below, prim),
        _ => {},
    }
}

proof fn lemma_run_on_top_of(state: State, below: Seq<Item>, instrs: Seq<Instr>, i: int)
    ensures
        same_on_top_of(run(state, instrs, i), run(state.on_top_of(below), instrs, i), below),
    decreases instrs.len() + 1 - i,
{
    if i < instrs.len() {
        lemma_pop_sig_after_bounds(instrs, i + 1, 0);
        match instrs[i] {
            Instr::PushSig(sig) => {
                lemma_handle_on_top_of(state, below, sig.args as nat, sig.outputs as nat);
                if let Ok(next) = state.handle_sig(sig) {
                    lemma_run_on_top_of(next, below, instrs, pop_sig_after(instrs, i + 1, 0) + 1);
                }
            },
            Instr::PopSig => {},
            instr => {
                step_ignores_what_lies_below(state, below, instr);
                if let Ok(next) = state.step(instr) {
                    lemma_run_on_top_of(next, below, instrs, i + 1);
                }
            },
        }
    }
}

/// Code does the same whatever lies below the values that it works on. So its signature does not
/// depend on the height at which the stack starts, as long as that is high enough: with more
/// values at the start, the code reaches as far down and ends as far up.
pub proof fn code_ignores_what_lies_below(instrs: Seq<Instr>, below: Seq<Item>)
    ensures
        same_on_top_of(run_all(instrs), run(start().on_top_of(below), instrs, 0), below),
{
    lemma_run_on_top_of(start(), below, instrs, 0);
}

} // verus!
