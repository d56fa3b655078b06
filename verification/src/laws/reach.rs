//! How low the stack has been before does not matter.

use vstd::prelude::*;

use crate::instr::{ImplPrimitive, Instr, PrimOp, Primitive, TempStack};
use crate::laws::instructions::lower;
use crate::model::{
    condition_sig, functions_taken, lemma_pop_sig_after_bounds, min, pop_sig_after, repeated_args,
    repeated_outputs, round_sig, run, Outcome, State, Stop,
};
use crate::number::{count_of, Count};
use crate::signature::{monus, Signature};
use crate::value::Item;

verus! {

impl State {
    /// The state of a run that has also been as low as `height` before.
    pub open spec fn having_reached(self, height: nat) -> State {
        State { min_height: lower(self.min_height, height), ..self }
    }
}

/// The outcome of a run that had also been as low as `height` before.
pub open spec fn after_reaching(outcome: Outcome, height: nat) -> Outcome {
    match outcome {
        Ok(state) => Ok(state.having_reached(height)),
        Err(stop) => Err(
            Stop { failure: stop.failure, state: stop.state.having_reached(height) },
        ),
    }
}

proof fn lemma_note_reached(state: State, height: nat)
    ensures
        state.having_reached(height).note_heights() == state.note_heights().having_reached(height),
{
    assert(state.having_reached(height).note_heights().temp_min_heights
        =~= state.note_heights().having_reached(height).temp_min_heights);
}

proof fn lemma_handle_reached(state: State, height: nat, args: nat, outputs: nat)
    ensures
        state.having_reached(height).handle(args, outputs) == after_reaching(
            state.handle(args, outputs),
            height,
        ),
{
    if args <= state.stack.len() {
        lemma_note_reached(state.drop_values(args), height);
    }
}

proof fn lemma_functions_reached(state: State, height: nat, count: nat, args: nat, outputs: nat)
    ensures
        state.having_reached(height).drop_functions(count).handle(args, outputs) == after_reaching(
            state.drop_functions(count).handle(args, outputs),
            height,
        ),
{
    lemma_handle_reached(state.drop_functions(count), height, args, outputs);
}

proof fn lemma_end_array_reached(state: State, height: nat)
    ensures
        state.having_reached(height).end_array() == after_reaching(state.end_array(), height),
{
    if state.arrays.len() > 0 {
        let bottom = min(state.arrays.last(), state.stack.len());
        let collected = (state.stack.len() - bottom) as nat;
        lemma_note_reached(
            State { arrays: state.arrays.drop_last(), ..state }.drop_values(collected),
            height,
        );
    }
}

proof fn lemma_temps_reached(state: State, height: nat, stack: TempStack, count: nat)
    ensures
        state.having_reached(height).push_temp(stack, count) == after_reaching(
            state.push_temp(stack, count),
            height,
        ),
        state.having_reached(height).copy_to_temp(stack, count) == after_reaching(
            state.copy_to_temp(stack, count),
            height,
        ),
        state.having_reached(height).pop_temp(stack, count) == after_reaching(
            state.pop_temp(stack, count),
            height,
        ),
{
    let place = stack.position();
    let temp = state.temps[place];
    let taken = state.drop_values(count);
    lemma_note_reached(taken.with_temp(stack, temp + state.top_values(count)), height);
    lemma_note_reached(taken, height);
    lemma_note_reached(
        state.with_stack(state.stack + temp.skip(temp.len() - count).reverse()).with_temp(
            stack,
            temp.take(temp.len() - count),
        ),
        height,
    );
}

proof fn lemma_switch_reached(
    state: State,
    height: nat,
    count: nat,
    sig: Signature,
    under_cond: bool,
)
    ensures
        state.having_reached(height).switch(count, sig, under_cond) == after_reaching(
            state.switch(count, sig, under_cond),
            height,
        ),
{
    let taken = state.drop_functions(count).drop_values(1);
    lemma_handle_reached(taken, height, sig.args as nat, sig.outputs as nat);
    lemma_handle_reached(
        taken.with_temp(
            TempStack::Under,
            taken.temps[TempStack::Under.position()].push(state.stack.last()),
        ),
        height,
        sig.args as nat,
        sig.outputs as nat,
    );
}

proof fn lemma_repeat_reached(state: State, height: nat)
    ensures
        state.having_reached(height).repeat() == after_reaching(state.repeat(), height),
{
    let sig = state.functions.last();
    let taken = state.drop_functions(1).drop_values(1);
    lemma_handle_reached(taken, height, sig.args as nat, sig.outputs as nat);
    if let Item::Num(bits) = state.stack.last() {
        if let Count::Natural(n) = count_of(bits) {
            lemma_handle_reached(
                taken,
                height,
                repeated_args(sig, n as nat),
                repeated_outputs(sig, n as nat),
            );
        }
    }
}

proof fn lemma_fill_reached(state: State, height: nat)
    ensures
        state.having_reached(height).fill() == after_reaching(state.fill(), height),
{
    if state.functions.len() > 0 {
        let fill = state.functions.last();
        let taken = state.drop_functions(1);
        lemma_handle_reached(taken, height, fill.args as nat, fill.outputs as nat);
        let made = if fill.outputs > 0 {
            taken.handle_sig(fill)
        } else {
            Ok(taken)
        };
        if let Ok(next) = made {
            lemma_handle_reached(next, height, fill.outputs as nat, 0);
            if let Ok(ready) = next.handle(fill.outputs as nat, 0) {
                let sig = ready.functions.last();
                lemma_functions_reached(ready, height, 1, sig.args as nat, sig.outputs as nat);
            }
        }
    }
}

proof fn lemma_shuffle_reached(state: State, height: nat)
    ensures
        state.having_reached(height).dup() == after_reaching(state.dup(), height),
        state.having_reached(height).flip() == after_reaching(state.flip(), height),
        state.having_reached(height).pop() == after_reaching(state.pop(), height),
        state.having_reached(height).over() == after_reaching(state.over(), height),
        state.having_reached(height).join() == after_reaching(state.join(), height),
{
    lemma_note_reached(state.drop_values(1), height);
    lemma_note_reached(state.drop_values(2), height);
    let popped = match state.stack.last() {
        Item::Unknown(depth) => state.popped.push(depth),
        _ => state.popped,
    };
    lemma_note_reached(State { popped, ..state }.drop_values(1), height);
}

proof fn lemma_prim_reached(state: State, height: nat, prim: Primitive)
    ensures
        state.having_reached(height).prim(prim) == after_reaching(state.prim(prim), height),
{
    let functions = state.functions;
    if functions.len() > 0 {
        let sig = functions.last();
        let args = sig.args as nat;
        let outputs = sig.outputs as nat;
        lemma_functions_reached(
            state,
            height,
            1,
            monus(sig.args as int, sig.outputs as int),
            outputs,
        );
        lemma_functions_reached(state, height, 1, 1, 1);
        lemma_functions_reached(state, height, 1, args, outputs);
        lemma_functions_reached(state, height, 2, args, outputs);
        lemma_functions_reached(state, height, 3, args, outputs);
        lemma_functions_reached(state, height, 1, 2, outputs);
        lemma_functions_reached(state, height, 1, args, 1);
        lemma_functions_reached(state, height, 1, outputs, args);
    }
    match prim.op {
        PrimOp::Repeat => lemma_repeat_reached(state, height),
        PrimOp::Do => if functions.len() >= 2 {
            let cond = functions[functions.len() - 2];
            let round = round_sig(functions.last(), cond);
            lemma_functions_reached(
                state,
                height,
                2,
                round.args as nat,
                round.outputs as nat + monus(condition_sig(cond).outputs as int, cond.args as int),
            );
        },
        PrimOp::Fill => lemma_fill_reached(state, height),
        PrimOp::Dup | PrimOp::Flip | PrimOp::Pop | PrimOp::Over | PrimOp::Join => {
            lemma_shuffle_reached(state, height);
        },
        PrimOp::Other => if prim.args is Some && prim.outputs is Some {
            lemma_functions_reached(
                state,
                height,
                functions_taken(prim.modifier_args),
                prim.args->0 as nat,
                prim.outputs->0 as nat,
            );
        },
        _ => {},
    }
}

proof fn lemma_impl_prim_reached(state: State, height: nat, prim: ImplPrimitive)
    ensures
        state.having_reached(height).impl_prim(prim) == after_reaching(
            state.impl_prim(prim),
            height,
        ),
{
    if state.functions.len() > 0 {
        let sig = state.functions.last();
        lemma_functions_reached(
            state,
            height,
            1,
            monus(sig.args as int, sig.outputs as int),
            sig.outputs as nat,
        );
    }
    lemma_functions_reached(
        state,
        height,
        functions_taken(prim.modifier_args),
        prim.args as nat,
        prim.outputs as nat,
    );
}

/// How low the stack has been before does not matter to an instruction: all that comes of it is
/// that the stack has been that low. So what an array collects depends on what was reached since it
/// began, and not on what was reached before.
pub proof fn step_ignores_earlier_reach(state: State, height: nat, instr: Instr)
    ensures
        state.having_reached(height).step(instr) == after_reaching(state.step(instr), height),
{
    match instr {
        Instr::CallGlobal { .. } => lemma_handle_reached(state, height, 0, 1),
        Instr::BindGlobal { .. } => lemma_handle_reached(state, height, 1, 0),
        Instr::EndArray { .. } => lemma_end_array_reached(state, height),
        Instr::Call(_) | Instr::CallRecursive(_) => if state.functions.len() > 0 {
            let sig = state.functions.last();
            lemma_functions_reached(state, height, 1, sig.args as nat, sig.outputs as nat);
        },
        Instr::PushTemp { stack, count, .. } => {
            lemma_temps_reached(state, height, stack, count as nat);
        },
        Instr::CopyToTemp { stack, count, .. } => {
            lemma_temps_reached(state, height, stack, count as nat);
        },
        Instr::PopTemp { stack, count, .. } => {
            lemma_temps_reached(state, height, stack, count as nat);
        },
        Instr::Label { .. } => lemma_handle_reached(state, height, 1, 1),
        Instr::Switch { count, sig, under_cond, .. } => {
            lemma_switch_reached(state, height, count as nat, sig, under_cond);
        },
        Instr::Format { parts, .. } => {
            lemma_handle_reached(state, height, monus(parts@.len() as int, 1), 1);
        },
        Instr::MatchFormatPattern { parts, .. } => {
            lemma_handle_reached(state, height, 1, monus(parts@.len() as int, 1));
        },
        Instr::StackSwizzle(swizzle, _) => {
            let sig = swizzle.signature;
            lemma_handle_reached(state, height, sig.args as nat, sig.outputs as nat);
        },
        Instr::Dynamic(function) => {
            let sig = function.signature;
            lemma_handle_reached(state, height, sig.args as nat, sig.outputs as nat);
        },
        Instr::Unpack { count, .. } => lemma_handle_reached(state, height, 1, count as nat),
        Instr::TouchStack { count, .. } => {
            lemma_handle_reached(state, height, count as nat, count as nat);
        },
        Instr::Prim(prim, _) => lemma_prim_reached(state, height, prim),
        Instr::ImplPrim(prim, _) => lemma_impl_prim_reached(state, height, prim),
        _ => {},
    }
}

proof fn lemma_run_reached(state: State, height: nat, instrs: Seq<Instr>, i: int)
    ensures
        run(state.having_reached(height), instrs, i) == after_reaching(
            run(state, instrs, i),
            height,
        ),
    decreases instrs.len() + 1 - i,
{
    if i < instrs.len() {
        lemma_pop_sig_after_bounds(instrs, i + 1, 0);
        match instrs[i] {
            Instr::PushSig(sig) => {
                lemma_handle_reached(state, height, sig.args as nat, sig.outputs as nat);
                if let Ok(next) = state.handle_sig(sig) {
                    lemma_run_reached(next, height, instrs, pop_sig_after(instrs, i + 1, 0) + 1);
                }
            },
            Instr::PopSig => {},
            instr => {
                step_ignores_earlier_reach(state, height, instr);
                if let Ok(next) = state.step(instr) {
                    lemma_run_reached(next, height, instrs, i + 1);
                }
            },
        }
    }
}

/// The same of a run: how low the stack has been before the code does not matter to the code.
pub proof fn code_ignores_earlier_reach(state: State, height: nat, instrs: Seq<Instr>)
    ensures
        run(state.having_reached(height), instrs, 0) == after_reaching(
            run(state, instrs, 0),
            height,
        ),
{
    lemma_run_reached(state, height, instrs, 0);
}

} // verus!
