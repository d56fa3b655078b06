//! What every instruction keeps.

use vstd::prelude::*;

use crate::instr::{ImplPrimitive, Instr, PrimOp, Primitive, TempStack};
use crate::model::{
    condition_sig, functions_taken, is_loop, lemma_pop_sig_after_bounds, loops_nowhere,
    pop_sig_after, round_sig, run, run_all, run_fits, runnable, start, State, START_HEIGHT,
};
use crate::signature::{monus, Signature};

verus! {

impl State {
    /// Whether the main stack is at least as high as its lowest height, and what lies below the
    /// lowest height is still what lay there at the start.
    pub open spec fn untouched(self) -> bool {
        &&& self.min_height <= self.stack.len()
        &&& self.min_height <= START_HEIGHT
        &&& forall|i: int|
            0 <= i < self.min_height ==> #[trigger] self.stack[i] == start().stack[i]
    }

    /// What a step keeps, whatever it does.
    #[verifier::opaque]
    pub open spec fn keeps(self, next: State) -> bool {
        &&& next.min_height <= self.min_height
        &&& self.temps_sound() ==> next.temps_sound()
        &&& self.untouched() ==> next.untouched()
    }
}

proof fn lemma_handle_keeps(state: State, args: nat, outputs: nat)
    ensures
        state.handle(args, outputs) matches Ok(next) ==> state.keeps(next),
{
    reveal(State::keeps);
}

proof fn lemma_functions_keep(state: State, count: nat, args: nat, outputs: nat)
    ensures
        state.keeps(state.drop_functions(count)),
        state.drop_functions(count).handle(args, outputs) matches Ok(next) ==> state.keeps(next),
{
    reveal(State::keeps);
}

proof fn lemma_end_array_keeps(state: State)
    ensures
        state.end_array() matches Ok(next) ==> state.keeps(next),
{
    reveal(State::keeps);
}

proof fn lemma_temp_keeps(state: State, stack: TempStack, count: nat)
    ensures
        state.push_temp(stack, count) matches Ok(next) ==> state.keeps(next),
        state.copy_to_temp(stack, count) matches Ok(next) ==> state.keeps(next),
        state.pop_temp(stack, count) matches Ok(next) ==> state.keeps(next),
{
    reveal(State::keeps);
}

proof fn lemma_switch_keeps(state: State, count: nat, sig: Signature, under_cond: bool)
    ensures
        state.switch(count, sig, under_cond) matches Ok(next) ==> state.keeps(next),
{
    reveal(State::keeps);
}

proof fn lemma_repeat_keeps(state: State)
    ensures
        state.repeat() matches Ok(next) ==> state.keeps(next),
{
    reveal(State::keeps);
}

proof fn lemma_fill_keeps(state: State)
    ensures
        state.fill() matches Ok(next) ==> state.keeps(next),
{
    reveal(State::keeps);
}

proof fn lemma_shuffle_keeps(state: State)
    ensures
        state.dup() matches Ok(next) ==> state.keeps(next),
        state.flip() matches Ok(next) ==> state.keeps(next),
        state.pop() matches Ok(next) ==> state.keeps(next),
        state.over() matches Ok(next) ==> state.keeps(next),
        state.join() matches Ok(next) ==> state.keeps(next),
{
    reveal(State::keeps);
}

proof fn lemma_prim_keeps(state: State, prim: Primitive)
    ensures
        state.prim(prim) matches Ok(next) ==> state.keeps(next),
{
    let functions = state.functions;
    if functions.len() > 0 {
        let sig = functions.last();
        lemma_functions_keep(
            state,
            1,
            monus(sig.args as int, sig.outputs as int),
            sig.outputs as nat,
        );
        lemma_functions_keep(state, 1, 1, 1);
        lemma_functions_keep(state, 1, sig.args as nat, sig.outputs as nat);
        lemma_functions_keep(state, 2, sig.args as nat, sig.outputs as nat);
        lemma_functions_keep(state, 3, sig.args as nat, sig.outputs as nat);
        lemma_functions_keep(state, 1, 2, sig.outputs as nat);
        lemma_functions_keep(state, 1, sig.args as nat, 1);
        lemma_functions_keep(state, 1, sig.outputs as nat, sig.args as nat);
    }
    match prim.op {
        PrimOp::Repeat => lemma_repeat_keeps(state),
        PrimOp::Do => if functions.len() >= 2 {
            let cond = functions[functions.len() - 2];
            let round = round_sig(functions.last(), cond);
            lemma_functions_keep(
                state,
                2,
                round.args as nat,
                round.outputs as nat + monus(condition_sig(cond).outputs as int, cond.args as int),
            );
        },
        PrimOp::Fill => lemma_fill_keeps(state),
        PrimOp::Dup | PrimOp::Flip | PrimOp::Pop | PrimOp::Over | PrimOp::Join => {
            lemma_shuffle_keeps(state);
        },
        PrimOp::Other => if prim.args is Some && prim.outputs is Some {
            lemma_functions_keep(
                state,
                functions_taken(prim.modifier_args),
                prim.args->0 as nat,
                prim.outputs->0 as nat,
            );
        },
        _ => {},
    }
}

proof fn lemma_impl_prim_keeps(state: State, prim: ImplPrimitive)
    ensures
        state.impl_prim(prim) matches Ok(next) ==> state.keeps(next),
{
    if state.functions.len() > 0 {
        let sig = state.functions.last();
        lemma_functions_keep(
            state,
            1,
            monus(sig.args as int, sig.outputs as int),
            sig.outputs as nat,
        );
    }
    lemma_functions_keep(
        state,
        functions_taken(prim.modifier_args),
        prim.args as nat,
        prim.outputs as nat,
    );
}

/// An instruction never raises the lowest height, and leaves no stack below its lowest height. It
/// does not touch what lies below the lowest height of the main stack.
pub proof fn step_keeps(state: State, instr: Instr)
    ensures
        state.step(instr) matches Ok(next) ==> {
            &&& next.min_height <= state.min_height
            &&& state.temps_sound() ==> next.temps_sound()
            &&& state.untouched() ==> next.untouched()
        },
{
    reveal(State::keeps);
    match instr {
        Instr::CallGlobal { .. } => lemma_handle_keeps(state, 0, 1),
        Instr::BindGlobal { .. } => lemma_handle_keeps(state, 1, 0),
        Instr::EndArray { .. } => lemma_end_array_keeps(state),
        Instr::Call(_) | Instr::CallRecursive(_) => if state.functions.len() > 0 {
            let sig = state.functions.last();
            lemma_functions_keep(state, 1, sig.args as nat, sig.outputs as nat);
        },
        Instr::PushTemp { stack, count, .. } => lemma_temp_keeps(state, stack, count as nat),
        Instr::CopyToTemp { stack, count, .. } => lemma_temp_keeps(state, stack, count as nat),
        Instr::PopTemp { stack, count, .. } => lemma_temp_keeps(state, stack, count as nat),
        Instr::Label { .. } => lemma_handle_keeps(state, 1, 1),
        Instr::Switch { count, sig, under_cond, .. } => {
            lemma_switch_keeps(state, count as nat, sig, under_cond);
        },
        Instr::Format { parts, .. } => {
            lemma_handle_keeps(state, monus(parts@.len() as int, 1), 1);
        },
        Instr::MatchFormatPattern { parts, .. } => {
            lemma_handle_keeps(state, 1, monus(parts@.len() as int, 1));
        },
        Instr::StackSwizzle(swizzle, _) => {
            lemma_handle_keeps(
                state,
                swizzle.signature.args as nat,
                swizzle.signature.outputs as nat,
            );
        },
        Instr::Dynamic(function) => {
            lemma_handle_keeps(
                state,
                function.signature.args as nat,
                function.signature.outputs as nat,
            );
        },
        Instr::Unpack { count, .. } => lemma_handle_keeps(state, 1, count as nat),
        Instr::TouchStack { count, .. } => lemma_handle_keeps(state, count as nat, count as nat),
        Instr::Prim(prim, _) => lemma_prim_keeps(state, prim),
        Instr::ImplPrim(prim, _) => lemma_impl_prim_keeps(state, prim),
        _ => {},
    }
}

/// The same of a run.
proof fn lemma_run_keeps(state: State, instrs: Seq<Instr>, i: int)
    requires
        0 <= i,
    ensures
        run(state, instrs, i) matches Ok(end) ==> {
            &&& end.min_height <= state.min_height
            &&& state.temps_sound() ==> end.temps_sound()
            &&& state.untouched() ==> end.untouched()
        },
    decreases instrs.len() + 1 - i,
{
    if i < instrs.len() {
        lemma_pop_sig_after_bounds(instrs, i + 1, 0);
        match instrs[i] {
            Instr::PushSig(sig) => {
                lemma_handle_keeps(state, sig.args as nat, sig.outputs as nat);
                reveal(State::keeps);
                if let Ok(next) = state.handle_sig(sig) {
                    lemma_run_keeps(next, instrs, pop_sig_after(instrs, i + 1, 0) + 1);
                }
            },
            Instr::PopSig => {},
            instr => {
                step_keeps(state, instr);
                if let Ok(next) = state.step(instr) {
                    lemma_run_keeps(next, instrs, i + 1);
                }
            },
        }
    }
}

/// Code never leaves a temporary stack below its lowest height, and that is never above the height
/// at the start. So its signatures as regards the temporary stacks are defined.
pub proof fn temporary_stacks_stay_sound(instrs: Seq<Instr>)
    ensures
        run_all(instrs) matches Ok(end) ==> end.temps_sound(),
{
    lemma_run_keeps(start(), instrs, 0);
}

/// Code ends with the main stack no lower than its lowest height, which is never above the height
/// at the start, so that its signature is defined. It does not touch what lies below that.
pub proof fn main_stack_stays_sound(instrs: Seq<Instr>)
    ensures
        run_all(instrs) matches Ok(end) ==> {
            &&& end.min_height <= end.stack.len()
            &&& end.min_height <= START_HEIGHT
            &&& end.untouched()
        },
{
    lemma_run_keeps(start(), instrs, 0);
}

proof fn lemma_loop_free_fits(state: State, instrs: Seq<Instr>, i: int)
    requires
        0 <= i,
        loops_nowhere(instrs),
    ensures
        run_fits(state, instrs, i),
    decreases instrs.len() + 1 - i,
{
    if i < instrs.len() {
        lemma_pop_sig_after_bounds(instrs, i + 1, 0);
        match instrs[i] {
            Instr::PushSig(sig) => {
                if let Ok(next) = state.handle_sig(sig) {
                    lemma_loop_free_fits(next, instrs, pop_sig_after(instrs, i + 1, 0) + 1);
                }
            },
            Instr::PopSig => {},
            instr => {
                assert(!is_loop(instrs[i]));
                if let Ok(next) = state.step(instr) {
                    lemma_loop_free_fits(next, instrs, i + 1);
                }
            },
        }
    }
}

/// Only loops can count further than a machine integer goes.
pub proof fn runnable_code_fits(instrs: Seq<Instr>)
    requires
        runnable(instrs),
    ensures
        run_fits(start(), instrs, 0),
{
    if loops_nowhere(instrs) {
        lemma_loop_free_fits(start(), instrs, 0);
    }
}

/// To note the heights twice is to note them once.
pub proof fn noting_twice_is_noting_once(state: State)
    ensures
        state.note_heights().note_heights() == state.note_heights(),
{
    assert(state.note_heights().note_heights() =~= state.note_heights());
}

} // verus!
