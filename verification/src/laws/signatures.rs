//! What the inferred signatures say of the code.

use vstd::prelude::*;

use crate::error::Failure;
use crate::instr::{Instr, Primitive, TempStack};
use crate::laws::frame::code_ignores_what_lies_below;
use crate::laws::instructions::{excess, number_or_none};
use crate::laws::invariants::{main_stack_stays_sound, temporary_stacks_stay_sound};
use crate::model::{
    all_balanced, functions_taken, is_lone_primitive, run, run_all, signature_no_temp, start,
    temp_signatures, State, Stop, START_HEIGHT,
};
use crate::signature::Signature;
use crate::value::Item;

verus! {

/// The signature of code has as many arguments as the code reached down, which is never more than
/// there were values at the start. Its outputs less its arguments are what the code added to the
/// height of the stack.
pub proof fn signature_is_reach_and_gain(instrs: Seq<Instr>, end: State)
    requires
        run_all(instrs) == Ok::<State, Stop>(end),
        end.stack.len() <= usize::MAX,
    ensures
        end.sig().args == START_HEIGHT - end.min_height,
        end.sig().args <= START_HEIGHT,
        end.sig().outputs - end.sig().args == end.stack.len() - START_HEIGHT,
{
    main_stack_stays_sound(instrs);
}

/// The same of a temporary stack: the arguments are how far down the code reached there, and the
/// outputs less the arguments are what it added to the height.
pub proof fn temp_signature_is_reach_and_gain(instrs: Seq<Instr>, end: State, i: int)
    requires
        run_all(instrs) == Ok::<State, Stop>(end),
        0 <= i < TempStack::CARDINALITY,
        end.temps[i].len() <= usize::MAX,
    ensures
        end.temp_sigs()[i].args == START_HEIGHT - end.temp_min_heights[i],
        end.temp_sigs()[i].args <= START_HEIGHT,
        end.temp_sigs()[i].outputs - end.temp_sigs()[i].args == end.temps[i].len() - START_HEIGHT,
{
    temporary_stacks_stay_sound(instrs);
    assert(end.temp_min_heights[i] <= end.temps[i].len());
}

/// To run code is to do what its signature says, on top of whatever else is on the stack: the
/// stack ends up as high, and the code has reached as far down.
pub proof fn code_does_what_its_signature_says(instrs: Seq<Instr>, end: State, below: Seq<Item>)
    requires
        run_all(instrs) == Ok::<State, Stop>(end),
        end.stack.len() <= usize::MAX,
    ensures
        ({
            let deep = start().on_top_of(below);
            &&& run(deep, instrs, 0) matches Ok(done)
            &&& deep.handle_sig(end.sig()) matches Ok(called)
            &&& done.stack.len() == called.stack.len()
            &&& done.min_height == called.min_height
        }),
{
    signature_is_reach_and_gain(instrs, end);
    code_ignores_what_lies_below(instrs, below);
}

/// A lone primitive that takes no functions, and whose effect follows from its numbers of arguments
/// and outputs, has the signature that it would have if it were run.
pub proof fn lone_primitive_has_the_signature_of_its_run(prim: Primitive, span: usize)
    requires
        prim.op is Other,
        prim.args is Some,
        prim.outputs is Some,
        prim.args->0 <= START_HEIGHT,
        functions_taken(prim.modifier_args) == 0,
    ensures
        ({
            let code = seq![Instr::Prim(prim, span)];
            &&& run_all(code) matches Ok(end)
            &&& crate::model::signature(code) == Ok::<Signature, Failure>(end.sig())
        }),
{
    let code = seq![Instr::Prim(prim, span)];
    let state = start();
    assert(state.functions.take(0) =~= state.functions);
    let next = state.step(code[0])->Ok_0;
    assert(run(next, code, 1) == Ok::<State, Stop>(next));
}

/// Code has a signature exactly where it has signatures as regards the temporary stacks. If these
/// leave as much as they take, its signature is also the one that disregards the temporary stacks;
/// else there is none of that kind. Only a lone primitive is not run for its signature.
pub proof fn signatures_agree(instrs: Seq<Instr>)
    requires
        !is_lone_primitive(instrs),
    ensures
        crate::model::signature(instrs) is Ok <==> temp_signatures(instrs) is Ok,
        signature_no_temp(instrs) == match (
            crate::model::signature(instrs),
            temp_signatures(instrs),
        ) {
            (Ok(sig), Ok(temps)) => if all_balanced(temps) {
                Some(sig)
            } else {
                None
            },
            _ => None,
        },
{
}

/// A run starts with every stack at the same height and nothing else. The values on the main stack
/// are told apart by how far below the top they stand.
pub proof fn runs_start_level()
    ensures
        start().stack.len() == START_HEIGHT,
        forall|i: int|
            0 <= i < START_HEIGHT ==> #[trigger] start().stack[i] == Item::Unknown(
                (START_HEIGHT - 1 - i) as nat,
            ),
        start().min_height == START_HEIGHT,
        start().temps.len() == TempStack::CARDINALITY,
        start().temp_min_heights.len() == TempStack::CARDINALITY,
        forall|i: int|
            0 <= i < TempStack::CARDINALITY ==> (#[trigger] start().temps[i]).len() == START_HEIGHT,
        forall|i: int, j: int|
            0 <= i < TempStack::CARDINALITY && 0 <= j < START_HEIGHT
                ==> #[trigger] start().temps[i][j] is Other,
        forall|i: int|
            0 <= i < TempStack::CARDINALITY ==> #[trigger] start().temp_min_heights[i]
                == START_HEIGHT,
        start().functions.len() == 0,
        start().arrays.len() == 0,
        start().popped.len() == 0,
{
}

/// The signature at any state is read off the heights: the arguments are how far the lowest height
/// is below the height at the start, and the outputs how far the present height is above the
/// lowest.
pub proof fn signatures_are_read_off_the_heights(state: State)
    requires
        state.min_height <= state.stack.len() <= usize::MAX,
        state.temps_sound(),
        forall|i: int|
            0 <= i < TempStack::CARDINALITY ==> (#[trigger] state.temps[i]).len() <= usize::MAX,
    ensures
        state.sig().args == excess(START_HEIGHT as int, state.min_height as int),
        state.sig().outputs == state.stack.len() - state.min_height,
        state.temp_sigs().len() == TempStack::CARDINALITY,
        forall|i: int|
            0 <= i < TempStack::CARDINALITY ==> {
                &&& (#[trigger] state.temp_sigs()[i]).args == excess(
                    START_HEIGHT as int,
                    state.temp_min_heights[i] as int,
                )
                &&& state.temp_sigs()[i].outputs == state.temps[i].len() - state.temp_min_heights[i]
            },
{
    assert forall|i: int| 0 <= i < TempStack::CARDINALITY implies {
        &&& (#[trigger] state.temp_sigs()[i]).args == excess(
            START_HEIGHT as int,
            state.temp_min_heights[i] as int,
        )
        &&& state.temp_sigs()[i].outputs == state.temps[i].len() - state.temp_min_heights[i]
    } by {
        assert(state.temps[i].len() <= usize::MAX);
        assert(state.temp_min_heights[i] <= state.temps[i].len());
    }
}

/// Code that is a primitive and nothing else, whose numbers of arguments and outputs are fixed, has
/// these, with the functions that it takes counted among its arguments.
pub proof fn lone_primitive_has_its_fixed_signature(prim: Primitive, span: usize)
    requires
        prim.args is Some,
        prim.outputs is Some,
        prim.args->0 + number_or_none(prim.modifier_args) <= usize::MAX,
    ensures
        ({
            &&& crate::model::signature(seq![Instr::Prim(prim, span)]) matches Ok(sig)
            &&& sig.args == prim.args->0 + number_or_none(prim.modifier_args)
            &&& sig.outputs == prim.outputs->0
        }),
{
}

/// All other code is run for its signature. It has one exactly if the run comes to its end, with as
/// many arguments as the run reached down and as many outputs as it then left above that. If the
/// run stops, there is no signature for the reason for which it stopped.
pub proof fn signature_is_read_off_the_run(instrs: Seq<Instr>)
    requires
        instrs.len() == 1 && instrs[0] is Prim ==> instrs[0]->Prim_0.args is None
            || instrs[0]->Prim_0.outputs is None,
        run_all(instrs) matches Ok(end) ==> end.stack.len() <= usize::MAX,
    ensures
        match run_all(instrs) {
            Ok(end) => {
                &&& crate::model::signature(instrs) matches Ok(sig)
                &&& sig.args == START_HEIGHT - end.min_height
                &&& sig.outputs == end.stack.len() - end.min_height
            },
            Err(stop) => {
                &&& crate::model::signature(instrs) matches Err(failure)
                &&& failure.message == stop.failure.message
                &&& failure.kind == stop.failure.kind
            },
        },
{
    main_stack_stays_sound(instrs);
}

/// The signatures as regards the temporary stacks are read off the run in the same way, one for
/// each stack, also those of a lone primitive.
pub proof fn temp_signatures_are_read_off_the_run(instrs: Seq<Instr>)
    requires
        run_all(instrs) matches Ok(end) ==> forall|i: int|
            0 <= i < TempStack::CARDINALITY ==> (#[trigger] end.temps[i]).len() <= usize::MAX,
    ensures
        match run_all(instrs) {
            Ok(end) => {
                &&& temp_signatures(instrs) matches Ok(sigs)
                &&& sigs.len() == TempStack::CARDINALITY
                &&& forall|i: int|
                    0 <= i < TempStack::CARDINALITY ==> {
                        &&& (#[trigger] sigs[i]).args == START_HEIGHT - end.temp_min_heights[i]
                        &&& sigs[i].outputs == end.temps[i].len() - end.temp_min_heights[i]
                    }
            },
            Err(stop) => {
                &&& temp_signatures(instrs) matches Err(failure)
                &&& failure.message == stop.failure.message
                &&& failure.kind == stop.failure.kind
            },
        },
{
    temporary_stacks_stay_sound(instrs);
    if let Ok(end) = run_all(instrs) {
        let sigs = temp_signatures(instrs)->Ok_0;
        assert forall|i: int| 0 <= i < TempStack::CARDINALITY implies {
            &&& (#[trigger] sigs[i]).args == START_HEIGHT - end.temp_min_heights[i]
            &&& sigs[i].outputs == end.temps[i].len() - end.temp_min_heights[i]
        } by {
            assert(end.temps[i].len() <= usize::MAX);
            assert(end.temp_min_heights[i] <= end.temps[i].len());
        }
    }
}

/// Code has a signature that disregards the temporary stacks exactly if its run comes to its end
/// and leaves each of them at the height at which it started. If any of them ends up at another
/// height, whichever it is, there is none. The signature is that of the main stack.
pub proof fn level_temporary_stacks_can_be_disregarded(instrs: Seq<Instr>)
    requires
        run_all(instrs) matches Ok(end) ==> end.stack.len() <= usize::MAX && forall|i: int|
            0 <= i < TempStack::CARDINALITY ==> (#[trigger] end.temps[i]).len() <= usize::MAX,
    ensures
        signature_no_temp(instrs) is Some <==> {
            &&& run_all(instrs) matches Ok(end)
            &&& forall|i: int|
                0 <= i < TempStack::CARDINALITY ==> (#[trigger] end.temps[i]).len() == START_HEIGHT
        },
        signature_no_temp(instrs) matches Some(sig) ==> {
            &&& run_all(instrs) matches Ok(end)
            &&& sig.args == START_HEIGHT - end.min_height
            &&& sig.outputs == end.stack.len() - end.min_height
        },
        forall|stack: TempStack|
            run_all(instrs) is Ok && run_all(instrs)->Ok_0.temps[#[trigger] stack.position()].len()
                != START_HEIGHT ==> signature_no_temp(instrs) is None,
{
    temporary_stacks_stay_sound(instrs);
    main_stack_stays_sound(instrs);
    if let Ok(end) = run_all(instrs) {
        let sigs = end.temp_sigs();
        assert forall|i: int| 0 <= i < TempStack::CARDINALITY implies ((#[trigger] sigs[i]).args
            == sigs[i].outputs <==> end.temps[i].len() == START_HEIGHT) by {
            assert(end.temps[i].len() <= usize::MAX);
            assert(end.temp_min_heights[i] <= end.temps[i].len());
        }
        if all_balanced(sigs) {
            assert forall|i: int| 0 <= i < TempStack::CARDINALITY implies (#[trigger] end.temps[i])
                .len() == START_HEIGHT by {
                assert(sigs[i].args == sigs[i].outputs);
            }
        }
    }
}

} // verus!
