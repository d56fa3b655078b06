//! What each instruction takes from the stacks and leaves there, counted out.

use vstd::prelude::*;

use crate::error::SigCheckErrorKind;
use crate::instr::{ImplPrimitive, Instr, PrimOp, Primitive, TempStack};
use crate::model::{Outcome, State};
use crate::signature::Signature;
use crate::value::Item;

verus! {

/// The lower of two heights.
pub open spec fn lower(a: nat, b: nat) -> nat {
    if b < a {
        b
    } else {
        a
    }
}

/// How much `a` is above `b`, if at all.
pub open spec fn excess(a: int, b: int) -> nat {
    if a > b {
        (a - b) as nat
    } else {
        0
    }
}

/// Whether, from `before` to `after`, the main stack was noted at `height` and the temporary stacks
/// at the heights of `temps`: for the whole run and for the innermost array, and for no other.
pub open spec fn noted(before: State, after: State, height: nat, temps: Seq<Seq<Item>>) -> bool {
    &&& after.min_height == lower(before.min_height, height)
    &&& after.arrays.len() == before.arrays.len()
    &&& forall|i: int|
        0 <= i < after.arrays.len() - 1 ==> #[trigger] after.arrays[i] == before.arrays[i]
    &&& after.arrays.len() > 0 ==> after.arrays[after.arrays.len() - 1] == lower(
        before.arrays[before.arrays.len() - 1],
        height,
    )
    &&& after.temp_min_heights.len() == before.temp_min_heights.len()
    &&& forall|i: int|
        0 <= i < after.temp_min_heights.len() ==> #[trigger] after.temp_min_heights[i] == lower(
            before.temp_min_heights[i],
            temps[i].len(),
        )
}

/// Whether no height was noted from `before` to `after`.
pub open spec fn unnoted(before: State, after: State) -> bool {
    &&& after.min_height == before.min_height
    &&& after.arrays == before.arrays
    &&& after.temp_min_heights == before.temp_min_heights
}

/// Whether a run stopped for want of values, with all of them taken and nothing else changed.
pub open spec fn starved(before: State, outcome: Outcome) -> bool {
    &&& outcome matches Err(stop)
    &&& stop.failure.message == "function has too many args"@
    &&& stop.failure.kind is Incorrect
    &&& stop.state.stack.len() == 0
    &&& unnoted(before, stop.state)
    &&& stop.state.temps == before.temps
    &&& stop.state.functions == before.functions
    &&& stop.state.popped == before.popped
}

/// Whether a run stopped for want of functions, with all of them taken and nothing else changed.
pub open spec fn functionless(before: State, outcome: Outcome) -> bool {
    &&& outcome matches Err(stop)
    &&& stop.failure.message == "expected function. This is an interpreter bug"@
    &&& stop.failure.kind is Incorrect
    &&& stop.state.functions.len() == 0
    &&& unnoted(before, stop.state)
    &&& stop.state.stack == before.stack
    &&& stop.state.temps == before.temps
    &&& stop.state.popped == before.popped
}

/// Whether a run stopped in the state in which it was, for the given reason.
pub open spec fn stopped(
    before: State,
    outcome: Outcome,
    message: Seq<char>,
    kind: SigCheckErrorKind,
) -> bool {
    &&& outcome matches Err(stop)
    &&& stop.failure.message == message
    &&& stop.failure.kind == kind
    &&& stop.state == before
}

/// Whether `args` values were taken and `values` were put in their place, all else being as it was.
pub open spec fn replaces(before: State, outcome: Outcome, args: nat, values: Seq<Item>) -> bool {
    if before.stack.len() < args {
        starved(before, outcome)
    } else {
        &&& outcome matches Ok(after)
        &&& after.stack == before.stack.take(before.stack.len() - args) + values
        &&& noted(before, after, (before.stack.len() - args) as nat, before.temps)
        &&& after.temps == before.temps
        &&& after.functions == before.functions
        &&& after.popped == before.popped
    }
}

/// Whether `args` values were taken and `outputs` unknown values were put in their place.
pub open spec fn has_effect(before: State, outcome: Outcome, args: nat, outputs: nat) -> bool {
    replaces(before, outcome, args, Seq::new(outputs, |i: int| Item::Other))
}

/// The state without its topmost `count` functions.
pub open spec fn less_functions(state: State, count: nat) -> State {
    State {
        functions: state.functions.subrange(0, state.functions.len() - count),
        ..state
    }
}

/// Whether `count` functions were taken, and then `args` values, and `outputs` unknown values were
/// put in the place of the values.
pub open spec fn has_effect_with(
    before: State,
    outcome: Outcome,
    count: nat,
    args: nat,
    outputs: nat,
) -> bool {
    if before.functions.len() < count {
        functionless(before, outcome)
    } else {
        has_effect(less_functions(before, count), outcome, args, outputs)
    }
}

/// What has a signature takes as many values as it has arguments, whatever they are, and leaves as
/// many unknown values as it has outputs.
pub proof fn signatures_are_effects(state: State, args: nat, outputs: nat, sig: Signature)
    ensures
        has_effect(state, state.handle(args, outputs), args, outputs),
        has_effect(state, state.handle_sig(sig), sig.args as nat, sig.outputs as nat),
{
}

/// To note the heights lowers the lowest heights to the present ones: that of the run, that of the
/// innermost array, and that of each temporary stack. Nothing else changes.
pub proof fn noting_counts_the_present_heights(state: State)
    ensures
        ({
            let after = state.note_heights();
            &&& noted(state, after, state.stack.len(), state.temps)
            &&& after.stack == state.stack
            &&& after.temps == state.temps
            &&& after.functions == state.functions
            &&& after.popped == state.popped
        }),
{
}

/// To take values, or functions, off their stack leaves those below, and all else, as they were. So
/// it is with what takes the place of a temporary stack.
pub proof fn taking_leaves_the_rest(
    state: State,
    count: nat,
    stack: TempStack,
    values: Seq<Item>,
)
    requires
        state.temps.len() == TempStack::CARDINALITY,
    ensures
        count <= state.stack.len() ==> state.drop_values(count) == (State {
            stack: state.stack.subrange(0, state.stack.len() - count),
            ..state
        }),
        count <= state.functions.len() ==> state.drop_functions(count) == less_functions(
            state,
            count,
        ),
        state.with_stack(values) == (State { stack: values, ..state }),
        ({
            let after = state.with_temp(stack, values);
            &&& after.temps[stack.position()] == values
            &&& only_temp(state, after, stack)
            &&& after.stack == state.stack
            &&& unnoted(state, after)
        }),
{
    if count <= state.functions.len() {
        lemma_handle_without(state, count, 0, 0);
    }
}

proof fn lemma_handle_without(state: State, count: nat, args: nat, outputs: nat)
    requires
        count <= state.functions.len(),
    ensures
        state.drop_functions(count) == less_functions(state, count),
        has_effect(
            less_functions(state, count),
            state.drop_functions(count).handle(args, outputs),
            args,
            outputs,
        ),
{
    assert(state.functions.take(state.functions.len() - count) =~= state.functions.subrange(
        0,
        state.functions.len() - count,
    ));
    signatures_are_effects(
        state.drop_functions(count),
        args,
        outputs,
        Signature { args: 0, outputs: 0 },
    );
}

/// Instructions that bear on no stack change nothing.
pub proof fn remarks_change_nothing(state: State, instr: Instr)
    requires
        instr is Comment || instr is SetOutputComment || instr is NoInline || (instr matches
            Instr::CallGlobal { call, .. } && !call),
    ensures
        state.step(instr) matches Ok(after) && after == state,
{
}

/// The instructions that take and leave a number of values that they name themselves.
pub proof fn counted_instructions(state: State, instr: Instr)
    ensures
        match instr {
            Instr::CallGlobal { call, .. } => call ==> has_effect(state, state.step(instr), 0, 1),
            Instr::BindGlobal { .. } => has_effect(state, state.step(instr), 1, 0),
            Instr::Label { .. } => has_effect(state, state.step(instr), 1, 1),
            Instr::Format { parts, .. } => has_effect(
                state,
                state.step(instr),
                excess(parts@.len() as int, 1),
                1,
            ),
            Instr::MatchFormatPattern { parts, .. } => has_effect(
                state,
                state.step(instr),
                1,
                excess(parts@.len() as int, 1),
            ),
            Instr::StackSwizzle(swizzle, _) => has_effect(
                state,
                state.step(instr),
                swizzle.signature.args as nat,
                swizzle.signature.outputs as nat,
            ),
            Instr::Dynamic(function) => has_effect(
                state,
                state.step(instr),
                function.signature.args as nat,
                function.signature.outputs as nat,
            ),
            Instr::Unpack { count, .. } => has_effect(state, state.step(instr), 1, count as nat),
            Instr::TouchStack { count, .. } => has_effect(
                state,
                state.step(instr),
                count as nat,
                count as nat,
            ),
            _ => true,
        },
{
    let none = Signature { args: 0, outputs: 0 };
    match instr {
        Instr::CallGlobal { .. } => signatures_are_effects(state, 0, 1, none),
        Instr::BindGlobal { .. } => signatures_are_effects(state, 1, 0, none),
        Instr::Label { .. } => signatures_are_effects(state, 1, 1, none),
        Instr::Format { parts, .. } => {
            signatures_are_effects(state, excess(parts@.len() as int, 1), 1, none);
        },
        Instr::MatchFormatPattern { parts, .. } => {
            signatures_are_effects(state, 1, excess(parts@.len() as int, 1), none);
        },
        Instr::StackSwizzle(swizzle, _) => signatures_are_effects(state, 0, 0, swizzle.signature),
        Instr::Dynamic(function) => signatures_are_effects(state, 0, 0, function.signature),
        Instr::Unpack { count, .. } => signatures_are_effects(state, 1, count as nat, none),
        Instr::TouchStack { count, .. } => {
            signatures_are_effects(state, count as nat, count as nat, none);
        },
        _ => {},
    }
}

/// The primitives that apply a function to parts of their arguments, or keep or inspect what it
/// gives, take what the function takes and leave what it leaves.
pub proof fn mapping_modifiers_do_their_function(state: State, prim: Primitive, span: usize)
    requires
        prim.op is Each || prim.op is Rows || prim.op is Inventory || prim.op is Table
            || prim.op is Fold || prim.op is Content || prim.op is Memo || prim.op is Comptime,
    ensures
        ({
            let sig = state.functions.last();
            has_effect_with(
                state,
                state.step(Instr::Prim(prim, span)),
                1,
                sig.args as nat,
                sig.outputs as nat,
            )
        }),
{
    if state.functions.len() >= 1 {
        let sig = state.functions.last();
        lemma_handle_without(state, 1, sig.args as nat, sig.outputs as nat);
    }
}

/// To try a function takes it and one that stands in for it, and does what the first does. So it is
/// with a function that comes with its inverse, and with one that comes with both parts of an
/// undoing.
pub proof fn alternatives_do_the_topmost_function(state: State, prim: Primitive, span: usize)
    ensures
        ({
            let sig = state.functions.last();
            let outcome = state.step(Instr::Prim(prim, span));
            &&& prim.op is Try || prim.op is SetInverse ==> has_effect_with(
                state,
                outcome,
                2,
                sig.args as nat,
                sig.outputs as nat,
            )
            &&& prim.op is SetUnder ==> has_effect_with(
                state,
                outcome,
                3,
                sig.args as nat,
                sig.outputs as nat,
            )
        }),
{
    let sig = state.functions.last();
    if state.functions.len() >= 2 {
        lemma_handle_without(state, 2, sig.args as nat, sig.outputs as nat);
    }
    if state.functions.len() >= 3 {
        lemma_handle_without(state, 3, sig.args as nat, sig.outputs as nat);
    }
}

/// To reduce with a function leaves what the function leaves. It takes only what the function takes
/// beyond that, since the rest is what the function left before. To scan turns one list into
/// another.
pub proof fn reductions_feed_outputs_back(state: State, prim: Primitive, span: usize)
    ensures
        ({
            let sig = state.functions.last();
            let outcome = state.step(Instr::Prim(prim, span));
            &&& prim.op is Reduce ==> has_effect_with(
                state,
                outcome,
                1,
                excess(sig.args as int, sig.outputs as int),
                sig.outputs as nat,
            )
            &&& prim.op is Scan ==> has_effect_with(state, outcome, 1, 1, 1)
        }),
{
    if state.functions.len() >= 1 {
        let sig = state.functions.last();
        lemma_handle_without(
            state,
            1,
            excess(sig.args as int, sig.outputs as int),
            sig.outputs as nat,
        );
        lemma_handle_without(state, 1, 1, 1);
    }
}

/// To group or partition takes the markers and the list, and leaves what the function leaves of
/// each group.
pub proof fn groupings_take_markers_and_list(state: State, prim: Primitive, span: usize)
    requires
        prim.op is Group || prim.op is Partition,
    ensures
        has_effect_with(
            state,
            state.step(Instr::Prim(prim, span)),
            1,
            2,
            state.functions.last().outputs as nat,
        ),
{
    if state.functions.len() >= 1 {
        lemma_handle_without(state, 1, 2, state.functions.last().outputs as nat);
    }
}

/// To spawn a function takes its arguments, and leaves the one handle by which to wait for it.
pub proof fn spawning_leaves_a_handle(state: State, prim: Primitive, span: usize)
    requires
        prim.op is Spawn || prim.op is Pool,
    ensures
        has_effect_with(
            state,
            state.step(Instr::Prim(prim, span)),
            1,
            state.functions.last().args as nat,
            1,
        ),
{
    if state.functions.len() >= 1 {
        lemma_handle_without(state, 1, state.functions.last().args as nat, 1);
    }
}

/// To invert a function does its signature turned round: it takes what the function leaves and
/// leaves what the function takes, also where these are the same number.
pub proof fn inversion_turns_the_signature_round(state: State, prim: Primitive, span: usize)
    requires
        prim.op is Un,
    ensures
        ({
            let sig = state.functions.last();
            let outcome = state.step(Instr::Prim(prim, span));
            &&& has_effect_with(state, outcome, 1, sig.outputs as nat, sig.args as nat)
            &&& state.functions.len() > 0 ==> outcome == less_functions(state, 1).handle_sig(
                Signature { args: sig.outputs, outputs: sig.args },
            )
        }),
{
    if state.functions.len() >= 1 {
        let sig = state.functions.last();
        lemma_handle_without(state, 1, sig.outputs as nat, sig.args as nat);
    }
}

/// To call takes the topmost function and does what its signature says.
pub proof fn calls_follow_the_signature(state: State, span: usize)
    ensures
        ({
            let sig = state.functions.last();
            &&& has_effect_with(
                state,
                state.step(Instr::Call(span)),
                1,
                sig.args as nat,
                sig.outputs as nat,
            )
            &&& has_effect_with(
                state,
                state.step(Instr::CallRecursive(span)),
                1,
                sig.args as nat,
                sig.outputs as nat,
            )
        }),
{
    if state.functions.len() >= 1 {
        let sig = state.functions.last();
        lemma_handle_without(state, 1, sig.args as nat, sig.outputs as nat);
    }
}

/// To push a function puts its signature on the function stack, to dump takes a function, and
/// neither does anything else.
pub proof fn functions_come_and_go(state: State, instr: Instr)
    ensures
        instr matches Instr::PushFunc(function) ==> {
            &&& state.step(instr) matches Ok(after)
            &&& after == (State { functions: state.functions.push(function.sig), ..state })
        },
        instr matches Instr::Prim(prim, _) && prim.op is Dump ==> if state.functions.len() == 0 {
            functionless(state, state.step(instr))
        } else {
            state.step(instr) matches Ok(after) && after == less_functions(state, 1)
        },
{
    if state.functions.len() > 0 {
        lemma_handle_without(state, 1, 0, 0);
    }
}

/// The number that is there, or none.
pub open spec fn number_or_none(number: Option<usize>) -> nat {
    if number is Some {
        number->0 as nat
    } else {
        0
    }
}

/// A primitive without an effect of its own takes the functions and values that it is said to
/// take, and leaves the values that it is said to leave. It is refused if either number of values
/// is open, the arguments before it takes its functions and the outputs after.
pub proof fn plain_primitives_do_as_they_say(state: State, prim: Primitive, span: usize)
    requires
        prim.op is Other,
    ensures
        ({
            let outcome = state.step(Instr::Prim(prim, span));
            let count = number_or_none(prim.modifier_args);
            if prim.args is None {
                stopped(
                    state,
                    outcome,
                    prim.name@ + " has indeterminate args"@,
                    SigCheckErrorKind::Incorrect,
                )
            } else if prim.outputs is None && state.functions.len() >= count {
                stopped(
                    less_functions(state, count),
                    outcome,
                    prim.name@ + " has indeterminate outputs"@,
                    SigCheckErrorKind::Incorrect,
                )
            } else {
                has_effect_with(
                    state,
                    outcome,
                    count,
                    number_or_none(prim.args),
                    number_or_none(prim.outputs),
                )
            }
        }),
{
    let count = number_or_none(prim.modifier_args);
    if state.functions.len() >= count {
        lemma_handle_without(state, count, number_or_none(prim.args), number_or_none(prim.outputs));
    }
}

/// The primitives that only the compiler emits: those that reduce take what a function takes beyond
/// what it leaves, the others what they are said to take.
pub proof fn compiler_primitives_do_as_they_say(state: State, prim: ImplPrimitive, span: usize)
    ensures
        ({
            let outcome = state.step(Instr::ImplPrim(prim, span));
            let sig = state.functions.last();
            if prim.op is Other {
                has_effect_with(
                    state,
                    outcome,
                    number_or_none(prim.modifier_args),
                    prim.args as nat,
                    prim.outputs as nat,
                )
            } else {
                has_effect_with(
                    state,
                    outcome,
                    1,
                    excess(sig.args as int, sig.outputs as int),
                    sig.outputs as nat,
                )
            }
        }),
{
    let sig = state.functions.last();
    if state.functions.len() >= 1 {
        lemma_handle_without(
            state,
            1,
            excess(sig.args as int, sig.outputs as int),
            sig.outputs as nat,
        );
    }
    if state.functions.len() >= number_or_none(prim.modifier_args) {
        lemma_handle_without(
            state,
            number_or_none(prim.modifier_args),
            prim.args as nat,
            prim.outputs as nat,
        );
    }
}

/// To push puts what is known of the value on top of the stack, and changes nothing else.
pub proof fn pushing_adds_one_value(state: State, instr: Instr)
    requires
        instr is Push,
    ensures
        state.step(instr) matches Ok(after) && {
            &&& after.stack.len() == state.stack.len() + 1
            &&& after.stack.last() == crate::value::known_of(instr->Push_0)
            &&& after.stack.subrange(0, state.stack.len() as int) == state.stack
            &&& unnoted(state, after)
            &&& after.temps == state.temps
            &&& after.functions == state.functions
            &&& after.popped == state.popped
        },
{
    let after = state.step(instr)->Ok_0;
    assert(after.stack.subrange(0, state.stack.len() as int) =~= state.stack);
}

/// To call the running code stops the run, as ambiguous, and changes nothing.
pub proof fn recursion_stops_the_run(state: State, span: usize)
    ensures
        stopped(
            state,
            state.step(Instr::Recur(span)),
            "recur present"@,
            SigCheckErrorKind::Ambiguous,
        ),
{
}

/// The shuffles keep the values that they shuffle: the copies are of the value that stood there,
/// the swapped values are the ones that stood there.
pub proof fn shuffles_keep_the_values(state: State, prim: Primitive, span: usize)
    ensures
        ({
            let outcome = state.step(Instr::Prim(prim, span));
            let len = state.stack.len();
            let top = state.stack[len - 1];
            let next = state.stack[len - 2];
            match prim.op {
                PrimOp::Dup => replaces(state, outcome, 1, seq![top, top]),
                PrimOp::Flip => replaces(state, outcome, 2, seq![top, next]),
                PrimOp::Over => replaces(state, outcome, 2, seq![next, top, next]),
                _ => true,
            }
        }),
{
    let len = state.stack.len();
    let top = state.stack[len - 1];
    let next = state.stack[len - 2];
    if len >= 1 {
        let low = state.stack.take(len - 1);
        assert(low.push(top).push(top) =~= low + seq![top, top]);
    }
    if len >= 2 {
        let low = state.stack.take(len - 2);
        assert(low.push(top).push(next) =~= low + seq![top, next]);
        assert(low.push(next).push(top).push(next) =~= low + seq![next, top, next]);
    }
}

/// To pop drops the top value. If that stood there at the start, it is remembered as dropped.
pub proof fn popping_drops_one_value(state: State, prim: Primitive, span: usize)
    requires
        prim.op is Pop,
    ensures
        ({
            let outcome = state.step(Instr::Prim(prim, span));
            let len = state.stack.len();
            if len == 0 {
                starved(state, outcome)
            } else {
                &&& outcome matches Ok(after)
                &&& after.stack == state.stack.subrange(0, len - 1)
                &&& noted(state, after, (len - 1) as nat, state.temps)
                &&& after.temps == state.temps
                &&& after.functions == state.functions
                &&& state.stack[len - 1] matches Item::Unknown(depth) ==> after.popped
                    == state.popped.push(depth)
                &&& !(state.stack[len - 1] is Unknown) ==> after.popped == state.popped
            }
        }),
{
    if state.stack.len() > 0 {
        let after = state.step(Instr::Prim(prim, span))->Ok_0;
        assert(after.stack =~= state.stack.subrange(0, state.stack.len() - 1));
    }
}

/// How many values a value brings into a list that it is joined to.
pub open spec fn weight(item: Item) -> nat {
    if item is Arr {
        item->Arr_0.len()
    } else {
        1
    }
}

/// The value in the given place of what a value brings into a list that it is joined to.
pub open spec fn part(item: Item, i: int) -> Item {
    if item is Arr {
        item->Arr_0[i]
    } else {
        item
    }
}

/// To join two values makes one list of them: first what the top value holds, then what the value
/// below it holds.
pub proof fn joining_makes_one_list(state: State, prim: Primitive, span: usize)
    requires
        prim.op is Join,
    ensures
        ({
            let outcome = state.step(Instr::Prim(prim, span));
            let len = state.stack.len();
            let top = state.stack[len - 1];
            let next = state.stack[len - 2];
            if len < 2 {
                starved(state, outcome)
            } else {
                &&& outcome matches Ok(after)
                &&& replaces(state, outcome, 2, seq![after.stack.last()])
                &&& after.stack.last() matches Item::Arr(list)
                &&& list.len() == weight(top) + weight(next)
                &&& forall|i: int|
                    0 <= i < list.len() ==> #[trigger] list[i] == if i < weight(top) {
                        part(top, i)
                    } else {
                        part(next, i - weight(top))
                    }
            }
        }),
{
    let len = state.stack.len();
    if len >= 2 {
        let low = state.stack.take(len - 2);
        let after = state.step(Instr::Prim(prim, span))->Ok_0;
        assert(low.push(after.stack.last()) =~= low + seq![after.stack.last()]);
    }
}

/// Whether only the temporary stack `stack` may differ between the two states.
pub open spec fn only_temp(before: State, after: State, stack: TempStack) -> bool {
    &&& after.temps.len() == before.temps.len()
    &&& forall|i: int|
        0 <= i < after.temps.len() && i != stack.position() ==> #[trigger] after.temps[i]
            == before.temps[i]
    &&& after.functions == before.functions
    &&& after.popped == before.popped
}

/// The instructions that move and copy values between the main stack and a temporary stack. Each
/// value that is moved comes off the top of one stack and onto the top of the other, so that they
/// end up in the opposite order. Copied values end up in the opposite order on both stacks.
pub proof fn temporary_moves(state: State, stack: TempStack, count: usize, span: usize)
    requires
        state.temps.len() == TempStack::CARDINALITY,
        count <= state.stack.len(),
    ensures
        ({
            let len = state.stack.len();
            let place = stack.position();
            let turned = Seq::new(count as nat, |i: int| state.stack[len - 1 - i]);
            &&& state.step(Instr::PushTemp { stack, count, span }) matches Ok(moved)
            &&& moved.stack == state.stack.subrange(0, len - count)
            &&& moved.temps[place] == state.temps[place] + turned
            &&& only_temp(state, moved, stack)
            &&& noted(state, moved, (len - count) as nat, moved.temps)
            &&& state.step(Instr::CopyToTemp { stack, count, span }) matches Ok(copied)
            &&& copied.stack == state.stack.subrange(0, len - count) + turned
            &&& copied.temps[place] == state.temps[place] + turned
            &&& only_temp(state, copied, stack)
            &&& noted(state, copied, (len - count) as nat, state.temps)
        }),
{
    let len = state.stack.len();
    let turned = Seq::new(count as nat, |i: int| state.stack[len - 1 - i]);
    assert(state.top_values(count as nat) =~= turned);
    assert(state.stack.take(len - count) =~= state.stack.subrange(0, len - count));
}

/// The way back: values come off the top of the temporary stack and onto the main stack.
pub proof fn temporary_moves_back(state: State, stack: TempStack, count: usize, span: usize)
    requires
        state.temps.len() == TempStack::CARDINALITY,
        count <= state.temps[stack.position()].len(),
    ensures
        ({
            let temp = state.temps[stack.position()];
            let turned = Seq::new(count as nat, |i: int| temp[temp.len() - 1 - i]);
            &&& state.step(Instr::PopTemp { stack, count, span }) matches Ok(after)
            &&& after.stack == state.stack + turned
            &&& after.temps[stack.position()] == temp.subrange(0, temp.len() - count)
            &&& only_temp(state, after, stack)
            &&& noted(state, after, (state.stack.len() + count) as nat, after.temps)
        }),
{
    let temp = state.temps[stack.position()];
    let turned = Seq::new(count as nat, |i: int| temp[temp.len() - 1 - i]);
    assert(temp.skip(temp.len() - count).reverse() =~= turned);
    assert(temp.take(temp.len() - count) =~= temp.subrange(0, temp.len() - count));
}

/// Whether a run stopped for want of values.
pub open spec fn starved_somehow(outcome: Outcome) -> bool {
    &&& outcome matches Err(stop)
    &&& stop.failure.message == "function has too many args"@
    &&& stop.failure.kind is Incorrect
}

/// The instructions that move and copy fail where there are too few values, and have then taken all
/// of them.
pub proof fn temporary_moves_fail(state: State, stack: TempStack, count: usize, span: usize)
    requires
        state.temps.len() == TempStack::CARDINALITY,
    ensures
        count > state.stack.len() ==> {
            let outcome = state.step(Instr::PushTemp { stack, count, span });
            let left = outcome->Err_0.state;
            &&& starved_somehow(outcome)
            &&& left.stack.len() == 0
            &&& left.temps[stack.position()] == state.temps[stack.position()]
                + state.stack.reverse()
            &&& only_temp(state, left, stack)
            &&& unnoted(state, left)
            &&& starved(state, state.step(Instr::CopyToTemp { stack, count, span }))
        },
        count > state.temps[stack.position()].len() ==> {
            let outcome = state.step(Instr::PopTemp { stack, count, span });
            let left = outcome->Err_0.state;
            &&& starved_somehow(outcome)
            &&& left.temps[stack.position()].len() == 0
            &&& left.stack == state.stack + state.temps[stack.position()].reverse()
            &&& only_temp(state, left, stack)
            &&& unnoted(state, left)
        },
{
    let all = state.top_values(state.stack.len());
    assert(all =~= state.stack.reverse());
}

} // verus!
