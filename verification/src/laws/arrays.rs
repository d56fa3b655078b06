//! What an array collects, and what it leaves alone.

use vstd::prelude::*;

use crate::error::SigCheckErrorKind;
use crate::instr::{ImplPrimitive, Instr, PrimOp, Primitive, TempStack};
use crate::laws::instructions::{lower, noted, stopped};
use crate::laws::reach::code_ignores_earlier_reach;
use crate::laws::sequence::{
    closes_all, lone_instruction_is_done_once, parts_run_one_after_the_other,
};
use crate::model::{
    condition_sig, functions_taken, joined, lemma_pop_sig_after_bounds, pop_sig_after,
    repeated_args, repeated_outputs, round_sig, run, State, Stop,
};
use crate::number::{count_of, Count};
use crate::signature::{monus, Signature};
use crate::value::{known_of, others, Item};

verus! {

/// To begin an array notes the present height for it, and changes nothing else.
pub proof fn beginning_notes_the_height(state: State)
    ensures
        state.step(Instr::BeginArray) matches Ok(after) && {
            &&& after.arrays.len() == state.arrays.len() + 1
            &&& after.arrays.last() == state.stack.len()
            &&& after.arrays.subrange(0, state.arrays.len() as int) == state.arrays
            &&& after.stack == state.stack
            &&& after.min_height == state.min_height
            &&& after.temps == state.temps
            &&& after.temp_min_heights == state.temp_min_heights
            &&& after.functions == state.functions
            &&& after.popped == state.popped
        },
{
    let after = state.step(Instr::BeginArray)->Ok_0;
    assert(after.arrays.subrange(0, state.arrays.len() as int) =~= state.arrays);
}

/// To end an array takes the values down to the lowest height since the array began, and puts one
/// list in their place, which holds them from the top down. The height at which it found them
/// counts for the array around it. Without an array to end, it is refused.
pub proof fn ending_collects_down_to_the_lowest_height(state: State, boxed: bool, span: usize)
    ensures
        ({
            let outcome = state.step(Instr::EndArray { boxed, span });
            let len = state.stack.len();
            let outer = State {
                arrays: state.arrays.subrange(0, state.arrays.len() - 1),
                ..state
            };
            if state.arrays.len() == 0 {
                stopped(
                    state,
                    outcome,
                    "EndArray without BeginArray"@,
                    SigCheckErrorKind::Incorrect,
                )
            } else {
                let low = lower(state.arrays[state.arrays.len() - 1], len);
                &&& outcome matches Ok(after)
                &&& after.stack.len() == low + 1
                &&& after.stack.subrange(0, low as int) == state.stack.subrange(0, low as int)
                &&& after.stack.last() == Item::Arr(
                    Seq::new((len - low) as nat, |i: int| state.stack[len - 1 - i]),
                )
                &&& noted(outer, after, low, state.temps)
                &&& after.temps == state.temps
                &&& after.functions == state.functions
                &&& after.popped == state.popped
            }
        }),
{
    if state.arrays.len() > 0 {
        let after = state.step(Instr::EndArray { boxed, span })->Ok_0;
        let len = state.stack.len();
        let low = lower(state.arrays[state.arrays.len() - 1], len);
        assert(after.stack.subrange(0, low as int) =~= state.stack.subrange(0, low as int));
        assert(state.top_values((len - low) as nat) =~= Seq::new(
            (len - low) as nat,
            |i: int| state.stack[len - 1 - i],
        ));
    }
}

impl State {
    /// Whether this state came about after an array began in the state `base`, and that array has
    /// not ended: what the arrays that began before have noted is as it was, and what lies below
    /// the lowest height, which is the lowest that this array or one inside it has noted, is as it
    /// was too. The stack itself may be lower than that.
    #[verifier::opaque]
    spec fn nearly_inside(self, base: State) -> bool {
        let own = base.arrays.len() - 1;
        &&& 0 <= own < self.arrays.len()
        &&& forall|i: int| 0 <= i < own ==> #[trigger] self.arrays[i] == base.arrays[i]
        &&& forall|i: int|
            own <= i < self.arrays.len() ==> #[trigger] self.arrays[i] >= self.min_height
        &&& exists|i: int|
            own <= i < self.arrays.len() && #[trigger] self.arrays[i] == self.min_height
        &&& self.min_height <= base.stack.len()
        &&& forall|i: int|
            0 <= i < self.min_height && i < self.stack.len() ==> #[trigger] self.stack[i]
                == base.stack[i]
    }

    /// The same, and the stack is at least as high as its lowest height.
    spec fn inside(self, base: State) -> bool {
        self.nearly_inside(base) && self.min_height <= self.stack.len()
    }

    /// Whether `next` is inside the array that began in `base` if this state is, and inside as many
    /// more as this state.
    spec fn stays_inside(self, base: State, next: State) -> bool {
        self.inside(base) ==> next.inside(base) && next.arrays.len() == self.arrays.len()
    }
}

proof fn lemma_drop_inside(state: State, base: State, count: nat)
    requires
        state.nearly_inside(base),
        count <= state.stack.len(),
    ensures
        state.drop_values(count).nearly_inside(base),
{
    reveal(State::nearly_inside);
    let next = state.drop_values(count);
    assert(next.arrays == state.arrays);
}

proof fn lemma_others_inside(state: State, base: State, other: State)
    requires
        state.nearly_inside(base),
        other.stack == state.stack,
        other.arrays == state.arrays,
        other.min_height == state.min_height,
    ensures
        other.nearly_inside(base),
{
    reveal(State::nearly_inside);
}

proof fn lemma_add_inside(state: State, base: State, more: Seq<Item>)
    requires
        state.inside(base),
    ensures
        state.with_stack(state.stack + more).inside(base),
{
    reveal(State::nearly_inside);
    let next = state.with_stack(state.stack + more);
    assert(next.arrays == state.arrays);
}

proof fn lemma_push_inside(state: State, base: State, item: Item)
    requires
        state.inside(base),
    ensures
        state.push(item).inside(base),
{
    lemma_add_inside(state, base, seq![item]);
    assert(state.stack + seq![item] =~= state.stack.push(item));
}

proof fn lemma_note_inside(state: State, base: State)
    requires
        state.nearly_inside(base),
    ensures
        state.note_heights().inside(base),
        state.note_heights().arrays.len() == state.arrays.len(),
{
    reveal(State::nearly_inside);
    let next = state.note_heights();
    let own = base.arrays.len() - 1;
    let last = state.arrays.len() - 1;
    let lowest = choose|i: int|
        own <= i < state.arrays.len() && #[trigger] state.arrays[i] == state.min_height;
    if state.stack.len() < state.min_height {
        assert(next.arrays[last] == next.min_height);
    } else {
        assert(next.arrays[lowest] == next.min_height);
    }
    assert forall|i: int| 0 <= i < own implies #[trigger] next.arrays[i] == base.arrays[i] by {
        assert(state.arrays[i] == base.arrays[i]);
    }
    assert forall|i: int| own <= i < next.arrays.len() implies #[trigger] next.arrays[i]
        >= next.min_height by {
        assert(state.arrays[i] >= state.min_height);
    }
}

proof fn lemma_handle_inside(state: State, base: State, args: nat, outputs: nat)
    ensures
        state.handle(args, outputs) matches Ok(next) ==> state.stays_inside(base, next),
{
    if args <= state.stack.len() && state.inside(base) {
        lemma_drop_inside(state, base, args);
        lemma_note_inside(state.drop_values(args), base);
        lemma_add_inside(state.drop_values(args).note_heights(), base, others(outputs));
    }
}

proof fn lemma_functions_inside(state: State, base: State, count: nat, args: nat, outputs: nat)
    ensures
        state.stays_inside(base, state.drop_functions(count)),
        state.drop_functions(count).handle(args, outputs) matches Ok(next)
            ==> state.stays_inside(base, next),
{
    if state.inside(base) {
        lemma_others_inside(state, base, state.drop_functions(count));
        lemma_handle_inside(state.drop_functions(count), base, args, outputs);
    }
}

proof fn lemma_temps_inside(state: State, base: State, stack: TempStack, count: nat)
    ensures
        state.push_temp(stack, count) matches Ok(next) ==> state.stays_inside(base, next),
        state.copy_to_temp(stack, count) matches Ok(next) ==> state.stays_inside(base, next),
        state.pop_temp(stack, count) matches Ok(next) ==> state.stays_inside(base, next),
{
    if state.inside(base) {
        let temp = state.temps[stack.position()];
        if count <= state.stack.len() {
            let values = state.top_values(count);
            let taken = state.drop_values(count);
            let moved = taken.with_temp(stack, temp + values);
            lemma_drop_inside(state, base, count);
            lemma_others_inside(taken, base, moved);
            lemma_note_inside(moved, base);
            let below = taken.note_heights();
            lemma_note_inside(taken, base);
            lemma_add_inside(below, base, values);
            let copied = below.with_stack(below.stack + values);
            lemma_others_inside(copied, base, copied.with_temp(stack, temp + values));
        }
        if count <= temp.len() {
            let values = temp.skip(temp.len() - count).reverse();
            let back = state.with_stack(state.stack + values);
            let left = back.with_temp(stack, temp.take(temp.len() - count));
            lemma_add_inside(state, base, values);
            lemma_others_inside(back, base, left);
            lemma_note_inside(left, base);
        }
    }
}

proof fn lemma_nearly_handle_inside(state: State, base: State, args: nat, outputs: nat)
    requires
        state.nearly_inside(base),
    ensures
        state.handle(args, outputs) matches Ok(next) ==> next.inside(base) && next.arrays.len()
            == state.arrays.len(),
{
    if args <= state.stack.len() {
        lemma_drop_inside(state, base, args);
        lemma_note_inside(state.drop_values(args), base);
        lemma_add_inside(state.drop_values(args).note_heights(), base, others(outputs));
    }
}

proof fn lemma_switch_inside(
    state: State,
    base: State,
    count: nat,
    sig: Signature,
    under_cond: bool,
)
    ensures
        state.switch(count, sig, under_cond) matches Ok(next) ==> state.stays_inside(base, next),
{
    if state.inside(base) && count <= state.functions.len() && state.stack.len() > 0 {
        let dropped = state.drop_functions(count);
        let taken = dropped.drop_values(1);
        let kept = taken.with_temp(
            TempStack::Under,
            taken.temps[TempStack::Under.position()].push(state.stack.last()),
        );
        lemma_others_inside(state, base, dropped);
        lemma_drop_inside(dropped, base, 1);
        lemma_others_inside(taken, base, kept);
        lemma_nearly_handle_inside(taken, base, sig.args as nat, sig.outputs as nat);
        lemma_nearly_handle_inside(kept, base, sig.args as nat, sig.outputs as nat);
    }
}

/// Whether none of the values is known to be zero.
pub open spec fn no_zeros(values: Seq<Item>) -> bool {
    forall|i: int|
        0 <= i < values.len() ==> (#[trigger] values[i] matches Item::Num(bits) ==> count_of(bits)
            != Count::Natural(0))
}

/// Whether the instruction repeats a function.
pub open spec fn repeats(instr: Instr) -> bool {
    instr matches Instr::Prim(prim, _) && prim.op is Repeat
}

/// Whether the code repeats no function.
pub open spec fn repeats_nowhere(instrs: Seq<Instr>) -> bool {
    forall|i: int| 0 <= i < instrs.len() ==> !repeats(#[trigger] instrs[i])
}

proof fn lemma_repeat_inside(state: State, base: State)
    requires
        no_zeros(base.stack),
    ensures
        state.repeat() matches Ok(next) ==> state.stays_inside(base, next),
{
    if state.inside(base) && state.functions.len() > 0 && state.stack.len() > 0 {
        let sig = state.functions.last();
        let dropped = state.drop_functions(1);
        let taken = dropped.drop_values(1);
        lemma_others_inside(state, base, dropped);
        lemma_drop_inside(dropped, base, 1);
        lemma_nearly_handle_inside(taken, base, sig.args as nat, sig.outputs as nat);
        if let Item::Num(bits) = state.stack.last() {
            if let Count::Natural(n) = count_of(bits) {
                lemma_nearly_handle_inside(
                    taken,
                    base,
                    repeated_args(sig, n as nat),
                    repeated_outputs(sig, n as nat),
                );
                if n == 0 {
                    reveal(State::nearly_inside);
                    let top = state.stack.len() - 1;
                    assert(state.min_height <= top) by {
                        if top < state.min_height {
                            assert(state.stack[top] == base.stack[top]);
                        }
                    }
                }
            }
        }
    }
}

proof fn lemma_fill_inside(state: State, base: State)
    ensures
        state.fill() matches Ok(next) ==> state.stays_inside(base, next),
{
    if state.inside(base) && state.functions.len() > 0 {
        let fill = state.functions.last();
        let taken = state.drop_functions(1);
        lemma_functions_inside(state, base, 1, fill.args as nat, fill.outputs as nat);
        let made = if fill.outputs > 0 {
            taken.handle_sig(fill)
        } else {
            Ok(taken)
        };
        if let Ok(next) = made {
            lemma_handle_inside(next, base, fill.outputs as nat, 0);
            if let Ok(ready) = next.handle(fill.outputs as nat, 0) {
                let sig = ready.functions.last();
                lemma_functions_inside(ready, base, 1, sig.args as nat, sig.outputs as nat);
            }
        }
    }
}

proof fn lemma_shuffle_inside(state: State, base: State)
    ensures
        state.dup() matches Ok(next) ==> state.stays_inside(base, next),
        state.flip() matches Ok(next) ==> state.stays_inside(base, next),
        state.pop() matches Ok(next) ==> state.stays_inside(base, next),
        state.over() matches Ok(next) ==> state.stays_inside(base, next),
        state.join() matches Ok(next) ==> state.stays_inside(base, next),
{
    if state.inside(base) && state.stack.len() >= 1 {
        let a = state.stack.last();
        let one = state.drop_values(1).note_heights();
        lemma_drop_inside(state, base, 1);
        lemma_note_inside(state.drop_values(1), base);
        lemma_push_inside(one, base, a);
        lemma_push_inside(one.push(a), base, a);
        let popped = match a {
            Item::Unknown(depth) => state.popped.push(depth),
            _ => state.popped,
        };
        let without = State { popped, ..state };
        lemma_others_inside(state, base, without);
        lemma_drop_inside(without, base, 1);
        lemma_note_inside(without.drop_values(1), base);
        if state.stack.len() >= 2 {
            let b = state.stack[state.stack.len() - 2];
            let two = state.drop_values(2).note_heights();
            lemma_drop_inside(state, base, 2);
            lemma_note_inside(state.drop_values(2), base);
            lemma_push_inside(two, base, a);
            lemma_push_inside(two.push(a), base, b);
            lemma_push_inside(two, base, b);
            lemma_push_inside(two.push(b), base, a);
            lemma_push_inside(two.push(b).push(a), base, b);
            lemma_push_inside(two, base, joined(a, b));
        }
    }
}

proof fn lemma_prim_inside(state: State, base: State, prim: Primitive)
    requires
        no_zeros(base.stack) || !(prim.op is Repeat),
    ensures
        state.prim(prim) matches Ok(next) ==> state.stays_inside(base, next),
{
    let functions = state.functions;
    if functions.len() > 0 {
        let sig = functions.last();
        let args = sig.args as nat;
        let outputs = sig.outputs as nat;
        lemma_functions_inside(state, base, 1, monus(sig.args as int, sig.outputs as int), outputs);
        lemma_functions_inside(state, base, 1, 1, 1);
        lemma_functions_inside(state, base, 1, args, outputs);
        lemma_functions_inside(state, base, 2, args, outputs);
        lemma_functions_inside(state, base, 3, args, outputs);
        lemma_functions_inside(state, base, 1, 2, outputs);
        lemma_functions_inside(state, base, 1, args, 1);
        lemma_functions_inside(state, base, 1, outputs, args);
    }
    match prim.op {
        PrimOp::Repeat => lemma_repeat_inside(state, base),
        PrimOp::Do => if functions.len() >= 2 {
            let cond = functions[functions.len() - 2];
            let round = round_sig(functions.last(), cond);
            lemma_functions_inside(
                state,
                base,
                2,
                round.args as nat,
                round.outputs as nat + monus(condition_sig(cond).outputs as int, cond.args as int),
            );
        },
        PrimOp::Fill => lemma_fill_inside(state, base),
        PrimOp::Dup | PrimOp::Flip | PrimOp::Pop | PrimOp::Over | PrimOp::Join => {
            lemma_shuffle_inside(state, base);
        },
        PrimOp::Other => if prim.args is Some && prim.outputs is Some {
            lemma_functions_inside(
                state,
                base,
                functions_taken(prim.modifier_args),
                prim.args->0 as nat,
                prim.outputs->0 as nat,
            );
        },
        _ => {},
    }
}

proof fn lemma_impl_prim_inside(state: State, base: State, prim: ImplPrimitive)
    ensures
        state.impl_prim(prim) matches Ok(next) ==> state.stays_inside(base, next),
{
    if state.functions.len() > 0 {
        let sig = state.functions.last();
        lemma_functions_inside(
            state,
            base,
            1,
            monus(sig.args as int, sig.outputs as int),
            sig.outputs as nat,
        );
    }
    lemma_functions_inside(
        state,
        base,
        functions_taken(prim.modifier_args),
        prim.args as nat,
        prim.outputs as nat,
    );
}

proof fn lemma_step_inside(state: State, base: State, instr: Instr)
    requires
        no_zeros(base.stack) || !repeats(instr),
        !(instr is BeginArray),
        !(instr is EndArray),
    ensures
        state.step(instr) matches Ok(next) ==> state.stays_inside(base, next),
{
    match instr {
        Instr::Push(value) => if state.inside(base) {
            lemma_push_inside(state, base, known_of(value));
        },
        Instr::PushFunc(function) => if state.inside(base) {
            let next = State { functions: state.functions.push(function.sig), ..state };
            lemma_others_inside(state, base, next);
        },
        Instr::CallGlobal { .. } => lemma_handle_inside(state, base, 0, 1),
        Instr::BindGlobal { .. } => lemma_handle_inside(state, base, 1, 0),
        Instr::Call(_) | Instr::CallRecursive(_) => if state.functions.len() > 0 {
            let sig = state.functions.last();
            lemma_functions_inside(state, base, 1, sig.args as nat, sig.outputs as nat);
        },
        Instr::PushTemp { stack, count, .. } => {
            lemma_temps_inside(state, base, stack, count as nat);
        },
        Instr::CopyToTemp { stack, count, .. } => {
            lemma_temps_inside(state, base, stack, count as nat);
        },
        Instr::PopTemp { stack, count, .. } => {
            lemma_temps_inside(state, base, stack, count as nat);
        },
        Instr::Label { .. } => lemma_handle_inside(state, base, 1, 1),
        Instr::Switch { count, sig, under_cond, .. } => {
            lemma_switch_inside(state, base, count as nat, sig, under_cond);
        },
        Instr::Format { parts, .. } => {
            lemma_handle_inside(state, base, monus(parts@.len() as int, 1), 1);
        },
        Instr::MatchFormatPattern { parts, .. } => {
            lemma_handle_inside(state, base, 1, monus(parts@.len() as int, 1));
        },
        Instr::StackSwizzle(swizzle, _) => {
            let sig = swizzle.signature;
            lemma_handle_inside(state, base, sig.args as nat, sig.outputs as nat);
        },
        Instr::Dynamic(function) => {
            let sig = function.signature;
            lemma_handle_inside(state, base, sig.args as nat, sig.outputs as nat);
        },
        Instr::Unpack { count, .. } => lemma_handle_inside(state, base, 1, count as nat),
        Instr::TouchStack { count, .. } => {
            lemma_handle_inside(state, base, count as nat, count as nat);
        },
        Instr::Prim(prim, _) => lemma_prim_inside(state, base, prim),
        Instr::ImplPrim(prim, _) => lemma_impl_prim_inside(state, base, prim),
        _ => {},
    }
}

proof fn lemma_begin_inside(state: State, base: State)
    requires
        state.inside(base),
    ensures
        state.step(Instr::BeginArray) matches Ok(next) && next.inside(base) && next.arrays.len()
            == state.arrays.len() + 1,
{
    reveal(State::nearly_inside);
    let next = state.step(Instr::BeginArray)->Ok_0;
    let own = base.arrays.len() - 1;
    let lowest = choose|i: int|
        own <= i < state.arrays.len() && #[trigger] state.arrays[i] == state.min_height;
    assert(next.arrays[lowest] == next.min_height);
}

proof fn lemma_end_inside(state: State, base: State)
    requires
        state.inside(base),
        state.arrays.len() > base.arrays.len(),
    ensures
        state.end_array() matches Ok(next) && next.inside(base) && next.arrays.len() + 1
            == state.arrays.len(),
{
    reveal(State::nearly_inside);
    let next = state.end_array()->Ok_0;
    let own = base.arrays.len() - 1;
    let last = state.arrays.len() - 1;
    let lowest = choose|i: int|
        own <= i < state.arrays.len() && #[trigger] state.arrays[i] == state.min_height;
    assert(state.arrays[last] >= state.min_height);
    assert(state.arrays[last - 1] >= state.min_height);
    assert(next.min_height == state.min_height);
    if lowest == last {
        assert(next.arrays[last - 1] == next.min_height);
    } else {
        assert(next.arrays[lowest] == next.min_height);
    }
    assert forall|i: int| 0 <= i < own implies #[trigger] next.arrays[i] == base.arrays[i] by {
        assert(state.arrays[i] == base.arrays[i]);
    }
    assert forall|i: int| own <= i < next.arrays.len() implies #[trigger] next.arrays[i]
        >= next.min_height by {
        assert(state.arrays[i] >= state.min_height);
    }
    assert forall|i: int|
        0 <= i < next.min_height && i < next.stack.len() implies #[trigger] next.stack[i]
        == base.stack[i] by {
        assert(state.stack[i] == base.stack[i]);
    }
}

/// Whether, in the code from `i` on, arrays begin and end in pairs, when `depth` more have begun
/// before than ended. What stands in code whose signature is stated does not count.
pub open spec fn arrays_nest(instrs: Seq<Instr>, i: int, depth: nat) -> bool
    decreases instrs.len() + 1 - i,
{
    if i >= instrs.len() {
        depth == 0
    } else {
        proof {
            lemma_pop_sig_after_bounds(instrs, i + 1, 0);
        }
        match instrs[i] {
            Instr::PushSig(_) => arrays_nest(instrs, pop_sig_after(instrs, i + 1, 0) + 1, depth),
            Instr::BeginArray => arrays_nest(instrs, i + 1, depth + 1),
            Instr::EndArray { .. } => depth > 0 && arrays_nest(instrs, i + 1, (depth - 1) as nat),
            _ => arrays_nest(instrs, i + 1, depth),
        }
    }
}

proof fn lemma_run_inside(state: State, base: State, instrs: Seq<Instr>, i: int, depth: nat)
    requires
        0 <= i,
        no_zeros(base.stack) || repeats_nowhere(instrs),
        state.inside(base),
        state.arrays.len() == base.arrays.len() + depth,
        arrays_nest(instrs, i, depth),
    ensures
        run(state, instrs, i) matches Ok(end) ==> end.inside(base) && end.arrays.len()
            == base.arrays.len(),
    decreases instrs.len() + 1 - i,
{
    if i < instrs.len() {
        lemma_pop_sig_after_bounds(instrs, i + 1, 0);
        match instrs[i] {
            Instr::PushSig(sig) => {
                lemma_handle_inside(state, base, sig.args as nat, sig.outputs as nat);
                if let Ok(next) = state.handle_sig(sig) {
                    let after = pop_sig_after(instrs, i + 1, 0) + 1;
                    lemma_run_inside(next, base, instrs, after, depth);
                }
            },
            Instr::PopSig => {},
            Instr::BeginArray => {
                lemma_begin_inside(state, base);
                let next = state.step(Instr::BeginArray)->Ok_0;
                lemma_run_inside(next, base, instrs, i + 1, depth + 1);
            },
            Instr::EndArray { .. } => {
                lemma_end_inside(state, base);
                let next = state.end_array()->Ok_0;
                lemma_run_inside(next, base, instrs, i + 1, (depth - 1) as nat);
            },
            instr => {
                lemma_step_inside(state, base, instr);
                if let Ok(next) = state.step(instr) {
                    lemma_run_inside(next, base, instrs, i + 1, depth);
                }
            },
        }
    }
}

/// The code that makes an array of what `body` leaves.
pub open spec fn array_of(body: Seq<Instr>, boxed: bool, span: usize) -> Seq<Instr> {
    seq![Instr::BeginArray] + (body + seq![Instr::EndArray { boxed, span }])
}

/// The state at the beginning of an array, as if the stack had never been lower.
pub open spec fn begun(state: State) -> State {
    State {
        arrays: state.arrays.push(state.stack.len()),
        min_height: state.stack.len(),
        ..state
    }
}

/// What is left of the array when its code has run.
proof fn lemma_end_of_body(state: State, body: Seq<Instr>, end: State)
    requires
        no_zeros(state.stack) || repeats_nowhere(body),
        arrays_nest(body, 0, 0),
        run(begun(state), body, 0) == Ok::<State, Stop>(end),
    ensures
        end.min_height <= state.stack.len(),
        end.min_height <= end.stack.len(),
        end.arrays.len() == state.arrays.len() + 1,
        end.arrays.last() == end.min_height,
        forall|i: int|
            0 <= i < state.arrays.len() ==> #[trigger] end.arrays[i] == state.arrays[i],
        forall|i: int| 0 <= i < end.min_height ==> #[trigger] end.stack[i] == state.stack[i],
{
    let base = begun(state);
    let own = state.arrays.len() as int;
    reveal(State::nearly_inside);
    assert(base.arrays[own] == base.min_height);
    assert(base.inside(base));
    lemma_run_inside(base, base, body, 0, 0);
    assert forall|i: int| 0 <= i < own implies #[trigger] end.arrays[i] == state.arrays[i] by {
        assert(base.arrays[i] == state.arrays[i]);
    }
}

/// To run the array is to end it where its code has run.
proof fn lemma_run_array(state: State, body: Seq<Instr>, boxed: bool, span: usize, end: State)
    requires
        state.min_height <= state.stack.len(),
        closes_all(body, 0),
        run(begun(state), body, 0) == Ok::<State, Stop>(end),
    ensures
        run(state, array_of(body, boxed, span), 0) == end.having_reached(state.min_height).step(
            Instr::EndArray { boxed, span },
        ),
{
    let first = seq![Instr::BeginArray];
    let last = seq![Instr::EndArray { boxed, span }];
    let opened = State { arrays: state.arrays.push(state.stack.len()), ..state };
    assert(begun(state).having_reached(state.min_height) == opened);
    code_ignores_earlier_reach(begun(state), state.min_height, body);
    assert(closes_all(first, 1));
    parts_run_one_after_the_other(state, first, body + last);
    lone_instruction_is_done_once(state, Instr::BeginArray);
    parts_run_one_after_the_other(opened, body, last);
    lone_instruction_is_done_once(
        end.having_reached(state.min_height),
        Instr::EndArray { boxed, span },
    );
}

/// An array takes what its code leaves above the lowest height that the code comes to, counted from
/// where the array begins, and puts exactly one list in its place: the height afterwards is one
/// more than that lowest height, whatever was pushed or reached before. What lies below stays as it
/// was. The list holds as many values as the code left.
///
/// To repeat zero times takes the number without a trace. So code that repeats must not find a zero
/// that was on the stack before the array began.
pub proof fn arrays_collect_what_their_code_left(
    state: State,
    body: Seq<Instr>,
    boxed: bool,
    span: usize,
    end: State,
)
    requires
        state.min_height <= state.stack.len(),
        no_zeros(state.stack) || repeats_nowhere(body),
        closes_all(body, 0),
        arrays_nest(body, 0, 0),
        run(begun(state), body, 0) == Ok::<State, Stop>(end),
    ensures
        ({
            let lowest = end.min_height;
            &&& lowest <= state.stack.len()
            &&& lowest <= end.stack.len()
            &&& run(state, array_of(body, boxed, span), 0) matches Ok(after)
            &&& after.stack.len() == lowest + 1
            &&& after.stack.subrange(0, lowest as int) == state.stack.subrange(0, lowest as int)
            &&& after.stack.last() matches Item::Arr(list)
            &&& list.len() == end.stack.len() - lowest
            &&& forall|i: int|
                0 <= i < list.len() ==> #[trigger] list[i] == end.stack[end.stack.len() - 1 - i]
            &&& after.min_height == lower(state.min_height, lowest)
            &&& after.arrays.len() == state.arrays.len()
            &&& forall|i: int|
                0 <= i < state.arrays.len() - 1 ==> #[trigger] after.arrays[i] == state.arrays[i]
            &&& state.arrays.len() > 0 ==> after.arrays.last() == lower(state.arrays.last(), lowest)
        }),
{
    let lowest = end.min_height;
    let left = end.having_reached(state.min_height);
    lemma_end_of_body(state, body, end);
    lemma_run_array(state, body, boxed, span, end);
    ending_collects_down_to_the_lowest_height(left, boxed, span);
    let after = left.step(Instr::EndArray { boxed, span })->Ok_0;
    assert(after.stack.subrange(0, lowest as int) == end.stack.subrange(0, lowest as int));
    assert(end.stack.subrange(0, lowest as int) =~= state.stack.subrange(0, lowest as int));
}

/// An array around code that does not go below where it starts leaves every value in its place that
/// was there when the array began, and puts one list on top of them.
pub proof fn arrays_leave_the_values_below(
    state: State,
    body: Seq<Instr>,
    boxed: bool,
    span: usize,
    end: State,
)
    requires
        state.min_height <= state.stack.len(),
        no_zeros(state.stack) || repeats_nowhere(body),
        closes_all(body, 0),
        arrays_nest(body, 0, 0),
        run(begun(state), body, 0) == Ok::<State, Stop>(end),
        end.min_height == state.stack.len(),
    ensures
        ({
            &&& run(state, array_of(body, boxed, span), 0) matches Ok(after)
            &&& after.stack.len() == state.stack.len() + 1
            &&& forall|i: int|
                0 <= i < state.stack.len() ==> #[trigger] after.stack[i] == state.stack[i]
            &&& after.stack.last() matches Item::Arr(list)
            &&& list.len() == end.stack.len() - state.stack.len()
            &&& after.min_height == state.min_height
        }),
{
    arrays_collect_what_their_code_left(state, body, boxed, span, end);
    let after = run(state, array_of(body, boxed, span), 0)->Ok_0;
    let len = state.stack.len();
    assert forall|i: int| 0 <= i < len implies #[trigger] after.stack[i] == state.stack[i] by {
        assert(after.stack.subrange(0, len as int)[i] == state.stack.subrange(0, len as int)[i]);
    }
}

} // verus!
