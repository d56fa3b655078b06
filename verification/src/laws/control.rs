//! What loops, branches and fills come to, in terms of the functions that they take.

use vstd::prelude::*;

use crate::error::{Failure, SigCheckErrorKind};
use crate::instr::{Function, Instr, Primitive, TempStack};
use crate::laws::effects::{
    composition_is_sequence, fill_values_are_used_up, known_repetition_is_iteration,
    lemma_two_effects, same_result,
};
use crate::laws::instructions::{
    excess, functionless, has_effect, less_functions, noted, only_temp,
    signatures_are_effects, starved, starved_somehow, stopped, unnoted,
};
use crate::model::{condition_sig, round_sig, run, run_all, start, State, Stop, START_HEIGHT};
use crate::number::{count_of, Count};
use crate::signature::{monus, signature_text, Signature};
use crate::value::Item;

verus! {

/// The state without its topmost value. That it was taken is not noted.
pub open spec fn less_one_value(state: State) -> State {
    State { stack: state.stack.subrange(0, state.stack.len() - 1), ..state }
}

proof fn lemma_dropped(state: State, count: nat)
    requires
        count <= state.functions.len(),
    ensures
        state.drop_functions(count) == less_functions(state, count),
        state.stack.len() > 0 ==> state.drop_values(1) == less_one_value(state),
{
    assert(state.functions.take(state.functions.len() - count) =~= state.functions.subrange(
        0,
        state.functions.len() - count,
    ));
    if state.stack.len() > 0 {
        assert(state.stack.take(state.stack.len() - 1) =~= state.stack.subrange(
            0,
            state.stack.len() - 1,
        ));
    }
}

/// To repeat takes a function, and then a number.
pub proof fn repetition_needs_a_function_and_a_number(state: State, prim: Primitive, span: usize)
    requires
        prim.op is Repeat,
    ensures
        ({
            let outcome = state.step(Instr::Prim(prim, span));
            &&& state.functions.len() == 0 ==> functionless(state, outcome)
            &&& state.functions.len() > 0 && state.stack.len() == 0 ==> starved(
                less_functions(state, 1),
                outcome,
            )
        }),
{
    if state.functions.len() > 0 {
        lemma_dropped(state, 1);
    }
}

/// To repeat a function a known number of times takes the function and the number, and then does
/// the function that many times, one after the other. It fails where one of these times fails.
pub proof fn repetition_does_the_function_so_often(
    state: State,
    prim: Primitive,
    span: usize,
    bits: u64,
    n: usize,
)
    requires
        prim.op is Repeat,
        state.functions.len() > 0,
        state.stack.len() > 0,
        state.stack.last() == Item::Num(bits),
        count_of(bits) == Count::Natural(n),
    ensures
        ({
            let outcome = state.step(Instr::Prim(prim, span));
            let taken = less_one_value(less_functions(state, 1));
            &&& same_result(outcome, taken.handle_times(state.functions.last(), n as nat))
            &&& outcome is Err ==> starved(taken, outcome)
        }),
{
    let sig = state.functions.last();
    lemma_dropped(state, 1);
    let dropped = state.drop_functions(1);
    lemma_dropped(dropped, 0);
    let taken = less_one_value(less_functions(state, 1));
    assert(dropped.drop_values(1) == taken);
    known_repetition_is_iteration(taken, sig, bits, n);
}

/// To repeat with a number that is neither natural nor infinite is refused.
pub proof fn repetition_refuses_other_numbers(state: State, prim: Primitive, span: usize, bits: u64)
    requires
        prim.op is Repeat,
        state.functions.len() > 0,
        state.stack.len() > 0,
        state.stack.last() == Item::Num(bits),
        count_of(bits) is Neither,
    ensures
        stopped(
            less_one_value(less_functions(state, 1)),
            state.step(Instr::Prim(prim, span)),
            "repeat without a natural number or infinity"@,
            SigCheckErrorKind::Incorrect,
        ),
{
    lemma_dropped(state, 1);
    lemma_dropped(state.drop_functions(1), 0);
}

/// To repeat a function without end, or an unknown number of times, comes to doing it once, if it
/// leaves as much as it takes. A function that takes more than it leaves is refused. One that
/// leaves more is refused unless an array collects what it leaves.
pub proof fn open_repetition_keeps_the_height(state: State, prim: Primitive, span: usize)
    requires
        prim.op is Repeat,
        state.functions.len() > 0,
        state.stack.len() > 0,
        state.stack.last() matches Item::Num(bits) ==> count_of(bits) is Infinite,
    ensures
        ({
            let sig = state.functions.last();
            let outcome = state.step(Instr::Prim(prim, span));
            let taken = less_one_value(less_functions(state, 1));
            let inf = state.stack.last() is Num;
            let message = (if inf {
                "repeat with infinity and a function with signature "@
            } else {
                "repeat with no number and a function with signature "@
            }) + signature_text(sig);
            if sig.outputs < sig.args {
                stopped(taken, outcome, message, SigCheckErrorKind::LoopOverreach)
            } else if sig.outputs > sig.args && state.arrays.len() == 0 {
                stopped(taken, outcome, message, SigCheckErrorKind::LoopExcess { sig, inf })
            } else {
                has_effect(taken, outcome, sig.args as nat, sig.outputs as nat)
            }
        }),
{
    lemma_dropped(state, 1);
    lemma_dropped(state.drop_functions(1), 0);
    signatures_are_effects(less_one_value(less_functions(state, 1)), 0, 0, state.functions.last());
}

/// A loop takes a body and a condition.
pub proof fn loops_need_two_functions(state: State, prim: Primitive, span: usize)
    requires
        prim.op is Do,
        state.functions.len() < 2,
    ensures
        functionless(state, state.step(Instr::Prim(prim, span))),
{
}

/// A loop whose condition gives at least the value that is tested, and leaves no more than it
/// takes, comes to one round: something that takes the arguments of the condition and leaves as
/// many, and then the body. So it reaches down as far as the body or the condition does, whichever
/// reaches further, also where the body leaves what it takes, and it raises the stack by what the
/// body adds. It is refused only if the body adds something and no array collects that.
pub proof fn loop_is_condition_and_body(state: State, prim: Primitive, span: usize)
    requires
        prim.op is Do,
        state.functions.len() >= 2,
        state.do_loop_fits(),
        ({
            let cond = state.functions[state.functions.len() - 2];
            1 <= cond.outputs <= cond.args + 1
        }),
    ensures
        ({
            let body = state.functions[state.functions.len() - 1];
            let cond = state.functions[state.functions.len() - 2];
            let outcome = state.step(Instr::Prim(prim, span));
            let taken = less_functions(state, 2);
            let kept = Signature { args: cond.args, outputs: cond.args };
            let reach = if body.args > cond.args {
                body.args
            } else {
                cond.args
            };
            if body.outputs > body.args && state.arrays.len() == 0 {
                outcome matches Err(stop) && stop.failure.kind is LoopExcess && stop.state == taken
            } else {
                &&& same_result(outcome, taken.handle_both(kept, body))
                &&& outcome is Ok <==> reach <= state.stack.len()
                &&& outcome is Err ==> starved(taken, outcome)
                &&& outcome matches Ok(after) ==> {
                    &&& after.stack.len() == state.stack.len() - body.args + body.outputs
                    &&& noted(state, after, (state.stack.len() - reach) as nat, state.temps)
                    &&& after.stack.subrange(0, state.stack.len() - reach)
                        == state.stack.subrange(0, state.stack.len() - reach)
                }
            }
        }),
{
    let body = state.functions[state.functions.len() - 1];
    let cond = state.functions[state.functions.len() - 2];
    let taken = less_functions(state, 2);
    let round = round_sig(body, cond);
    let outcome = state.step(Instr::Prim(prim, span));
    lemma_dropped(state, 2);
    lemma_round(state, body, cond, cond.args as nat);
    if body.outputs <= body.args || state.arrays.len() > 0 {
        lemma_two_effects(
            taken,
            cond.args as nat,
            cond.args as nat,
            body.args as nat,
            body.outputs as nat,
        );
        assert(outcome == taken.handle_sig(round));
        signatures_are_effects(taken, 0, 0, round);
        if let Ok(after) = outcome {
            let low = state.stack.len() - round.args;
            assert(after.stack.subrange(0, low) =~= state.stack.subrange(0, low));
        }
    }
}

proof fn lemma_round(state: State, body: Signature, cond: Signature, left: nat)
    requires
        state.do_while_fits(body, cond),
        cond.outputs == 0 ==> left == excess(cond.args as int, 1),
        0 < cond.outputs <= cond.args + 1 ==> left == cond.args,
        cond.outputs > cond.args + 1 ==> left == cond.outputs - 1,
    ensures
        condition_sig(cond) == (Signature { args: cond.args, outputs: left as usize }),
        left <= usize::MAX,
        round_sig(body, cond).args == cond.args + monus(body.args as int, left as int),
        round_sig(body, cond).outputs == body.outputs + monus(left as int, body.args as int),
{
}

/// Any loop comes to one round and what the condition adds: something that takes the arguments of
/// the condition and leaves `left` values for the body, then the body, and then as many more values
/// as the condition leaves beyond those that it takes. The body finds all that the condition gives
/// but the value that is tested, or as many values as the condition took, if that is more. If the
/// condition gives nothing to test, one of those that it took is missing.
pub proof fn loop_is_one_round(state: State, prim: Primitive, span: usize, left: nat)
    requires
        prim.op is Do,
        state.functions.len() >= 2,
        state.do_loop_fits(),
        ({
            let body = state.functions[state.functions.len() - 1];
            let cond = state.functions[state.functions.len() - 2];
            &&& cond.outputs == 0 ==> left == excess(cond.args as int, 1)
            &&& 0 < cond.outputs <= cond.args + 1 ==> left == cond.args
            &&& cond.outputs > cond.args + 1 ==> left == cond.outputs - 1
            &&& body.outputs + left <= body.args + cond.args || state.arrays.len() > 0
        }),
    ensures
        ({
            let body = state.functions[state.functions.len() - 1];
            let cond = state.functions[state.functions.len() - 2];
            let outcome = state.step(Instr::Prim(prim, span));
            let taken = less_functions(state, 2);
            &&& same_result(
                outcome,
                match taken.handle(cond.args as nat, left) {
                    Ok(tested) => match tested.handle_sig(body) {
                        Ok(done) => done.handle(0, excess(left as int, cond.args as int)),
                        Err(stop) => Err(stop),
                    },
                    Err(stop) => Err(stop),
                },
            )
            &&& outcome is Err ==> starved(taken, outcome)
        }),
{
    let body = state.functions[state.functions.len() - 1];
    let cond = state.functions[state.functions.len() - 2];
    let taken = less_functions(state, 2);
    let round = round_sig(body, cond);
    let added = excess(left as int, cond.args as int);
    lemma_dropped(state, 2);
    lemma_round(state, body, cond, left);
    lemma_two_effects(taken, cond.args as nat, left, body.args as nat, body.outputs as nat);
    lemma_two_effects(taken, round.args as nat, round.outputs as nat, 0, added);
    assert(taken.do_while(body, cond) == taken.handle(
        round.args as nat,
        round.outputs as nat + added,
    ));
}

/// A loop that adds something to the stack each time round is refused, unless an array collects
/// that. The reason gives the signature of one round, in which `left` values are left for the body.
pub proof fn loop_excess_is_refused(state: State, prim: Primitive, span: usize, left: nat)
    requires
        prim.op is Do,
        state.functions.len() >= 2,
        state.do_loop_fits(),
        ({
            let body = state.functions[state.functions.len() - 1];
            let cond = state.functions[state.functions.len() - 2];
            &&& cond.outputs == 0 ==> left == excess(cond.args as int, 1)
            &&& 0 < cond.outputs <= cond.args + 1 ==> left == cond.args
            &&& cond.outputs > cond.args + 1 ==> left == cond.outputs - 1
            &&& body.outputs + left > body.args + cond.args
        }),
        state.arrays.len() == 0,
    ensures
        ({
            let body = state.functions[state.functions.len() - 1];
            let cond = state.functions[state.functions.len() - 2];
            let outcome = state.step(Instr::Prim(prim, span));
            &&& outcome matches Err(stop)
            &&& stop.failure.kind matches SigCheckErrorKind::LoopExcess { sig, inf }
            &&& !inf
            &&& sig.outputs - sig.args == body.outputs + left - body.args - cond.args
            &&& sig.args == cond.args + excess(body.args as int, left as int)
            &&& stopped(
                less_functions(state, 2),
                outcome,
                "do with a function with signature "@ + signature_text(sig),
                SigCheckErrorKind::LoopExcess { sig, inf: false },
            )
        }),
{
    let body = state.functions[state.functions.len() - 1];
    let cond = state.functions[state.functions.len() - 2];
    lemma_dropped(state, 2);
    lemma_round(state, body, cond, left);
}

/// To fill takes a function that makes a fill value and a function that uses it. The values that
/// the first makes are used up: what is left to do is to take the arguments of the first, if it
/// makes any values, and then to do the second.
pub proof fn filling_uses_up_the_fill(state: State, prim: Primitive, span: usize)
    requires
        prim.op is Fill,
    ensures
        ({
            let outcome = state.step(Instr::Prim(prim, span));
            let count = state.functions.len();
            let fill = state.functions[count - 1];
            let filled = state.functions[count - 2];
            let args = if fill.outputs > 0 {
                fill.args as nat
            } else {
                0
            };
            if count == 0 {
                functionless(state, outcome)
            } else if args > state.stack.len() {
                starved(less_functions(state, 1), outcome)
            } else if count == 1 {
                &&& less_functions(state, 1).handle(args, 0) matches Ok(ready)
                &&& functionless(ready, outcome)
            } else {
                &&& less_functions(state, 2).handle(args, 0) matches Ok(ready)
                &&& same_result(outcome, ready.handle_sig(filled))
                &&& outcome is Err ==> starved(ready, outcome)
            }
        }),
{
    let fill = state.functions.last();
    if state.functions.len() >= 1 {
        lemma_dropped(state, 1);
        composition_is_sequence(
            less_functions(state, 1),
            fill,
            Signature { args: fill.outputs, outputs: 0 },
        );
    }
    if state.functions.len() >= 2 {
        lemma_dropped(state, 2);
        fill_values_are_used_up(state);
        let args = if fill.outputs > 0 {
            fill.args as nat
        } else {
            0
        };
        if args <= state.stack.len() {
            let made = less_functions(state, 1).handle(args, 0)->Ok_0;
            let ready = less_functions(state, 2).handle(args, 0)->Ok_0;
            assert(made.drop_functions(1) =~= ready);
        }
    }
}

/// A switch takes the functions to choose from and the value that chooses, and then what is common
/// to the functions takes its arguments and leaves its outputs. The value that chooses goes to a
/// temporary stack, if it is needed again for the way back, and else it is gone.
pub proof fn switch_takes_a_condition_and_the_arguments(
    state: State,
    count: usize,
    sig: Signature,
    span: usize,
    under_cond: bool,
)
    requires
        state.temps.len() == TempStack::CARDINALITY,
    ensures
        ({
            let outcome = state.step(Instr::Switch { count, sig, span, under_cond });
            let place = TempStack::Under.position();
            let len = state.stack.len();
            if state.functions.len() < count {
                functionless(state, outcome)
            } else if len == 0 {
                starved(less_functions(state, count as nat), outcome)
            } else if len < 1 + sig.args {
                let left = outcome->Err_0.state;
                &&& starved_somehow(outcome)
                &&& left.stack.len() == 0
                &&& left.temps[place] == if under_cond {
                    state.temps[place].push(state.stack[len - 1])
                } else {
                    state.temps[place]
                }
                &&& only_temp(less_functions(state, count as nat), left, TempStack::Under)
                &&& unnoted(state, left)
            } else {
                &&& outcome matches Ok(after)
                &&& after.stack == state.stack.subrange(0, len - 1 - sig.args) + Seq::new(
                    sig.outputs as nat,
                    |i: int| Item::Other,
                )
                &&& noted(state, after, (len - 1 - sig.args) as nat, after.temps)
                &&& after.functions == less_functions(state, count as nat).functions
                &&& after.popped == state.popped
                &&& after.temps[place] == if under_cond {
                    state.temps[place].push(state.stack[len - 1])
                } else {
                    state.temps[place]
                }
                &&& only_temp(less_functions(state, count as nat), after, TempStack::Under)
            }
        }),
{
    let outcome = state.step(Instr::Switch { count, sig, span, under_cond });
    let len = state.stack.len();
    if state.functions.len() >= count {
        lemma_dropped(state, count as nat);
        if len >= 1 + sig.args {
            let after = outcome->Ok_0;
            assert(after.stack =~= state.stack.subrange(0, len - 1 - sig.args) + Seq::new(
                sig.outputs as nat,
                |i: int| Item::Other,
            ));
        }
    }
}

/// As regards the main stack, a switch is something that takes one value, the one that chooses, and
/// then something with the signature that is common to the functions.
pub proof fn switch_is_condition_and_branch(
    state: State,
    count: usize,
    sig: Signature,
    span: usize,
    under_cond: bool,
)
    requires
        state.functions.len() >= count,
    ensures
        ({
            let outcome = state.step(Instr::Switch { count, sig, span, under_cond });
            let parts = less_functions(state, count as nat).handle_both(
                Signature { args: 1, outputs: 0 },
                sig,
            );
            match (outcome, parts) {
                (Ok(a), Ok(b)) => {
                    &&& a.stack == b.stack
                    &&& a.min_height == b.min_height
                    &&& a.arrays == b.arrays
                    &&& a.functions == b.functions
                    &&& a.popped == b.popped
                    &&& !under_cond ==> a == b
                },
                (Err(a), Err(b)) => a.failure == b.failure,
                _ => false,
            }
        }),
{
    lemma_dropped(state, count as nat);
    let outcome = state.step(Instr::Switch { count, sig, span, under_cond });
    let parts = less_functions(state, count as nat).handle_both(
        Signature { args: 1, outputs: 0 },
        sig,
    );
    if state.stack.len() >= 1 + sig.args {
        let a = outcome->Ok_0;
        let b = parts->Ok_0;
        assert(a.stack =~= b.stack);
        assert(a.arrays =~= b.arrays);
        if !under_cond {
            assert(a.temp_min_heights =~= b.temp_min_heights);
        }
    }
}

/// The code that pushes the given functions.
pub open spec fn pushing(functions: Seq<Function>) -> Seq<Instr> {
    Seq::new(functions.len(), |i: int| Instr::PushFunc(functions[i]))
}

proof fn lemma_run_pushing(state: State, functions: Seq<Function>, last: Instr, i: int)
    requires
        0 <= i <= functions.len(),
    ensures
        ({
            let code = pushing(functions).push(last);
            let pushed = State {
                functions: state.functions + Seq::new(
                    (functions.len() - i) as nat,
                    |j: int| functions[i + j].sig,
                ),
                ..state
            };
            run(state, code, i) == run(pushed, code, functions.len() as int)
        }),
    decreases functions.len() - i,
{
    let code = pushing(functions).push(last);
    let sigs = Seq::new((functions.len() - i) as nat, |j: int| functions[i + j].sig);
    if i < functions.len() {
        let next = State { functions: state.functions.push(functions[i].sig), ..state };
        let rest = Seq::new((functions.len() - i - 1) as nat, |j: int| functions[i + 1 + j].sig);
        assert(code[i] == Instr::PushFunc(functions[i]));
        lemma_run_pushing(next, functions, last, i + 1);
        assert(state.functions + sigs =~= next.functions + rest);
    } else {
        assert(state.functions + sigs =~= state.functions);
    }
}

/// Code that is only a switch, after its functions are pushed, takes one value more than the
/// functions do.
pub proof fn lone_switch_takes_one_more(
    functions: Seq<Function>,
    sig: Signature,
    span: usize,
    under_cond: bool,
)
    requires
        functions.len() <= usize::MAX,
        1 + sig.args <= START_HEIGHT,
    ensures
        ({
            let count = functions.len() as usize;
            let code = pushing(functions).push(Instr::Switch { count, sig, span, under_cond });
            crate::model::signature(code) == Ok::<Signature, Failure>(
                Signature { args: (1 + sig.args) as usize, outputs: sig.outputs },
            )
        }),
{
    let count = functions.len() as usize;
    let last = Instr::Switch { count, sig, span, under_cond };
    let code = pushing(functions).push(last);
    lemma_run_pushing(start(), functions, last, 0);
    let sigs = Seq::new(functions.len(), |j: int| functions[0 + j].sig);
    let pushed = State { functions: start().functions + sigs, ..start() };
    assert(run_all(code) == run(pushed, code, functions.len() as int));
    assert(code[functions.len() as int] == last);
    assert(!(code[code.len() - 1] is Prim));
    switch_takes_a_condition_and_the_arguments(pushed, count, sig, span, under_cond);
    let after = pushed.step(last)->Ok_0;
    assert(run(after, code, code.len() as int) == Ok::<State, Stop>(after));
}

} // verus!
