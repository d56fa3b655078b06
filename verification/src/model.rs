//! What each instruction does to the stacks: the meaning of signature inference.
//!
//! Code is run on stacks of which only the heights and a few values are known. The signature of
//! the code is read off from how far down the run reached and from where it ended.

use vstd::prelude::*;

use crate::error::{incorrect, Failure, SigCheckErrorKind};
use crate::instr::{ImplOp, ImplPrimitive, Instr, PrimOp, Primitive, TempStack};
use crate::number::{count_of, Count};
use crate::signature::{composed_args, composed_outputs, monus, signature_text, Signature};
use crate::value::{known_of, others, Item};

verus! {

/// The height at which every stack starts.
pub const START_HEIGHT: usize = 16;

/// The stacks during a run.
#[verifier::ext_equal]
pub struct State {
    /// The main stack, from the bottom up.
    pub stack: Seq<Item>,
    /// The temporary stacks.
    pub temps: Seq<Seq<Item>>,
    /// The signatures of the functions on the function stack.
    pub functions: Seq<Signature>,
    /// For each array that has begun, the lowest height since.
    pub arrays: Seq<nat>,
    /// The lowest height of the main stack.
    pub min_height: nat,
    /// The lowest height of each temporary stack.
    pub temp_min_heights: Seq<nat>,
    /// Which of the values that stood there at the start were dropped.
    pub popped: Seq<nat>,
}

/// The end of a run before the end of the code.
#[verifier::ext_equal]
pub struct Stop {
    /// Why the run stopped.
    pub failure: Failure,
    /// The state in which it stopped.
    pub state: State,
}

/// The state after a part of a run, or where and why the run stopped in it.
pub type Outcome = Result<State, Stop>;

pub open spec fn min(a: nat, b: nat) -> nat {
    if a <= b {
        a
    } else {
        b
    }
}

/// The state before a run.
pub open spec fn start() -> State {
    State {
        stack: Seq::new(
            START_HEIGHT as nat,
            |i: int| Item::Unknown((START_HEIGHT - 1 - i) as nat),
        ),
        temps: Seq::new(
            TempStack::CARDINALITY as nat,
            |i: int| others(START_HEIGHT as nat),
        ),
        functions: Seq::empty(),
        arrays: Seq::empty(),
        min_height: START_HEIGHT as nat,
        temp_min_heights: Seq::new(TempStack::CARDINALITY as nat, |i: int| START_HEIGHT as nat),
        popped: Seq::empty(),
    }
}

/// The failure of code that takes more values than there are.
pub open spec fn too_many_args() -> Failure {
    incorrect("function has too many args"@)
}

/// The failure of code that takes a function where there is none.
pub open spec fn no_function() -> Failure {
    incorrect("expected function. This is an interpreter bug"@)
}

/// The failure of code that calls itself.
pub open spec fn recursion() -> Failure {
    Failure { message: "recur present"@, kind: SigCheckErrorKind::Ambiguous }
}

/// The failure of a loop, described by what comes before the signature of its body.
pub open spec fn loop_failure(
    description: Seq<char>,
    sig: Signature,
    kind: SigCheckErrorKind,
) -> Failure {
    Failure { message: description + signature_text(sig), kind }
}

impl State {
    /// The state with another main stack.
    pub open spec fn with_stack(self, stack: Seq<Item>) -> State {
        State { stack, ..self }
    }

    /// The run stops in this state.
    pub open spec fn stops(self, failure: Failure) -> Outcome {
        Err(Stop { failure, state: self })
    }

    /// The run stops when it has taken all values and wants one more.
    pub open spec fn short_of_values(self) -> Outcome {
        self.with_stack(Seq::empty()).stops(too_many_args())
    }

    /// The run stops when it has taken all functions and wants one more.
    pub open spec fn short_of_functions(self) -> Outcome {
        State { functions: Seq::empty(), ..self }.stops(no_function())
    }

    /// The state with `item` pushed on the main stack.
    pub open spec fn push(self, item: Item) -> State {
        self.with_stack(self.stack.push(item))
    }

    /// The state without the top `count` values of the main stack.
    pub open spec fn drop_values(self, count: nat) -> State {
        self.with_stack(self.stack.take(self.stack.len() - count))
    }

    /// The top `count` values of the main stack, in the order in which they are popped.
    pub open spec fn top_values(self, count: nat) -> Seq<Item> {
        self.stack.skip(self.stack.len() - count).reverse()
    }

    /// The state without the top `count` functions.
    pub open spec fn drop_functions(self, count: nat) -> State {
        State { functions: self.functions.take(self.functions.len() - count), ..self }
    }

    /// The state with another temporary stack in the given place.
    pub open spec fn with_temp(self, stack: TempStack, values: Seq<Item>) -> State {
        State { temps: self.temps.update(stack.position(), values), ..self }
    }

    /// The state with the present heights counted among the lowest.
    pub open spec fn note_heights(self) -> State {
        State {
            min_height: min(self.min_height, self.stack.len()),
            arrays: if self.arrays.len() == 0 {
                self.arrays
            } else {
                self.arrays.update(self.arrays.len() - 1, min(self.arrays.last(), self.stack.len()))
            },
            temp_min_heights: Seq::new(
                self.temp_min_heights.len(),
                |i: int| min(self.temp_min_heights[i], self.temps[i].len()),
            ),
            ..self
        }
    }

    /// Take `args` values and leave `outputs` values of which nothing is known.
    pub open spec fn handle(self, args: nat, outputs: nat) -> Outcome {
        if args > self.stack.len() {
            self.short_of_values()
        } else {
            let below = self.drop_values(args).note_heights();
            Ok(below.with_stack(below.stack + others(outputs)))
        }
    }

    /// Do something that has the given signature.
    pub open spec fn handle_sig(self, sig: Signature) -> Outcome {
        self.handle(sig.args as nat, sig.outputs as nat)
    }

    /// Take a function, and do what `effect` says of its signature: how many values are taken and
    /// how many are left.
    pub open spec fn call(self, effect: spec_fn(Signature) -> (nat, nat)) -> Outcome {
        if self.functions.len() == 0 {
            self.short_of_functions()
        } else {
            let (args, outputs) = effect(self.functions.last());
            self.drop_functions(1).handle(args, outputs)
        }
    }

    /// Take `count` functions, and do what the topmost does.
    pub open spec fn call_first_of(self, count: nat) -> Outcome {
        if self.functions.len() < count {
            self.short_of_functions()
        } else {
            self.drop_functions(count).handle_sig(self.functions.last())
        }
    }

    /// End the innermost array.
    pub open spec fn end_array(self) -> Outcome {
        if self.arrays.len() == 0 {
            self.stops(incorrect("EndArray without BeginArray"@))
        } else {
            let bottom = min(self.arrays.last(), self.stack.len());
            let collected = (self.stack.len() - bottom) as nat;
            Ok(
                State { arrays: self.arrays.drop_last(), ..self }.drop_values(
                    collected,
                ).note_heights().push(Item::Arr(self.top_values(collected))),
            )
        }
    }

    /// Move `count` values to a temporary stack.
    pub open spec fn push_temp(self, stack: TempStack, count: nat) -> Outcome {
        if self.stack.len() < count {
            self.with_temp(
                stack,
                self.temps[stack.position()] + self.top_values(self.stack.len()),
            ).short_of_values()
        } else {
            Ok(
                self.drop_values(count).with_temp(
                    stack,
                    self.temps[stack.position()] + self.top_values(count),
                ).note_heights(),
            )
        }
    }

    /// Copy `count` values to a temporary stack. What stays on the main stack is turned over.
    pub open spec fn copy_to_temp(self, stack: TempStack, count: nat) -> Outcome {
        if self.stack.len() < count {
            self.short_of_values()
        } else {
            let values = self.top_values(count);
            let below = self.drop_values(count).note_heights();
            Ok(
                below.with_stack(below.stack + values).with_temp(
                    stack,
                    below.temps[stack.position()] + values,
                ),
            )
        }
    }

    /// Move `count` values back from a temporary stack.
    pub open spec fn pop_temp(self, stack: TempStack, count: nat) -> Outcome {
        let temp = self.temps[stack.position()];
        if temp.len() < count {
            self.with_stack(self.stack + temp.reverse()).with_temp(stack, Seq::empty()).stops(
                too_many_args(),
            )
        } else {
            Ok(
                self.with_stack(self.stack + temp.skip(temp.len() - count).reverse()).with_temp(
                    stack,
                    temp.take(temp.len() - count),
                ).note_heights(),
            )
        }
    }

    /// Take `count` functions and a condition, and do what has the signature `sig`.
    pub open spec fn switch(self, count: nat, sig: Signature, under_cond: bool) -> Outcome {
        if self.functions.len() < count {
            self.short_of_functions()
        } else if self.stack.len() == 0 {
            self.drop_functions(count).short_of_values()
        } else {
            let taken = self.drop_functions(count).drop_values(1);
            let kept = if under_cond {
                taken.with_temp(
                    TempStack::Under,
                    taken.temps[TempStack::Under.position()].push(self.stack.last()),
                )
            } else {
                taken
            };
            kept.handle_sig(sig)
        }
    }
}

/// The number of arguments of code with the signature `sig` that is done `n` times.
pub open spec fn repeated_args(sig: Signature, n: nat) -> nat {
    if sig.args > sig.outputs {
        ((n - 1) * (sig.args - sig.outputs) + sig.args) as nat
    } else {
        sig.args as nat
    }
}

/// The number of outputs of code with the signature `sig` that is done `n` times.
pub open spec fn repeated_outputs(sig: Signature, n: nat) -> nat {
    if sig.args < sig.outputs {
        (n * (sig.outputs - sig.args) + sig.args) as nat
    } else {
        sig.outputs as nat
    }
}

impl State {
    /// Do code with the signature `sig` an unknown number of times. That keeps the stack in
    /// order where the code leaves as much as it takes, or where what it leaves beyond that is
    /// collected in an array.
    pub open spec fn endless(self, sig: Signature, description: Seq<char>, inf: bool) -> Outcome {
        if sig.args > sig.outputs {
            self.stops(loop_failure(description, sig, SigCheckErrorKind::LoopOverreach))
        } else if sig.args < sig.outputs && self.arrays.len() == 0 {
            self.stops(loop_failure(description, sig, SigCheckErrorKind::LoopExcess { sig, inf }))
        } else {
            self.handle_sig(sig)
        }
    }

    /// Do code with the signature `sig` as often as `times` says.
    pub open spec fn repeat_times(self, sig: Signature, times: Item) -> Outcome {
        match times {
            Item::Num(bits) => match count_of(bits) {
                Count::Natural(n) => if n == 0 {
                    Ok(self)
                } else {
                    self.handle(repeated_args(sig, n as nat), repeated_outputs(sig, n as nat))
                },
                Count::Infinite => self.endless(
                    sig,
                    "repeat with infinity and a function with signature "@,
                    true,
                ),
                Count::Neither => self.stops(
                    incorrect("repeat without a natural number or infinity"@),
                ),
            },
            _ => self.endless(
                sig,
                "repeat with no number and a function with signature "@,
                false,
            ),
        }
    }

    /// Whether [`State::repeat_times`] counts no further than a machine integer goes.
    pub open spec fn repeat_times_fits(self, sig: Signature, times: Item) -> bool {
        times matches Item::Num(bits) ==> (count_of(bits) matches Count::Natural(n)
            ==> n > 0 ==> {
            &&& repeated_args(sig, n as nat) <= usize::MAX
            &&& repeated_outputs(sig, n as nat) <= usize::MAX
        })
    }

    /// Take a function and a number, and do the function that many times.
    pub open spec fn repeat(self) -> Outcome {
        if self.functions.len() == 0 {
            self.short_of_functions()
        } else if self.stack.len() == 0 {
            self.drop_functions(1).short_of_values()
        } else {
            self.drop_functions(1).drop_values(1).repeat_times(
                self.functions.last(),
                self.stack.last(),
            )
        }
    }

    /// Whether [`State::repeat`] counts no further than a machine integer goes.
    pub open spec fn repeat_fits(self) -> bool {
        self.functions.len() > 0 && self.stack.len() > 0 ==> self.repeat_times_fits(
            self.functions.last(),
            self.stack.last(),
        )
    }
}

/// How many values the condition of a loop has to work on copies of, so that the body finds them.
pub open spec fn copied_for_condition(cond: Signature) -> nat {
    monus(cond.args as int, monus(cond.outputs as int, 1) as int)
}

/// The number of values that the condition of a loop leaves to the body: the copies, and all of
/// its outputs but the one that is tested.
pub open spec fn left_by_condition(cond: Signature) -> nat {
    monus(cond.outputs + copied_for_condition(cond), 1)
}

/// The signature of the condition of a loop, as the body sees it.
pub open spec fn condition_sig(cond: Signature) -> Signature {
    Signature { args: cond.args, outputs: left_by_condition(cond) as usize }
}

/// The signature of one round of a loop: the condition and then the body.
pub open spec fn round_sig(body: Signature, cond: Signature) -> Signature {
    Signature {
        args: composed_args(body, condition_sig(cond)) as usize,
        outputs: composed_outputs(body, condition_sig(cond)) as usize,
    }
}

impl State {
    /// Do `body` for as long as `cond` says.
    pub open spec fn do_while(self, body: Signature, cond: Signature) -> Outcome {
        let round = round_sig(body, cond);
        if round.args < round.outputs && self.arrays.len() == 0 {
            self.stops(
                loop_failure(
                    "do with a function with signature "@,
                    round,
                    SigCheckErrorKind::LoopExcess { sig: round, inf: false },
                ),
            )
        } else {
            self.handle(
                round.args as nat,
                round.outputs as nat + monus(condition_sig(cond).outputs as int, cond.args as int),
            )
        }
    }

    /// Whether [`State::do_while`] counts no further than a machine integer goes.
    pub open spec fn do_while_fits(self, body: Signature, cond: Signature) -> bool {
        let left = condition_sig(cond);
        let round = round_sig(body, cond);
        &&& cond.outputs + copied_for_condition(cond) <= usize::MAX
        &&& composed_args(body, left) <= usize::MAX
        &&& composed_outputs(body, left) <= usize::MAX
        &&& round.args >= round.outputs || self.arrays.len() > 0 ==> round.outputs
            + monus(left.outputs as int, cond.args as int) <= usize::MAX
    }

    /// Take a body and a condition, and loop.
    pub open spec fn do_loop(self) -> Outcome {
        if self.functions.len() < 2 {
            self.short_of_functions()
        } else {
            self.drop_functions(2).do_while(
                self.functions.last(),
                self.functions[self.functions.len() - 2],
            )
        }
    }

    /// Whether [`State::do_loop`] counts no further than a machine integer goes.
    pub open spec fn do_loop_fits(self) -> bool {
        self.functions.len() >= 2 ==> self.do_while_fits(
            self.functions.last(),
            self.functions[self.functions.len() - 2],
        )
    }

    /// Take a function that makes a fill value and a function that uses it, and do both.
    pub open spec fn fill(self) -> Outcome {
        if self.functions.len() == 0 {
            self.short_of_functions()
        } else {
            let fill = self.functions.last();
            let taken = self.drop_functions(1);
            let made = if fill.outputs > 0 {
                taken.handle_sig(fill)
            } else {
                Ok(taken)
            };
            match made {
                Ok(state) => match state.handle(fill.outputs as nat, 0) {
                    Ok(ready) => ready.call_first_of(1),
                    Err(stop) => Err(stop),
                },
                Err(stop) => Err(stop),
            }
        }
    }

    /// Copy the top value.
    pub open spec fn dup(self) -> Outcome {
        if self.stack.len() < 1 {
            self.short_of_values()
        } else {
            Ok(self.drop_values(1).note_heights().push(self.stack.last()).push(self.stack.last()))
        }
    }

    /// Swap the top two values.
    pub open spec fn flip(self) -> Outcome {
        if self.stack.len() < 2 {
            self.short_of_values()
        } else {
            let a = self.stack.last();
            let b = self.stack[self.stack.len() - 2];
            Ok(self.drop_values(2).note_heights().push(a).push(b))
        }
    }

    /// Drop the top value.
    pub open spec fn pop(self) -> Outcome {
        if self.stack.len() < 1 {
            self.short_of_values()
        } else {
            let popped = match self.stack.last() {
                Item::Unknown(depth) => self.popped.push(depth),
                _ => self.popped,
            };
            Ok(State { popped, ..self }.drop_values(1).note_heights())
        }
    }

    /// Copy the value below the top.
    pub open spec fn over(self) -> Outcome {
        if self.stack.len() < 2 {
            self.short_of_values()
        } else {
            let a = self.stack.last();
            let b = self.stack[self.stack.len() - 2];
            Ok(self.drop_values(2).note_heights().push(b).push(a).push(b))
        }
    }

    /// Join the top two values.
    pub open spec fn join(self) -> Outcome {
        if self.stack.len() < 2 {
            self.short_of_values()
        } else {
            let a = self.stack.last();
            let b = self.stack[self.stack.len() - 2];
            Ok(self.drop_values(2).note_heights().push(joined(a, b)))
        }
    }
}

/// The list of what `a` and `b` hold. A value that is no list counts as a list of one.
pub open spec fn joined(a: Item, b: Item) -> Item {
    Item::Arr(as_list(a) + as_list(b))
}

/// The elements of a list, or the value itself.
pub open spec fn as_list(item: Item) -> Seq<Item> {
    match item {
        Item::Arr(elements) => elements,
        _ => seq![item],
    }
}

/// The number of functions that a modifier takes.
pub open spec fn functions_taken(modifier_args: Option<usize>) -> nat {
    match modifier_args {
        Some(count) => count as nat,
        None => 0,
    }
}

impl State {
    /// Do a primitive that has a fixed number of arguments, functions and outputs.
    pub open spec fn fixed(self, modifier_args: Option<usize>, args: nat, outputs: nat) -> Outcome {
        if self.functions.len() < functions_taken(modifier_args) {
            self.short_of_functions()
        } else {
            self.drop_functions(functions_taken(modifier_args)).handle(args, outputs)
        }
    }

    /// Do a primitive of which only the numbers of arguments, functions and outputs are known.
    pub open spec fn plain(self, prim: Primitive) -> Outcome {
        match (prim.args, prim.outputs) {
            (None, _) => self.stops(incorrect(prim.name@ + " has indeterminate args"@)),
            (Some(args), None) => if self.functions.len() < functions_taken(prim.modifier_args) {
                self.short_of_functions()
            } else {
                self.drop_functions(functions_taken(prim.modifier_args)).stops(
                    incorrect(prim.name@ + " has indeterminate outputs"@),
                )
            },
            (Some(args), Some(outputs)) => self.fixed(
                prim.modifier_args,
                args as nat,
                outputs as nat,
            ),
        }
    }

    /// Reduce with a function.
    pub open spec fn reduce(self) -> Outcome {
        self.call(
            |sig: Signature|
                (monus(sig.args as int, sig.outputs as int), sig.outputs as nat),
        )
    }

    /// Do a primitive.
    pub open spec fn prim(self, prim: Primitive) -> Outcome {
        match prim.op {
            PrimOp::Reduce => self.reduce(),
            PrimOp::Scan => self.call(|sig: Signature| (1, 1)),
            PrimOp::Each
            | PrimOp::Rows
            | PrimOp::Inventory
            | PrimOp::Table
            | PrimOp::Fold
            | PrimOp::Content
            | PrimOp::Memo
            | PrimOp::Comptime => self.call_first_of(1),
            PrimOp::Group | PrimOp::Partition => self.call(
                |sig: Signature| (2, sig.outputs as nat),
            ),
            PrimOp::Spawn | PrimOp::Pool => self.call(|sig: Signature| (sig.args as nat, 1)),
            PrimOp::Repeat => self.repeat(),
            PrimOp::Do => self.do_loop(),
            PrimOp::Un => self.call(|sig: Signature| (sig.outputs as nat, sig.args as nat)),
            PrimOp::Try | PrimOp::SetInverse => self.call_first_of(2),
            PrimOp::SetUnder => self.call_first_of(3),
            PrimOp::Fill => self.fill(),
            PrimOp::Dup => self.dup(),
            PrimOp::Flip => self.flip(),
            PrimOp::Pop => self.pop(),
            PrimOp::Over => self.over(),
            PrimOp::Join => self.join(),
            PrimOp::Dump => if self.functions.len() == 0 {
                self.short_of_functions()
            } else {
                Ok(self.drop_functions(1))
            },
            PrimOp::Other => self.plain(prim),
        }
    }

    /// Do a primitive that only the compiler emits.
    pub open spec fn impl_prim(self, prim: ImplPrimitive) -> Outcome {
        match prim.op {
            ImplOp::ReduceContent | ImplOp::ReduceDepth(_) => self.reduce(),
            ImplOp::Other => self.fixed(prim.modifier_args, prim.args as nat, prim.outputs as nat),
        }
    }

    /// Do an instruction that stands for itself, that is any but [`Instr::PushSig`] and
    /// [`Instr::PopSig`].
    pub open spec fn step(self, instr: Instr) -> Outcome {
        match instr {
            Instr::Comment(_) => Ok(self),
            Instr::Push(value) => Ok(self.push(known_of(value))),
            Instr::CallGlobal { call, .. } => if call {
                self.handle(0, 1)
            } else {
                Ok(self)
            },
            Instr::BindGlobal { .. } => self.handle(1, 0),
            Instr::BeginArray => Ok(State { arrays: self.arrays.push(self.stack.len()), ..self }),
            Instr::EndArray { .. } => self.end_array(),
            Instr::Call(_) | Instr::CallRecursive(_) => self.call_first_of(1),
            Instr::Recur(_) => self.stops(recursion()),
            Instr::PushTemp { stack, count, .. } => self.push_temp(stack, count as nat),
            Instr::CopyToTemp { stack, count, .. } => self.copy_to_temp(stack, count as nat),
            Instr::PopTemp { stack, count, .. } => self.pop_temp(stack, count as nat),
            Instr::Label { .. } => self.handle(1, 1),
            Instr::PushFunc(function) => Ok(
                State { functions: self.functions.push(function.sig), ..self },
            ),
            Instr::Switch { count, sig, under_cond, .. } => self.switch(
                count as nat,
                sig,
                under_cond,
            ),
            Instr::Format { parts, .. } => self.handle(monus(parts@.len() as int, 1), 1),
            Instr::MatchFormatPattern { parts, .. } => self.handle(
                1,
                monus(parts@.len() as int, 1),
            ),
            Instr::StackSwizzle(swizzle, _) => self.handle_sig(swizzle.signature),
            Instr::Dynamic(function) => self.handle_sig(function.signature),
            Instr::Unpack { count, .. } => self.handle(1, count as nat),
            Instr::TouchStack { count, .. } => self.handle(count as nat, count as nat),
            Instr::Prim(prim, _) => self.prim(prim),
            Instr::ImplPrim(prim, _) => self.impl_prim(prim),
            Instr::PushSig(_) | Instr::PopSig => Ok(self),
            Instr::SetOutputComment { .. } => Ok(self),
            Instr::NoInline => Ok(self),
        }
    }

    /// Whether [`State::step`] counts no further than a machine integer goes.
    pub open spec fn step_fits(self, instr: Instr) -> bool {
        match instr {
            Instr::Prim(prim, _) => match prim.op {
                PrimOp::Repeat => self.repeat_fits(),
                PrimOp::Do => self.do_loop_fits(),
                _ => true,
            },
            _ => true,
        }
    }
}

/// The place of the [`Instr::PopSig`] that ends the code from `i` on, when `depth` more
/// [`Instr::PushSig`] have been seen than [`Instr::PopSig`]. Where there is none, the end.
pub open spec fn pop_sig_after(instrs: Seq<Instr>, i: int, depth: nat) -> int
    decreases instrs.len() - i,
{
    if i >= instrs.len() {
        instrs.len() as int
    } else {
        match instrs[i] {
            Instr::PushSig(_) => pop_sig_after(instrs, i + 1, depth + 1),
            Instr::PopSig => if depth == 0 {
                i
            } else {
                pop_sig_after(instrs, i + 1, (depth - 1) as nat)
            },
            _ => pop_sig_after(instrs, i + 1, depth),
        }
    }
}

pub proof fn lemma_pop_sig_after_bounds(instrs: Seq<Instr>, i: int, depth: nat)
    requires
        i <= instrs.len(),
    ensures
        i <= pop_sig_after(instrs, i, depth) <= instrs.len(),
    decreases instrs.len() - i,
{
    if i < instrs.len() {
        match instrs[i] {
            Instr::PushSig(_) => lemma_pop_sig_after_bounds(instrs, i + 1, depth + 1),
            Instr::PopSig => if depth > 0 {
                lemma_pop_sig_after_bounds(instrs, i + 1, (depth - 1) as nat);
            },
            _ => lemma_pop_sig_after_bounds(instrs, i + 1, depth),
        }
    }
}

/// The failure of code that ends a stated signature where none has begun.
pub open spec fn stray_pop_sig() -> Failure {
    incorrect(
        "PopSig without PushSig. It is a bug in the interpreter for you to see this message."@,
    )
}

/// Do the instructions from `i` on. Code whose signature is stated is not looked into: its
/// signature is taken as stated.
pub open spec fn run(state: State, instrs: Seq<Instr>, i: int) -> Outcome
    decreases instrs.len() + 1 - i,
{
    if i >= instrs.len() {
        Ok(state)
    } else {
        proof {
            lemma_pop_sig_after_bounds(instrs, i + 1, 0);
        }
        match instrs[i] {
            Instr::PushSig(sig) => match state.handle_sig(sig) {
                Ok(next) => run(next, instrs, pop_sig_after(instrs, i + 1, 0) + 1),
                Err(stop) => Err(stop),
            },
            Instr::PopSig => state.stops(stray_pop_sig()),
            instr => match state.step(instr) {
                Ok(next) => run(next, instrs, i + 1),
                Err(stop) => Err(stop),
            },
        }
    }
}

/// Whether [`run`] counts no further than a machine integer goes.
pub open spec fn run_fits(state: State, instrs: Seq<Instr>, i: int) -> bool
    decreases instrs.len() + 1 - i,
{
    if i >= instrs.len() {
        true
    } else {
        proof {
            lemma_pop_sig_after_bounds(instrs, i + 1, 0);
        }
        match instrs[i] {
            Instr::PushSig(sig) => match state.handle_sig(sig) {
                Ok(next) => run_fits(next, instrs, pop_sig_after(instrs, i + 1, 0) + 1),
                Err(_) => true,
            },
            Instr::PopSig => true,
            instr => state.step_fits(instr) && match state.step(instr) {
                Ok(next) => run_fits(next, instrs, i + 1),
                Err(_) => true,
            },
        }
    }
}

/// The signature of code that reached down to `min_height` and ended at `final_height`.
pub open spec fn derived_sig(min_height: nat, final_height: nat) -> Signature {
    Signature {
        args: monus(START_HEIGHT as int, min_height as int) as usize,
        outputs: (final_height - min_height) as usize,
    }
}

/// Whether each of the signatures leaves as much as it takes.
pub open spec fn all_balanced(temps: Seq<Signature>) -> bool {
    forall|i: int|
        0 <= i < TempStack::CARDINALITY ==> (#[trigger] temps[i]).args == temps[i].outputs
}

impl State {
    /// The signature of code that ended in this state.
    pub open spec fn sig(self) -> Signature {
        derived_sig(self.min_height, self.stack.len())
    }

    /// The signatures of code that ended in this state, as regards the temporary stacks.
    pub open spec fn temp_sigs(self) -> Seq<Signature> {
        Seq::new(
            self.temps.len(),
            |i: int| derived_sig(self.temp_min_heights[i], self.temps[i].len()),
        )
    }

    /// Whether every temporary stack is at least as high as its lowest height, and that is not
    /// above the height at the start.
    pub open spec fn temps_sound(self) -> bool {
        &&& self.temps.len() == TempStack::CARDINALITY
        &&& self.temp_min_heights.len() == TempStack::CARDINALITY
        &&& forall|i: int|
            0 <= i < TempStack::CARDINALITY ==> #[trigger] self.temp_min_heights[i]
                <= self.temps[i].len() && self.temp_min_heights[i] <= START_HEIGHT
    }
}

/// The state in which the code ends.
pub open spec fn run_all(instrs: Seq<Instr>) -> Outcome {
    run(start(), instrs, 0)
}

/// Whether the instruction is a loop. Only loops multiply what their bodies do.
pub open spec fn is_loop(instr: Instr) -> bool {
    instr matches Instr::Prim(prim, _) && (prim.op is Repeat || prim.op is Do)
}

/// Whether the code holds no loop.
pub open spec fn loops_nowhere(instrs: Seq<Instr>) -> bool {
    forall|i: int| 0 <= i < instrs.len() ==> !is_loop(#[trigger] instrs[i])
}

/// Whether the code can be run with machine integers. Code without loops always can.
pub open spec fn runnable(instrs: Seq<Instr>) -> bool {
    loops_nowhere(instrs) || run_fits(start(), instrs, 0)
}

/// Whether the code is a primitive and nothing else, and its numbers of arguments and outputs are
/// fixed.
pub open spec fn is_lone_primitive(instrs: Seq<Instr>) -> bool {
    &&& instrs.len() == 1
    &&& instrs[0] matches Instr::Prim(prim, _) && prim.args is Some && prim.outputs is Some
}

/// The number of arguments of a primitive, its functions included.
pub open spec fn lone_primitive_args(instrs: Seq<Instr>) -> nat {
    instrs[0]->Prim_0.args->0 as nat + functions_taken(instrs[0]->Prim_0.modifier_args)
}

/// The signature of the code. A lone primitive has the signature that is fixed for it.
pub open spec fn signature(instrs: Seq<Instr>) -> Result<Signature, Failure> {
    if is_lone_primitive(instrs) {
        Ok(
            Signature {
                args: lone_primitive_args(instrs) as usize,
                outputs: instrs[0]->Prim_0.outputs->0,
            },
        )
    } else {
        match run_all(instrs) {
            Ok(state) => Ok(state.sig()),
            Err(stop) => Err(stop.failure),
        }
    }
}

/// The signatures of the code as regards the temporary stacks.
pub open spec fn temp_signatures(instrs: Seq<Instr>) -> Result<Seq<Signature>, Failure> {
    match run_all(instrs) {
        Ok(state) => Ok(state.temp_sigs()),
        Err(stop) => Err(stop.failure),
    }
}

/// The signature of the code, if it leaves every temporary stack as high as it was.
pub open spec fn signature_no_temp(instrs: Seq<Instr>) -> Option<Signature> {
    match run_all(instrs) {
        Ok(state) => if all_balanced(state.temp_sigs()) {
            Some(state.sig())
        } else {
            None
        },
        Err(_) => None,
    }
}

} // verus!
