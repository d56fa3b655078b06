//! Signature inference: runs code on virtual stacks and reads off its signature.

use vstd::prelude::*;

use crate::error::{incorrect, SigCheckError};
use crate::instr::{Function, ImplOp, ImplPrimitive, Instr, PrimOp, Primitive, TempStack};
use crate::laws::invariants::{
    main_stack_stays_sound, runnable_code_fits, temporary_stacks_stay_sound,
};
use crate::model::{
    as_list, is_lone_primitive, joined, lone_primitive_args, min, no_function, pop_sig_after, run,
    run_all, run_fits, runnable, signature_no_temp, start, temp_signatures, too_many_args, Outcome,
    State, Stop, START_HEIGHT,
};
use crate::number::{count, Count};
use crate::signature::{signature_text, Signature};
use crate::value::{
    items, lemma_items_add, lemma_items_push, lemma_items_subrange, other_values, others,
    BasicValue, Item,
};

verus! {

/// Count the number of arguments and outputs of code.
pub fn instrs_signature(instrs: &[Instr]) -> (result: Result<Signature, SigCheckError>)
    requires
        if is_lone_primitive(instrs@) {
            lone_primitive_args(instrs@) <= usize::MAX
        } else {
            runnable(instrs@)
        },
    ensures
        match crate::model::signature(instrs@) {
            Ok(sig) => result == Ok::<Signature, SigCheckError>(sig),
            Err(failure) => result matches Err(error) && error@ == failure,
        },
{
    if instrs.len() == 1 {
        if let Instr::Prim(prim, _) = &instrs[0] {
            if let (Some(args), Some(outputs)) = (prim.args, prim.outputs) {
                return Ok(
                    Signature { args: args + prim.modifier_args.unwrap_or(0), outputs },
                );
            }
        }
    }
    let env = VirtualEnv::from_instrs(instrs)?;
    proof {
        main_stack_stays_sound(instrs@);
    }
    Ok(env.sig())
}

/// Count the number of arguments and outputs of code on each temporary stack.
pub fn instrs_temp_signatures(instrs: &[Instr]) -> (result: Result<
    [Signature; TempStack::CARDINALITY],
    SigCheckError,
>)
    requires
        runnable(instrs@),
    ensures
        match temp_signatures(instrs@) {
            Ok(temps) => result matches Ok(sigs) && sigs@ == temps,
            Err(failure) => result matches Err(error) && error@ == failure,
        },
{
    let env = VirtualEnv::from_instrs(instrs)?;
    proof {
        temporary_stacks_stay_sound(instrs@);
    }
    Ok(env.temp_signatures())
}

/// Count the number of arguments and outputs of code, on the main stack and on each temporary
/// stack.
pub fn instrs_all_signatures(instrs: &[Instr]) -> (result: Result<
    (Signature, [Signature; TempStack::CARDINALITY]),
    SigCheckError,
>)
    requires
        runnable(instrs@),
    ensures
        match run_all(instrs@) {
            Ok(state) => {
                &&& result matches Ok((sig, temps))
                &&& sig == state.sig()
                &&& temps@ == state.temp_sigs()
            },
            Err(stop) => result matches Err(error) && error@ == stop.failure,
        },
{
    let env = VirtualEnv::from_instrs(instrs)?;
    proof {
        main_stack_stays_sound(instrs@);
        temporary_stacks_stay_sound(instrs@);
    }
    Ok((env.sig(), env.temp_signatures()))
}

/// Count the number of arguments and outputs of code that leaves every temporary stack as high
/// as it was. There is no count for other code, nor for code whose run fails.
pub fn instrs_signature_no_temp(instrs: &[Instr]) -> (result: Option<Signature>)
    requires
        runnable(instrs@),
    ensures
        result == signature_no_temp(instrs@),
{
    match instrs_all_signatures(instrs) {
        Ok((sig, temps)) => {
            let ghost state = run_all(instrs@)->Ok_0;
            for i in 0..TempStack::CARDINALITY
                invariant
                    temps@ == state.temp_sigs(),
                    run_all(instrs@) == Ok::<State, Stop>(state),
                    forall|j: int|
                        0 <= j < i ==> (#[trigger] state.temp_sigs()[j]).args
                            == state.temp_sigs()[j].outputs,
            {
                if temps[i].args != temps[i].outputs {
                    assert(state.temp_sigs()[i as int].args != state.temp_sigs()[i as int].outputs);
                    return None;
                }
            }
            Some(sig)
        },
        Err(_) => None,
    }
}

/// An environment that emulates the runtime but only keeps track of the stacks.
pub struct VirtualEnv<'a> {
    stack: Vec<BasicValue>,
    temp_stacks: [Vec<BasicValue>; TempStack::CARDINALITY],
    function_stack: Vec<&'a Function>,
    array_stack: Vec<usize>,
    min_height: usize,
    temp_min_heights: [usize; TempStack::CARDINALITY],
    popped: Vec<usize>,
}

/// What is known of the values on each of `stacks`.
spec fn stack_items(stacks: Seq<Vec<BasicValue>>) -> Seq<Seq<Item>> {
    Seq::new(stacks.len(), |i: int| items(stacks[i]@))
}

/// The signatures of `functions`.
spec fn signatures(functions: Seq<&Function>) -> Seq<Signature> {
    Seq::new(functions.len(), |i: int| functions[i].sig)
}

/// `numbers` without their bound.
spec fn naturals(numbers: Seq<usize>) -> Seq<nat> {
    Seq::new(numbers.len(), |i: int| numbers[i] as nat)
}

/// Whether a method that returned `result` and left the state `after` did what `outcome` says.
pub open spec fn conforms(
    result: Result<(), SigCheckError>,
    after: State,
    outcome: Outcome,
) -> bool {
    match outcome {
        Ok(state) => result is Ok && after == state,
        Err(stop) => {
            &&& result matches Err(error)
            &&& error@ == stop.failure
            &&& after == stop.state
        },
    }
}

impl<'a> VirtualEnv<'a> {
    /// What the stacks hold.
    pub closed spec fn state(self) -> State {
        State {
            stack: items(self.stack@),
            temps: stack_items(self.temp_stacks@),
            functions: signatures(self.function_stack@),
            arrays: naturals(self.array_stack@),
            min_height: self.min_height as nat,
            temp_min_heights: naturals(self.temp_min_heights@),
            popped: naturals(self.popped@),
        }
    }

    /// Simulate popping a value. Fails if the stack is empty, which means that the code has too
    /// many arguments.
    pub fn pop(&mut self) -> (result: Result<BasicValue, SigCheckError>)
        ensures
            match result {
                Ok(value) => {
                    &&& old(self).state().stack.len() > 0
                    &&& value@ == old(self).state().stack.last()
                    &&& final(self).state() == old(self).state().drop_values(1)
                },
                Err(error) => {
                    &&& old(self).state().stack.len() == 0
                    &&& error@ == too_many_args()
                    &&& final(self).state() == old(self).state()
                    &&& final(self).state() == old(self).state().with_stack(Seq::empty())
                },
            },
    {
        broadcast use lemma_items_subrange;

        match self.stack.pop() {
            Some(value) => Ok(value),
            None => {
                assert(self.state().stack =~= Seq::empty());
                Err(SigCheckError::from("function has too many args"))
            },
        }
    }

    /// Simulate popping a value from a temporary stack.
    pub fn pop_temp(&mut self, stack: TempStack) -> (result: Result<BasicValue, SigCheckError>)
        ensures
            match result {
                Ok(value) => {
                    let temp = old(self).state().temps[stack.position()];
                    &&& temp.len() > 0
                    &&& value@ == temp.last()
                    &&& final(self).state() == old(self).state().with_temp(stack, temp.drop_last())
                },
                Err(error) => {
                    &&& old(self).state().temps[stack.position()].len() == 0
                    &&& error@ == too_many_args()
                    &&& final(self).state() == old(self).state()
                },
            },
    {
        broadcast use lemma_items_subrange;

        let popped = self.temp_stacks[stack.index()].pop();
        assert(self.state().temps =~= match popped {
            Some(_) => old(self).state().temps.update(
                stack.position(),
                old(self).state().temps[stack.position()].drop_last(),
            ),
            None => old(self).state().temps,
        });
        match popped {
            Some(value) => Ok(value),
            None => Err(SigCheckError::from("function has too many args")),
        }
    }

    /// Simulate popping a function.
    pub fn pop_func(&mut self) -> (result: Result<&'a Function, SigCheckError>)
        ensures
            match result {
                Ok(function) => {
                    &&& old(self).state().functions.len() > 0
                    &&& function.sig == old(self).state().functions.last()
                    &&& final(self).state() == old(self).state().drop_functions(1)
                },
                Err(error) => {
                    &&& old(self).state().functions.len() == 0
                    &&& error@ == no_function()
                    &&& final(self).state() == old(self).state()
                    &&& final(self).state() == (State {
                        functions: Seq::empty(),
                        ..old(self).state()
                    })
                },
            },
    {
        match self.function_stack.pop() {
            Some(function) => {
                assert(self.state().functions =~= old(self).state().functions.take(
                    old(self).state().functions.len() - 1,
                ));
                Ok(function)
            },
            None => {
                assert(self.state().functions =~= Seq::empty());
                Err(SigCheckError::from("expected function. This is an interpreter bug"))
            },
        }
    }

    /// Set the current stack heights as potential minimums.
    /// At the end of the run, the minimum stack height is a component in calculating the
    /// signature.
    pub fn set_min_height(&mut self)
        ensures
            final(self).state() == old(self).state().note_heights(),
    {
        let height: usize = self.stack.len();
        if height < self.min_height {
            self.min_height = height;
        }
        let arrays: usize = self.array_stack.len();
        if arrays > 0 && height < self.array_stack[arrays - 1] {
            self.array_stack[arrays - 1] = height;
        }
        assert(self.state().arrays =~= old(self).state().note_heights().arrays);
        for i in 0..TempStack::CARDINALITY
            invariant
                self.stack == old(self).stack,
                self.temp_stacks == old(self).temp_stacks,
                self.function_stack == old(self).function_stack,
                self.state().arrays == old(self).state().note_heights().arrays,
                self.min_height == old(self).state().note_heights().min_height,
                self.popped == old(self).popped,
                forall|j: int|
                    0 <= j < TempStack::CARDINALITY ==> #[trigger] self.temp_min_heights@[j] == if j
                        < i {
                        min(old(self).temp_min_heights@[j] as nat, old(self).temp_stacks@[j]@.len())
                    } else {
                        old(self).temp_min_heights@[j] as nat
                    },
        {
            let height: usize = self.temp_stacks[i].len();
            if height < self.temp_min_heights[i] {
                self.temp_min_heights[i] = height;
            }
        }
        assert(self.state() =~= old(self).state().note_heights());
    }

    /// Simulate taking `args` values and leaving `outputs` values.
    pub fn handle_args_outputs(&mut self, args: usize, outputs: usize) -> (result: Result<
        (),
        SigCheckError,
    >)
        ensures
            conforms(
                result,
                final(self).state(),
                old(self).state().handle(args as nat, outputs as nat),
            ),
    {
        broadcast use lemma_items_push;

        let ghost before = self.state();
        for i in 0..args
            invariant
                before == old(self).state(),
                i <= before.stack.len(),
                self.state() == before.drop_values(i as nat),
        {
            assert(i == before.stack.len() ==> self.state() =~= before.with_stack(Seq::empty()));
            self.pop()?;
            assert(self.state() =~= before.drop_values((i + 1) as nat));
        }
        self.set_min_height();
        let ghost below = self.state();
        for i in 0..outputs
            invariant
                self.state() == below.with_stack(below.stack + others(i as nat)),
        {
            let ghost prior = self.state();
            self.stack.push(BasicValue::Other);
            assert(prior.stack.push(Item::Other) =~= below.stack + others((i + 1) as nat));
        }
        Ok(())
    }

    /// Simulate something with the given signature.
    pub fn handle_sig(&mut self, sig: Signature) -> (result: Result<(), SigCheckError>)
        ensures
            conforms(result, final(self).state(), old(self).state().handle_sig(sig)),
    {
        self.handle_args_outputs(sig.args, sig.outputs)
    }

    /// Simulate popping `count` values. They come in the order in which they are popped.
    fn pop_values(&mut self, count: usize) -> (result: Result<Vec<BasicValue>, SigCheckError>)
        ensures
            match result {
                Ok(values) => {
                    &&& old(self).state().stack.len() >= count
                    &&& items(values@) == old(self).state().top_values(count as nat)
                    &&& final(self).state() == old(self).state().drop_values(count as nat)
                },
                Err(error) => {
                    &&& old(self).state().stack.len() < count
                    &&& error@ == too_many_args()
                    &&& final(self).state() == old(self).state().with_stack(Seq::empty())
                },
            },
    {
        broadcast use lemma_items_push;

        let ghost before = self.state();
        let mut values: Vec<BasicValue> = Vec::new();
        assert(items(values@) =~= before.top_values(0));
        for i in 0..count
            invariant
                before == old(self).state(),
                i <= before.stack.len(),
                self.state() == before.drop_values(i as nat),
                items(values@) == before.top_values(i as nat),
        {
            assert(i == before.stack.len() ==> self.state() =~= before.with_stack(Seq::empty()));
            let value = self.pop()?;
            values.push(value);
            assert(self.state() =~= before.drop_values((i + 1) as nat));
            assert(before.top_values((i + 1) as nat) =~= before.top_values(i as nat).push(value@));
        }
        Ok(values)
    }

    /// Simulate popping `count` functions.
    fn pop_funcs(&mut self, count: usize) -> (result: Result<(), SigCheckError>)
        ensures
            match result {
                Ok(_) => {
                    &&& old(self).state().functions.len() >= count
                    &&& final(self).state() == old(self).state().drop_functions(count as nat)
                },
                Err(error) => {
                    &&& old(self).state().functions.len() < count
                    &&& error@ == no_function()
                    &&& final(self).state() == (State {
                        functions: Seq::empty(),
                        ..old(self).state()
                    })
                },
            },
    {
        let ghost before = self.state();
        for i in 0..count
            invariant
                before == old(self).state(),
                i <= before.functions.len(),
                self.state() == before.drop_functions(i as nat),
        {
            assert(i == before.functions.len() ==> self.state() =~= State {
                functions: Seq::empty(),
                ..before
            });
            self.pop_func()?;
            assert(self.state() =~= before.drop_functions((i + 1) as nat));
        }
        Ok(())
    }

    /// Simulate the end of an array.
    fn end_array(&mut self) -> (result: Result<(), SigCheckError>)
        ensures
            conforms(result, final(self).state(), old(self).state().end_array()),
    {
        broadcast use lemma_items_push;

        let ghost before = self.state();
        let height: usize = self.stack.len();
        let bottom: usize = match self.array_stack.pop() {
            Some(lowest) => if lowest < height {
                lowest
            } else {
                height
            },
            None => {
                return Err(SigCheckError::from("EndArray without BeginArray"));
            },
        };
        assert(self.state() =~= State { arrays: before.arrays.drop_last(), ..before });
        let collected = self.pop_values(height - bottom)?;
        self.set_min_height();
        self.stack.push(BasicValue::list(collected));
        Ok(())
    }

    /// Put a value on a temporary stack.
    fn push_value_temp(&mut self, stack: TempStack, value: BasicValue)
        ensures
            final(self).state() == old(self).state().with_temp(
                stack,
                old(self).state().temps[stack.position()].push(value@),
            ),
    {
        broadcast use lemma_items_push;

        self.temp_stacks[stack.index()].push(value);
        assert(self.state().temps =~= old(self).state().with_temp(
            stack,
            old(self).state().temps[stack.position()].push(value@),
        ).temps);
    }

    /// Put values on a temporary stack.
    fn push_all_temp(&mut self, stack: TempStack, values: Vec<BasicValue>)
        ensures
            final(self).state() == old(self).state().with_temp(
                stack,
                old(self).state().temps[stack.position()] + items(values@),
            ),
    {
        broadcast use lemma_items_add;

        let mut rest = values;
        self.temp_stacks[stack.index()].append(&mut rest);
        assert(self.state().temps =~= old(self).state().with_temp(
            stack,
            old(self).state().temps[stack.position()] + items(values@),
        ).temps);
    }

    /// Simulate moving `count` values to a temporary stack.
    fn push_temp(&mut self, stack: TempStack, count: usize) -> (result: Result<(), SigCheckError>)
        ensures
            conforms(result, final(self).state(), old(self).state().push_temp(stack, count as nat)),
    {
        broadcast use lemma_items_push;

        let ghost before = self.state();
        let ghost place = stack.position();
        let ghost temp = before.temps[place];
        assert(temp + before.top_values(0) =~= temp);
        assert(before.temps.update(place, temp) =~= before.temps);
        for i in 0..count
            invariant
                before == old(self).state(),
                place == stack.position(),
                temp == before.temps[place],
                before.temps.len() == TempStack::CARDINALITY,
                i <= before.stack.len(),
                self.state() == before.drop_values(i as nat).with_temp(
                    stack,
                    temp + before.top_values(i as nat),
                ),
        {
            assert(i == before.stack.len() ==> self.state().stack =~= Seq::empty());
            let value = self.pop()?;
            let ghost prior = self.state();
            self.push_value_temp(stack, value);
            assert(before.top_values((i + 1) as nat) =~= before.top_values(i as nat).push(value@));
            assert(prior.temps[place].push(value@) =~= temp + before.top_values((i + 1) as nat));
            assert(self.state().temps =~= before.temps.update(
                place,
                temp + before.top_values((i + 1) as nat),
            ));
            assert(self.state().stack =~= before.drop_values((i + 1) as nat).stack);
        }
        self.set_min_height();
        Ok(())
    }

    /// Simulate copying `count` values to a temporary stack.
    fn copy_to_temp(&mut self, stack: TempStack, count: usize) -> (result: Result<
        (),
        SigCheckError,
    >)
        ensures
            conforms(
                result,
                final(self).state(),
                old(self).state().copy_to_temp(stack, count as nat),
            ),
    {
        broadcast use {lemma_items_add, lemma_items_push};

        let mut values = self.pop_values(count)?;
        self.set_min_height();
        let mut copies: Vec<BasicValue> = Vec::new();
        for i in 0..values.len()
            invariant
                items(copies@) == items(values@).take(i as int),
        {
            copies.push(values[i].clone());
            assert(items(values@).take(i + 1) =~= items(values@).take(
                i as int,
            ).push(values@[i as int]@));
        }
        assert(items(copies@) =~= items(values@));
        self.push_all_temp(stack, copies);
        self.stack.append(&mut values);
        Ok(())
    }

    /// Simulate moving `count` values back from a temporary stack.
    fn pop_from_temp(&mut self, stack: TempStack, count: usize) -> (result: Result<
        (),
        SigCheckError,
    >)
        ensures
            conforms(result, final(self).state(), old(self).state().pop_temp(stack, count as nat)),
    {
        broadcast use lemma_items_push;

        let ghost before = self.state();
        let ghost temp = before.temps[stack.position()];
        assert(temp.take(temp.len() as int) =~= temp);
        assert(before.temps.update(stack.position(), temp) =~= before.temps);
        assert(before.stack + temp.skip(temp.len() as int).reverse() =~= before.stack);
        for i in 0..count
            invariant
                before == old(self).state(),
                temp == before.temps[stack.position()],
                before.temps.len() == TempStack::CARDINALITY,
                i <= temp.len(),
                self.state() == before.with_stack(
                    before.stack + temp.skip(temp.len() - i).reverse(),
                ).with_temp(stack, temp.take(temp.len() - i)),
        {
            assert(i == temp.len() ==> {
                &&& temp.skip(temp.len() - i) =~= temp
                &&& temp.take(temp.len() - i) =~= Seq::empty()
            });
            let value = self.pop_temp(stack)?;
            let ghost prior = self.state();
            self.stack.push(value);
            assert(self.state().stack == prior.stack.push(value@));
            assert(temp.take(temp.len() - i).drop_last() =~= temp.take(temp.len() - (i + 1)));
            assert(before.temps.update(stack.position(), temp.take(temp.len() - i)).update(
                stack.position(),
                temp.take(temp.len() - (i + 1)),
            ) =~= before.temps.update(stack.position(), temp.take(temp.len() - (i + 1))));
            assert(temp.skip(temp.len() - (i + 1)).reverse() =~= temp.skip(
                temp.len() - i,
            ).reverse().push(value@));
            assert(self.state().stack =~= before.stack + temp.skip(temp.len() - (i + 1)).reverse());
        }
        self.set_min_height();
        Ok(())
    }

    /// Simulate a choice between functions.
    fn switch(&mut self, count: usize, sig: Signature, under_cond: bool) -> (result: Result<
        (),
        SigCheckError,
    >)
        ensures
            conforms(
                result,
                final(self).state(),
                old(self).state().switch(count as nat, sig, under_cond),
            ),
    {
        self.pop_funcs(count)?;
        let cond = self.pop()?;
        if under_cond {
            self.push_value_temp(TempStack::Under, cond);
        }
        self.handle_args_outputs(sig.args, sig.outputs)
    }

    /// Simulate something that takes `count` functions and does what the topmost does.
    fn call_first_of(&mut self, count: usize) -> (result: Result<(), SigCheckError>)
        requires
            count > 0,
        ensures
            conforms(result, final(self).state(), old(self).state().call_first_of(count as nat)),
    {
        let sig = self.pop_func()?.signature();
        self.pop_funcs(count - 1)?;
        assert(self.state() =~= old(self).state().drop_functions(count as nat));
        self.handle_sig(sig)
    }

    /// The failure of a loop, described by what comes before the signature of its body.
    fn loop_error(description: &str, sig: Signature) -> (error: SigCheckError)
        ensures
            error@ == incorrect(description@ + signature_text(sig)),
    {
        let mut message = description.to_owned();
        sig.push_text(&mut message);
        SigCheckError::from(message)
    }

    /// Simulate code that is repeated an unknown number of times.
    fn endless(&mut self, sig: Signature, description: &str, inf: bool) -> (result: Result<
        (),
        SigCheckError,
    >)
        ensures
            conforms(
                result,
                final(self).state(),
                old(self).state().endless(sig, description@, inf),
            ),
    {
        if sig.args > sig.outputs {
            return Err(VirtualEnv::loop_error(description, sig).loop_overreach());
        }
        if sig.args < sig.outputs && self.array_stack.is_empty() {
            return Err(VirtualEnv::loop_error(description, sig).loop_excess(sig, inf));
        }
        self.handle_sig(sig)
    }

    /// Simulate a repeated function.
    fn repeat(&mut self) -> (result: Result<(), SigCheckError>)
        requires
            old(self).state().repeat_fits(),
        ensures
            conforms(result, final(self).state(), old(self).state().repeat()),
    {
        let sig = self.pop_func()?.signature();
        let times = self.pop()?;
        match times {
            BasicValue::Num(bits) => match count(bits) {
                // If the count is a known natural number, then the function can have any
                // signature.
                Count::Natural(n) => {
                    if n == 0 {
                        return Ok(());
                    }
                    let (args, outputs): (usize, usize) = if sig.args == sig.outputs {
                        (sig.args, sig.outputs)
                    } else if sig.args < sig.outputs {
                        (sig.args, n * (sig.outputs - sig.args) + sig.args)
                    } else {
                        ((n - 1) * (sig.args - sig.outputs) + sig.args, sig.outputs)
                    };
                    self.handle_args_outputs(args, outputs)
                },
                Count::Infinite => self.endless(
                    sig,
                    "repeat with infinity and a function with signature ",
                    true,
                ),
                Count::Neither => Err(
                    SigCheckError::from("repeat without a natural number or infinity"),
                ),
            },
            // If the count is unknown, then what we do depends on the signature.
            _ => self.endless(sig, "repeat with no number and a function with signature ", false),
        }
    }

    /// Simulate a loop with a condition.
    fn do_loop(&mut self) -> (result: Result<(), SigCheckError>)
        requires
            old(self).state().do_loop_fits(),
        ensures
            conforms(result, final(self).state(), old(self).state().do_loop()),
    {
        let body_sig = self.pop_func()?.signature();
        let cond_sig = self.pop_func()?.signature();
        assert(self.state() =~= old(self).state().drop_functions(2));
        let copy_count: usize = cond_sig.args.saturating_sub(cond_sig.outputs.saturating_sub(1));
        let cond_sub_sig = Signature::new(
            cond_sig.args,
            (cond_sig.outputs + copy_count).saturating_sub(1),
        );
        let comp_sig = body_sig.compose(cond_sub_sig);
        if comp_sig.args < comp_sig.outputs && self.array_stack.is_empty() {
            return Err(
                VirtualEnv::loop_error(
                    "do with a function with signature ",
                    comp_sig,
                ).loop_excess(comp_sig, false),
            );
        }
        self.handle_args_outputs(
            comp_sig.args,
            comp_sig.outputs + cond_sub_sig.outputs.saturating_sub(cond_sig.args),
        )
    }

    /// Simulate a function with a fill value.
    fn fill(&mut self) -> (result: Result<(), SigCheckError>)
        ensures
            conforms(result, final(self).state(), old(self).state().fill()),
    {
        let fill_sig = self.pop_func()?.signature();
        if fill_sig.outputs > 0 {
            self.handle_sig(fill_sig)?;
        }
        self.handle_args_outputs(fill_sig.outputs, 0)?;
        self.call_first_of(1)
    }

    /// Simulate joining two values.
    fn join(&mut self) -> (result: Result<(), SigCheckError>)
        ensures
            conforms(result, final(self).state(), old(self).state().join()),
    {
        broadcast use {lemma_items_add, lemma_items_push};

        let a = self.pop()?;
        let b = self.pop()?;
        assert(self.state() =~= old(self).state().drop_values(2));
        self.set_min_height();
        self.stack.push(join_values(a, b));
        Ok(())
    }

    /// Simulate a primitive.
    fn prim(&mut self, prim: &Primitive) -> (result: Result<(), SigCheckError>)
        requires
            prim.op is Repeat ==> old(self).state().repeat_fits(),
            prim.op is Do ==> old(self).state().do_loop_fits(),
        ensures
            conforms(result, final(self).state(), old(self).state().prim(*prim)),
    {
        broadcast use lemma_items_push;

        match prim.op {
            PrimOp::Reduce => self.reduce(),
            PrimOp::Scan => {
                self.pop_func()?;
                self.handle_args_outputs(1, 1)
            },
            PrimOp::Each
            | PrimOp::Rows
            | PrimOp::Inventory
            | PrimOp::Table
            | PrimOp::Fold
            | PrimOp::Content
            | PrimOp::Memo
            | PrimOp::Comptime => self.call_first_of(1),
            PrimOp::Group | PrimOp::Partition => {
                let sig = self.pop_func()?.signature();
                self.handle_args_outputs(2, sig.outputs)
            },
            PrimOp::Spawn | PrimOp::Pool => {
                let sig = self.pop_func()?.signature();
                self.handle_args_outputs(sig.args, 1)
            },
            PrimOp::Repeat => self.repeat(),
            PrimOp::Do => self.do_loop(),
            PrimOp::Un => {
                let sig = self.pop_func()?.signature();
                self.handle_args_outputs(sig.outputs, sig.args)
            },
            PrimOp::Try | PrimOp::SetInverse => self.call_first_of(2),
            PrimOp::SetUnder => self.call_first_of(3),
            PrimOp::Fill => self.fill(),
            PrimOp::Dup => {
                let value = self.pop()?;
                self.set_min_height();
                let copy = value.clone();
                self.stack.push(copy);
                self.stack.push(value);
                Ok(())
            },
            PrimOp::Flip => {
                let a = self.pop()?;
                let b = self.pop()?;
                assert(self.state() =~= old(self).state().drop_values(2));
                self.set_min_height();
                self.stack.push(a);
                self.stack.push(b);
                Ok(())
            },
            PrimOp::Pop => {
                let value = self.pop()?;
                let ghost taken = self.state();
                if let BasicValue::Unknown(depth) = value {
                    self.popped.push(depth);
                    assert(self.state().popped =~= taken.popped.push(depth as nat));
                }
                self.set_min_height();
                Ok(())
            },
            PrimOp::Over => {
                let a = self.pop()?;
                let b = self.pop()?;
                assert(self.state() =~= old(self).state().drop_values(2));
                self.set_min_height();
                let copy = b.clone();
                self.stack.push(copy);
                self.stack.push(a);
                self.stack.push(b);
                Ok(())
            },
            PrimOp::Join => self.join(),
            PrimOp::Dump => {
                self.pop_func()?;
                Ok(())
            },
            PrimOp::Other => self.plain(prim),
        }
    }

    /// Simulate a primitive that only the compiler emits.
    fn impl_prim(&mut self, prim: &ImplPrimitive) -> (result: Result<(), SigCheckError>)
        ensures
            conforms(result, final(self).state(), old(self).state().impl_prim(*prim)),
    {
        match prim.op {
            ImplOp::ReduceContent | ImplOp::ReduceDepth(_) => self.reduce(),
            ImplOp::Other => {
                self.pop_funcs(prim.modifier_args.unwrap_or(0))?;
                self.handle_args_outputs(prim.args, prim.outputs)
            },
        }
    }

    /// Simulate a reduction.
    fn reduce(&mut self) -> (result: Result<(), SigCheckError>)
        ensures
            conforms(result, final(self).state(), old(self).state().reduce()),
    {
        let sig = self.pop_func()?.signature();
        self.handle_args_outputs(sig.args.saturating_sub(sig.outputs), sig.outputs)
    }

    /// Simulate a primitive of which only the numbers of arguments, functions and outputs are
    /// known.
    fn plain(&mut self, prim: &Primitive) -> (result: Result<(), SigCheckError>)
        ensures
            conforms(result, final(self).state(), old(self).state().plain(*prim)),
    {
        let args: usize = match prim.args {
            Some(args) => args,
            None => {
                return Err(
                    SigCheckError::from(prim.name.clone().concat(" has indeterminate args")),
                );
            },
        };
        self.pop_funcs(prim.modifier_args.unwrap_or(0))?;
        let outputs: usize = match prim.outputs {
            Some(outputs) => outputs,
            None => {
                return Err(
                    SigCheckError::from(prim.name.clone().concat(" has indeterminate outputs")),
                );
            },
        };
        self.handle_args_outputs(args, outputs)
    }

    /// Simulate an instruction other than [`Instr::PushSig`] and [`Instr::PopSig`], which speak
    /// of the instructions around them.
    pub fn instr(&mut self, instr: &'a Instr) -> (result: Result<(), SigCheckError>)
        requires
            !(instr is PushSig),
            !(instr is PopSig),
            old(self).state().step_fits(*instr),
        ensures
            conforms(result, final(self).state(), old(self).state().step(*instr)),
    {
        broadcast use lemma_items_push;

        match instr {
            Instr::Comment(_) => Ok(()),
            Instr::Push(value) => {
                self.stack.push(BasicValue::from_val(value));
                Ok(())
            },
            Instr::CallGlobal { call, .. } => {
                if *call {
                    self.handle_args_outputs(0, 1)
                } else {
                    Ok(())
                }
            },
            Instr::BindGlobal { .. } => self.handle_args_outputs(1, 0),
            Instr::BeginArray => {
                self.array_stack.push(self.stack.len());
                assert(self.state().arrays =~= old(self).state().arrays.push(
                    old(self).state().stack.len(),
                ));
                Ok(())
            },
            Instr::EndArray { .. } => self.end_array(),
            Instr::Call(_) | Instr::CallRecursive(_) => self.call_first_of(1),
            Instr::Recur(_) => Err(SigCheckError::from("recur present").ambiguous()),
            Instr::PushTemp { stack, count, .. } => self.push_temp(*stack, *count),
            Instr::CopyToTemp { stack, count, .. } => self.copy_to_temp(*stack, *count),
            Instr::PopTemp { stack, count, .. } => self.pop_from_temp(*stack, *count),
            Instr::Label { .. } => self.handle_args_outputs(1, 1),
            Instr::PushFunc(function) => {
                self.function_stack.push(function);
                assert(self.state().functions =~= old(self).state().functions.push(function.sig));
                Ok(())
            },
            Instr::Switch { count, sig, under_cond, .. } => self.switch(*count, *sig, *under_cond),
            Instr::Format { parts, .. } => self.handle_args_outputs(
                parts.len().saturating_sub(1),
                1,
            ),
            Instr::MatchFormatPattern { parts, .. } => self.handle_args_outputs(
                1,
                parts.len().saturating_sub(1),
            ),
            Instr::StackSwizzle(swizzle, _) => self.handle_sig(swizzle.signature),
            Instr::Dynamic(function) => self.handle_sig(function.signature),
            Instr::Unpack { count, .. } => self.handle_args_outputs(1, *count),
            Instr::TouchStack { count, .. } => self.handle_args_outputs(*count, *count),
            Instr::Prim(prim, _) => self.prim(prim),
            Instr::ImplPrim(prim, _) => self.impl_prim(prim),
            Instr::PushSig(_) | Instr::PopSig => Ok(()),
            Instr::SetOutputComment { .. } => Ok(()),
            Instr::NoInline => Ok(()),
        }
    }

    /// Simulate instructions.
    pub fn instrs(&mut self, instrs: &'a [Instr]) -> (result: Result<(), SigCheckError>)
        requires
            run_fits(old(self).state(), instrs@, 0),
        ensures
            conforms(result, final(self).state(), run(old(self).state(), instrs@, 0)),
    {
        let ghost outcome = run(self.state(), instrs@, 0);
        let mut i: usize = 0;
        while i < instrs.len()
            invariant
                outcome == run(old(self).state(), instrs@, 0),
                run(self.state(), instrs@, i as int) == outcome,
                run_fits(self.state(), instrs@, i as int),
            decreases instrs.len() - i,
        {
            match &instrs[i] {
                Instr::PushSig(sig) => {
                    let end = matching_pop_sig(instrs, i + 1);
                    self.handle_sig(*sig)?;
                    if end == instrs.len() {
                        assert(run(self.state(), instrs@, end + 1) == Ok::<
                            State,
                            Stop,
                        >(self.state()));
                        return Ok(());
                    }
                    i = end;
                },
                Instr::PopSig => {
                    return Err(
                        SigCheckError::from(
                            "PopSig without PushSig. It is a bug in the interpreter for you to see this message.",
                        ),
                    );
                },
                instr => {
                    self.instr(instr)?;
                },
            }
            i += 1;
        }
        Ok(())
    }

    /// Simulate instructions from the start.
    pub fn from_instrs(instrs: &'a [Instr]) -> (result: Result<VirtualEnv<'a>, SigCheckError>)
        requires
            runnable(instrs@),
        ensures
            match run_all(instrs@) {
                Ok(state) => result matches Ok(env) && env.state() == state,
                Err(stop) => result matches Err(error) && error@ == stop.failure,
            },
    {
        broadcast use lemma_items_push;

        let mut stack: Vec<BasicValue> = Vec::new();
        let mut temp_stacks: [Vec<BasicValue>; TempStack::CARDINALITY] = [Vec::new(), Vec::new()];
        for i in 0..START_HEIGHT
            invariant
                items(stack@) == start().stack.take(i as int),
        {
            stack.push(BasicValue::Unknown(START_HEIGHT - 1 - i));
            assert(start().stack.take(i + 1) =~= start().stack.take(
                i as int,
            ).push(Item::Unknown((START_HEIGHT - 1 - i) as nat)));
        }
        for j in 0..TempStack::CARDINALITY
            invariant
                forall|k: int|
                    0 <= k < j ==> items(#[trigger] temp_stacks@[k]@)
                        == others(START_HEIGHT as nat),
        {
            temp_stacks[j] = other_values(START_HEIGHT);
        }
        let mut env = VirtualEnv {
            stack,
            temp_stacks,
            function_stack: Vec::new(),
            array_stack: Vec::new(),
            min_height: START_HEIGHT,
            temp_min_heights: [START_HEIGHT; TempStack::CARDINALITY],
            popped: Vec::new(),
        };
        assert(env.state() =~= start());
        proof {
            runnable_code_fits(instrs@);
        }
        env.instrs(instrs)?;
        Ok(env)
    }

    /// The signature of the code.
    pub fn sig(&self) -> (sig: Signature)
        requires
            self.state().min_height <= self.state().stack.len(),
        ensures
            sig == self.state().sig(),
    {
        derive_sig(self.min_height, self.stack.len())
    }

    /// The signatures of the code as regards the temporary stacks.
    pub fn temp_signatures(&self) -> (sigs: [Signature; TempStack::CARDINALITY])
        requires
            self.state().temps_sound(),
        ensures
            sigs@ == self.state().temp_sigs(),
    {
        let mut sigs = [Signature::new(0, 0); TempStack::CARDINALITY];
        for i in 0..TempStack::CARDINALITY
            invariant
                self.state().temps_sound(),
                forall|j: int| 0 <= j < i ==> #[trigger] sigs@[j] == self.state().temp_sigs()[j],
        {
            assert(self.state().temp_min_heights[i as int] <= self.state().temps[i as int].len());
            sigs[i] = derive_sig(self.temp_min_heights[i], self.temp_stacks[i].len());
        }
        assert(sigs@ =~= self.state().temp_sigs());
        sigs
    }
}

/// The place of the [`Instr::PopSig`] that ends the code from `start` on, or the end.
fn matching_pop_sig(instrs: &[Instr], start: usize) -> (end: usize)
    requires
        start <= instrs@.len(),
    ensures
        end == pop_sig_after(instrs@, start as int, 0),
        start <= end <= instrs@.len(),
{
    let mut depth: usize = 0;
    let mut i: usize = start;
    while i < instrs.len()
        invariant
            start <= i <= instrs@.len(),
            depth <= i - start,
            pop_sig_after(instrs@, i as int, depth as nat)
                == pop_sig_after(instrs@, start as int, 0),
        decreases instrs.len() - i,
    {
        match &instrs[i] {
            Instr::PushSig(_) => {
                depth += 1;
            },
            Instr::PopSig => {
                if depth == 0 {
                    return i;
                }
                depth -= 1;
            },
            _ => {},
        }
        i += 1;
    }
    i
}

/// The signature of code that reached down to `min_height` and ended at `final_height`.
pub fn derive_sig(min_height: usize, final_height: usize) -> (sig: Signature)
    requires
        min_height <= final_height,
    ensures
        sig.args == if min_height < START_HEIGHT {
            START_HEIGHT - min_height
        } else {
            0
        },
        sig.outputs == final_height - min_height,
{
    Signature {
        args: START_HEIGHT.saturating_sub(min_height),
        outputs: final_height - min_height,
    }
}

/// The elements of a list, or the value itself.
fn into_list(value: BasicValue) -> (list: Vec<BasicValue>)
    ensures
        items(list@) == as_list(value@),
{
    match value {
        BasicValue::Arr(elements) => {
            assert(value@->Arr_0 =~= items(elements@));
            elements
        },
        value => {
            let list = vec![value];
            assert(items(list@) =~= seq![value@]);
            list
        },
    }
}

/// The list of what `a` and `b` hold.
fn join_values(a: BasicValue, b: BasicValue) -> (list: BasicValue)
    ensures
        list@ == joined(a@, b@),
{
    broadcast use lemma_items_add;

    let mut list = into_list(a);
    let mut rest = into_list(b);
    list.append(&mut rest);
    BasicValue::list(list)
}

} // verus!
