use sigcheck::check;
use sigcheck::error::{SigCheckError, SigCheckErrorKind};
use sigcheck::instr::Instr;
use sigcheck::instr::Instr::{
    BeginArray, BindGlobal, Call, CallGlobal, CallRecursive, Comment, CopyToTemp, Dynamic,
    EndArray, Format, ImplPrim, Label, MatchFormatPattern, NoInline, PopSig, PopTemp, Prim, Push,
    PushFunc, PushSig, PushTemp, Recur, SetOutputComment, Switch, TouchStack, Unpack,
};
use sigcheck::instr::{
    DynamicFunction, Function, ImplOp, ImplPrimitive, PrimOp, Primitive, StackSwizzle, TempStack,
};
use sigcheck::signature::Signature;
use sigcheck::value::{Array, Value};

fn push(n: f64) -> Instr {
    Push(Value::Num(Array::new(vec![], vec![n.to_bits()])))
}

fn prim(name: &str, args: usize, outputs: usize) -> Primitive {
    Primitive {
        op: PrimOp::Other,
        name: name.to_string(),
        args: Some(args),
        outputs: Some(outputs),
        modifier_args: None,
    }
}

fn identity() -> Primitive {
    prim("identity", 1, 1)
}

fn pow() -> Primitive {
    prim("power", 2, 1)
}

fn plus() -> Primitive {
    prim("add", 2, 1)
}

/// A primitive whose numbers of arguments and outputs are not fixed.
fn op(op: PrimOp) -> Instr {
    Prim(
        Primitive { op, name: format!("{:?}", op), args: None, outputs: None, modifier_args: None },
        0,
    )
}

fn func(args: usize, outputs: usize) -> Instr {
    PushFunc(Function { sig: Signature::new(args, outputs) })
}

fn sig_of(instrs: &[Instr]) -> (usize, usize) {
    let sig = check::instrs_signature(instrs).unwrap();
    (sig.args, sig.outputs)
}

fn error_of(instrs: &[Instr]) -> SigCheckError {
    check::instrs_signature(instrs).unwrap_err()
}

fn incorrect(message: &str) -> SigCheckError {
    SigCheckError { message: message.to_string(), kind: SigCheckErrorKind::Incorrect }
}

const TOO_MANY_ARGS: &str = "function has too many args";
const NO_FUNCTION: &str = "expected function. This is an interpreter bug";

#[test]
fn instrs_signature() {
    let check = |instrs: &[Instr]| -> Result<Signature, SigCheckError> {
        check::instrs_signature(instrs)
    };
    fn sig(a: usize, o: usize) -> Signature {
        Signature { args: a, outputs: o }
    }
    assert_eq!(Ok(sig(0, 0)), check(&[]));
    assert_eq!(Ok(sig(1, 1)), check(&[Prim(identity(), 0)]));

    assert_eq!(Ok(sig(0, 1)), check(&[push(10.0), push(2.0), Prim(pow(), 0)]));
    assert_eq!(
        Ok(sig(1, 1)),
        check(&[push(10.0), push(2.0), Prim(pow(), 0), Prim(plus(), 0)])
    );
    assert_eq!(Ok(sig(1, 1)), check(&[push(1.0), Prim(plus(), 0)]));

    assert_eq!(
        Ok(sig(0, 1)),
        check(&[
            BeginArray,
            push(3.0),
            push(2.0),
            push(1.0),
            EndArray { span: 0, boxed: false }
        ])
    );
    assert_eq!(
        Ok(sig(1, 1)),
        check(&[
            BeginArray,
            push(3.0),
            push(2.0),
            push(1.0),
            EndArray { span: 0, boxed: false },
            Prim(plus(), 0)
        ])
    );
}

#[test]
fn remarks_do_nothing() {
    assert_eq!(
        sig_of(&[Comment("hi".to_string()), SetOutputComment { i: 0, n: 1 }, NoInline]),
        (0, 0)
    );
}

#[test]
fn globals() {
    assert_eq!(sig_of(&[CallGlobal { index: 0, call: true }]), (0, 1));
    assert_eq!(sig_of(&[CallGlobal { index: 0, call: false }]), (0, 0));
    assert_eq!(sig_of(&[push(1.0), BindGlobal { index: 0, span: 0 }]), (0, 0));
}

#[test]
fn binding_takes_a_value() {
    let binding = || BindGlobal { index: 0, span: 0 };
    assert_eq!(sig_of(&[binding()]), (1, 0));
    assert_eq!(sig_of(&[binding(), push(1.0)]), (1, 1));
    assert_eq!(sig_of(&[binding(), binding(), push(1.0)]), (2, 1));
    let too_many: Vec<Instr> = (0..17).map(|_| binding()).collect();
    assert_eq!(error_of(&too_many), incorrect(TOO_MANY_ARGS));
}

#[test]
fn arrays_collect_what_was_pushed() {
    let end = || EndArray { boxed: true, span: 0 };
    assert_eq!(sig_of(&[BeginArray, end()]), (0, 1));
    assert_eq!(sig_of(&[BeginArray, push(1.0), BeginArray, push(2.0), end(), end()]), (0, 1));
    // What is taken from outside the array counts as arguments.
    assert_eq!(sig_of(&[BeginArray, Prim(plus(), 0), end()]), (2, 1));
    assert_eq!(sig_of(&[BeginArray, BeginArray, Prim(plus(), 0), end(), end()]), (2, 1));
    assert_eq!(error_of(&[end(), push(1.0)]), incorrect("EndArray without BeginArray"));
}

#[test]
fn calls_have_the_signature_of_the_function() {
    assert_eq!(sig_of(&[func(3, 2), Call(0)]), (3, 2));
    assert_eq!(sig_of(&[func(3, 2), CallRecursive(0)]), (3, 2));
    assert_eq!(error_of(&[Call(0)]), incorrect(NO_FUNCTION));
    let looked_up = DynamicFunction { index: 0, signature: Signature::new(2, 4) };
    assert_eq!(sig_of(&[Dynamic(looked_up)]), (2, 4));
}

#[test]
fn recursion_is_ambiguous() {
    assert_eq!(
        error_of(&[Recur(0)]),
        SigCheckError {
            message: "recur present".to_string(),
            kind: SigCheckErrorKind::Ambiguous
        }
    );
}

#[test]
fn fixed_effects() {
    let parts = |n: usize| vec![String::new(); n];
    assert_eq!(sig_of(&[Label { label: "x".to_string(), span: 0 }]), (1, 1));
    assert_eq!(sig_of(&[Format { parts: parts(3), span: 0 }]), (2, 1));
    assert_eq!(sig_of(&[Format { parts: parts(0), span: 0 }]), (0, 1));
    assert_eq!(sig_of(&[MatchFormatPattern { parts: parts(3), span: 0 }]), (1, 2));
    assert_eq!(sig_of(&[Unpack { count: 3, span: 0, unbox: false }]), (1, 3));
    assert_eq!(sig_of(&[TouchStack { count: 5, span: 0 }]), (5, 5));
    let swizzle = StackSwizzle { signature: Signature::new(3, 4) };
    assert_eq!(sig_of(&[Instr::StackSwizzle(swizzle, 0)]), (3, 4));
}

#[test]
fn there_are_sixteen_values_at_the_start() {
    assert_eq!(sig_of(&[TouchStack { count: 16, span: 0 }]), (16, 16));
    assert_eq!(error_of(&[TouchStack { count: 17, span: 0 }]), incorrect(TOO_MANY_ARGS));
}

#[test]
fn modifiers_that_take_one_function() {
    let with = |o: PrimOp, a: usize, b: usize| sig_of(&[func(a, b), op(o)]);
    assert_eq!(with(PrimOp::Reduce, 2, 1), (1, 1));
    assert_eq!(with(PrimOp::Reduce, 3, 1), (2, 1));
    assert_eq!(with(PrimOp::Reduce, 1, 2), (0, 2));
    assert_eq!(with(PrimOp::Scan, 2, 1), (1, 1));
    for o in [
        PrimOp::Each,
        PrimOp::Rows,
        PrimOp::Inventory,
        PrimOp::Table,
        PrimOp::Fold,
        PrimOp::Content,
        PrimOp::Memo,
        PrimOp::Comptime,
    ] {
        assert_eq!(with(o, 3, 2), (3, 2));
    }
    assert_eq!(with(PrimOp::Group, 1, 3), (2, 3));
    assert_eq!(with(PrimOp::Partition, 1, 3), (2, 3));
    assert_eq!(with(PrimOp::Spawn, 4, 3), (4, 1));
    assert_eq!(with(PrimOp::Pool, 4, 3), (4, 1));
    assert_eq!(with(PrimOp::Un, 1, 3), (3, 1));
    assert_eq!(with(PrimOp::Dump, 1, 3), (0, 0));
    assert_eq!(error_of(&[op(PrimOp::Reduce)]), incorrect(NO_FUNCTION));
    assert_eq!(error_of(&[op(PrimOp::Dump)]), incorrect(NO_FUNCTION));
}

#[test]
fn modifiers_that_take_more_functions() {
    assert_eq!(sig_of(&[func(1, 1), func(2, 3), op(PrimOp::Try)]), (2, 3));
    assert_eq!(sig_of(&[func(1, 1), func(2, 3), op(PrimOp::SetInverse)]), (2, 3));
    assert_eq!(
        sig_of(&[func(1, 1), func(1, 1), func(2, 3), op(PrimOp::SetUnder)]),
        (2, 3)
    );
    assert_eq!(error_of(&[func(2, 3), op(PrimOp::Try)]), incorrect(NO_FUNCTION));
    assert_eq!(
        error_of(&[func(1, 1), func(2, 3), op(PrimOp::SetUnder)]),
        incorrect(NO_FUNCTION)
    );
}

#[test]
fn fill_makes_a_value_and_uses_it() {
    assert_eq!(sig_of(&[func(2, 1), func(0, 1), op(PrimOp::Fill)]), (2, 1));
    assert_eq!(sig_of(&[func(2, 1), func(1, 1), op(PrimOp::Fill)]), (3, 1));
    assert_eq!(sig_of(&[func(2, 1), func(3, 0), op(PrimOp::Fill)]), (2, 1));
    assert_eq!(error_of(&[func(0, 1), op(PrimOp::Fill)]), incorrect(NO_FUNCTION));
}

#[test]
fn shuffles() {
    assert_eq!(sig_of(&[op(PrimOp::Dup)]), (1, 2));
    assert_eq!(sig_of(&[op(PrimOp::Flip)]), (2, 2));
    assert_eq!(sig_of(&[op(PrimOp::Pop)]), (1, 0));
    assert_eq!(sig_of(&[op(PrimOp::Over)]), (2, 3));
    assert_eq!(sig_of(&[op(PrimOp::Join)]), (2, 1));
}

#[test]
fn repeat_with_a_known_number() {
    let repeat = |n: f64, a: usize, b: usize| sig_of(&[push(n), func(a, b), op(PrimOp::Repeat)]);
    assert_eq!(repeat(0.0, 2, 1), (0, 0));
    assert_eq!(repeat(1.0, 2, 1), (2, 1));
    assert_eq!(repeat(3.0, 2, 1), (4, 1));
    assert_eq!(repeat(3.0, 1, 2), (1, 4));
    assert_eq!(repeat(3.0, 2, 2), (2, 2));
    assert_eq!(repeat(1e300, 2, 2), (2, 2));
    let byte = Push(Value::Byte(Array::new(vec![], vec![4])));
    assert_eq!(sig_of(&[byte, func(2, 1), op(PrimOp::Repeat)]), (5, 1));
    assert_eq!(
        error_of(&[push(20.0), func(2, 1), op(PrimOp::Repeat)]),
        incorrect(TOO_MANY_ARGS)
    );
}

#[test]
fn known_repetition_does_what_iteration_does() {
    for n in 1..5usize {
        for (a, b) in [(2, 1), (1, 2), (2, 2), (3, 0), (0, 3)] {
            let mut iterated: Vec<Instr> = Vec::new();
            for _ in 0..n {
                iterated.push(func(a, b));
                iterated.push(Call(0));
            }
            assert_eq!(
                sig_of(&[push(n as f64), func(a, b), op(PrimOp::Repeat)]),
                sig_of(&iterated)
            );
        }
    }
}

#[test]
fn a_number_can_take_a_detour() {
    let stack = TempStack::Inline;
    assert_eq!(
        sig_of(&[
            push(3.0),
            PushTemp { stack, count: 1, span: 0 },
            PopTemp { stack, count: 1, span: 0 },
            func(2, 1),
            op(PrimOp::Repeat)
        ]),
        (4, 1)
    );
    assert_eq!(
        sig_of(&[push(3.0), op(PrimOp::Dup), op(PrimOp::Pop), func(2, 1), op(PrimOp::Repeat)]),
        (4, 1)
    );
    assert_eq!(
        sig_of(&[push(3.0), push(9.0), op(PrimOp::Flip), func(1, 2), op(PrimOp::Repeat)]),
        (0, 4)
    );
    assert_eq!(
        sig_of(&[push(3.0), push(9.0), op(PrimOp::Over), func(1, 2), op(PrimOp::Repeat)]),
        (0, 5)
    );
}

#[test]
fn repeat_with_infinity() {
    let message = |sig: &str| {
        format!("repeat with infinity and a function with signature {}", sig)
    };
    let repeat = |a: usize, b: usize| {
        check::instrs_signature(&[push(f64::INFINITY), func(a, b), op(PrimOp::Repeat)])
    };
    assert_eq!(repeat(2, 2), Ok(Signature::new(2, 2)));
    assert_eq!(
        repeat(2, 1),
        Err(SigCheckError { message: message("|2.1"), kind: SigCheckErrorKind::LoopOverreach })
    );
    assert_eq!(
        repeat(1, 2),
        Err(SigCheckError {
            message: message("|1.2"),
            kind: SigCheckErrorKind::LoopExcess { sig: Signature::new(1, 2), inf: true }
        })
    );
    // In an array it does not matter how much is left.
    assert_eq!(
        sig_of(&[
            BeginArray,
            push(f64::INFINITY),
            func(1, 2),
            op(PrimOp::Repeat),
            EndArray { boxed: false, span: 0 }
        ]),
        (1, 1)
    );
}

#[test]
fn repeat_with_an_unknown_number() {
    let message = |sig: &str| {
        format!("repeat with no number and a function with signature {}", sig)
    };
    let repeat =
        |a: usize, b: usize| check::instrs_signature(&[func(a, b), op(PrimOp::Repeat)]);
    assert_eq!(repeat(2, 2), Ok(Signature::new(3, 2)));
    assert_eq!(
        repeat(2, 1),
        Err(SigCheckError { message: message("|2.1"), kind: SigCheckErrorKind::LoopOverreach })
    );
    assert_eq!(
        repeat(1, 2),
        Err(SigCheckError {
            message: message("|1.2"),
            kind: SigCheckErrorKind::LoopExcess { sig: Signature::new(1, 2), inf: false }
        })
    );
    assert_eq!(
        sig_of(&[
            BeginArray,
            func(1, 2),
            op(PrimOp::Repeat),
            EndArray { boxed: false, span: 0 }
        ]),
        (2, 1)
    );
    // Only a scalar is a known number.
    let list = Push(Value::Num(Array::new(vec![1], vec![3.0f64.to_bits()])));
    assert_eq!(
        error_of(&[list, func(2, 1), op(PrimOp::Repeat)]).kind,
        SigCheckErrorKind::LoopOverreach
    );
    let table = Push(Value::Byte(Array::new(vec![1, 1], vec![3])));
    assert_eq!(
        error_of(&[table, func(2, 1), op(PrimOp::Repeat)]).kind,
        SigCheckErrorKind::LoopOverreach
    );
    let character = Push(Value::Char(Array::new(vec![], vec!['a'])));
    assert_eq!(
        error_of(&[character, func(2, 1), op(PrimOp::Repeat)]).kind,
        SigCheckErrorKind::LoopOverreach
    );
}

#[test]
fn repeat_with_another_number() {
    for n in [-1.0, 2.5, f64::NAN] {
        assert_eq!(
            error_of(&[push(n), func(2, 1), op(PrimOp::Repeat)]),
            incorrect("repeat without a natural number or infinity")
        );
    }
    assert_eq!(error_of(&[push(2.0), op(PrimOp::Repeat)]), incorrect(NO_FUNCTION));
}

#[test]
fn loops_with_a_condition() {
    // The condition comes first, the body on top of it.
    assert_eq!(sig_of(&[func(1, 1), func(1, 1), op(PrimOp::Do)]), (1, 1));
    assert_eq!(sig_of(&[func(1, 2), func(2, 1), op(PrimOp::Do)]), (2, 1));
    assert_eq!(sig_of(&[func(2, 1), func(1, 1), op(PrimOp::Do)]), (2, 2));
    assert_eq!(
        error_of(&[func(1, 1), func(1, 2), op(PrimOp::Do)]),
        SigCheckError {
            message: "do with a function with signature |1.2".to_string(),
            kind: SigCheckErrorKind::LoopExcess { sig: Signature::new(1, 2), inf: false }
        }
    );
    assert_eq!(
        sig_of(&[
            BeginArray,
            func(1, 1),
            func(1, 2),
            op(PrimOp::Do),
            EndArray { boxed: false, span: 0 }
        ]),
        (1, 1)
    );
    assert_eq!(error_of(&[func(1, 1), op(PrimOp::Do)]), incorrect(NO_FUNCTION));
}

#[test]
fn switches_take_functions_and_a_condition() {
    let switch = |under_cond: bool| Switch {
        count: 2,
        sig: Signature::new(1, 2),
        span: 0,
        under_cond,
    };
    assert_eq!(sig_of(&[func(1, 2), func(1, 2), switch(false)]), (2, 2));
    assert_eq!(sig_of(&[func(1, 2), func(1, 2), switch(true)]), (2, 2));
    assert_eq!(error_of(&[func(1, 2), switch(false)]), incorrect(NO_FUNCTION));
    let temps = |under_cond: bool| {
        check::instrs_temp_signatures(&[func(1, 2), func(1, 2), switch(under_cond)]).unwrap()
    };
    assert_eq!(temps(false), [Signature::new(0, 0), Signature::new(0, 0)]);
    assert_eq!(temps(true), [Signature::new(0, 1), Signature::new(0, 0)]);
}

#[test]
fn plain_primitives() {
    assert_eq!(sig_of(&[NoInline, Prim(plus(), 0)]), (2, 1));
    let modifier = || Primitive { modifier_args: Some(2), ..prim("both", 1, 1) };
    assert_eq!(sig_of(&[func(1, 1), func(1, 1), Prim(modifier(), 0)]), (1, 1));
    assert_eq!(error_of(&[func(1, 1), Prim(modifier(), 0)]), incorrect(NO_FUNCTION));
    // A lone primitive has its functions counted among its arguments.
    assert_eq!(sig_of(&[Prim(modifier(), 0)]), (3, 1));
    let no_args = Primitive { args: None, ..prim("odd", 0, 1) };
    assert_eq!(error_of(&[Prim(no_args, 0)]), incorrect("odd has indeterminate args"));
    let no_outputs = Primitive { outputs: None, ..prim("odd", 0, 1) };
    assert_eq!(error_of(&[Prim(no_outputs, 0)]), incorrect("odd has indeterminate outputs"));
    let takes_function = Primitive { outputs: None, modifier_args: Some(1), ..prim("odd", 0, 1) };
    assert_eq!(error_of(&[Prim(takes_function, 0)]), incorrect(NO_FUNCTION));
}

#[test]
fn primitives_of_the_compiler() {
    let inner = |op: ImplOp, modifier_args: Option<usize>| {
        ImplPrim(ImplPrimitive { op, args: 3, outputs: 2, modifier_args }, 0)
    };
    assert_eq!(sig_of(&[inner(ImplOp::Other, None)]), (3, 2));
    assert_eq!(sig_of(&[func(0, 0), inner(ImplOp::Other, Some(1))]), (3, 2));
    assert_eq!(error_of(&[inner(ImplOp::Other, Some(1))]), incorrect(NO_FUNCTION));
    assert_eq!(sig_of(&[func(3, 1), inner(ImplOp::ReduceContent, Some(1))]), (2, 1));
    assert_eq!(sig_of(&[func(3, 1), inner(ImplOp::ReduceDepth(1), Some(1))]), (2, 1));
}

#[test]
fn stated_signatures_are_taken() {
    let stated = Signature::new(3, 2);
    assert_eq!(sig_of(&[PushSig(stated), Recur(0), PopSig]), (3, 2));
    assert_eq!(
        sig_of(&[
            PushSig(stated),
            PushSig(Signature::new(9, 9)),
            PopSig,
            Recur(0),
            PopSig,
            Prim(plus(), 0)
        ]),
        (3, 1)
    );
    assert_eq!(sig_of(&[PushSig(stated), Recur(0)]), (3, 2));
    assert_eq!(
        error_of(&[PushSig(Signature::new(17, 0)), PopSig]),
        incorrect(TOO_MANY_ARGS)
    );
    assert_eq!(
        error_of(&[PopSig]),
        incorrect(
            "PopSig without PushSig. It is a bug in the interpreter for you to see this message."
        )
    );
}

#[test]
fn temporary_stacks() {
    let stack = TempStack::Under;
    let there = |count: usize| PushTemp { stack, count, span: 0 };
    let back = |count: usize| PopTemp { stack, count, span: 0 };
    let temps = |instrs: &[Instr]| check::instrs_temp_signatures(instrs).unwrap();
    let none = Signature::new(0, 0);
    assert_eq!(temps(&[there(2)]), [Signature::new(0, 2), none]);
    assert_eq!(temps(&[back(2)]), [Signature::new(2, 0), none]);
    assert_eq!(temps(&[there(2), back(2)]), [none, none]);
    assert_eq!(
        temps(&[PushTemp { stack: TempStack::Inline, count: 1, span: 0 }]),
        [none, Signature::new(0, 1)]
    );
    assert_eq!(temps(&[CopyToTemp { stack, count: 3, span: 0 }]), [Signature::new(0, 3), none]);
    assert_eq!(sig_of(&[there(2)]), (2, 0));
    assert_eq!(sig_of(&[back(2)]), (0, 2));
    assert_eq!(sig_of(&[there(2), back(2)]), (2, 2));
    assert_eq!(sig_of(&[CopyToTemp { stack, count: 3, span: 0 }]), (3, 3));
    assert_eq!(error_of(&[there(17)]), incorrect(TOO_MANY_ARGS));
    assert_eq!(error_of(&[back(17)]), incorrect(TOO_MANY_ARGS));
    assert_eq!(
        error_of(&[CopyToTemp { stack, count: 17, span: 0 }]),
        incorrect(TOO_MANY_ARGS)
    );
}

#[test]
fn all_signatures_at_once() {
    let stack = TempStack::Under;
    let instrs = [push(1.0), PushTemp { stack, count: 2, span: 0 }];
    assert_eq!(
        check::instrs_all_signatures(&instrs),
        Ok((Signature::new(1, 0), [Signature::new(0, 2), Signature::new(0, 0)]))
    );
    assert_eq!(check::instrs_all_signatures(&[Call(0)]), Err(incorrect(NO_FUNCTION)));
    assert_eq!(check::instrs_temp_signatures(&[Call(0)]), Err(incorrect(NO_FUNCTION)));
}

#[test]
fn signatures_of_code_that_restores_the_temporary_stacks() {
    let stack = TempStack::Under;
    let there = || PushTemp { stack, count: 1, span: 0 };
    let back = || PopTemp { stack, count: 1, span: 0 };
    assert_eq!(
        check::instrs_signature_no_temp(&[there(), Prim(plus(), 0), back()]),
        Some(Signature::new(3, 2))
    );
    assert_eq!(
        check::instrs_signature_no_temp(&[back(), there()]),
        Some(Signature::new(0, 0))
    );
    assert_eq!(check::instrs_signature_no_temp(&[there()]), None);
    assert_eq!(check::instrs_signature_no_temp(&[Call(0)]), None);
    // Here a lone primitive is run like any other code.
    let modifier = Primitive { modifier_args: Some(1), ..prim("both", 1, 1) };
    assert_eq!(check::instrs_signature_no_temp(&[Prim(modifier, 0)]), None);
}

#[test]
fn heights_give_signatures() {
    assert_eq!(check::derive_sig(16, 16), Signature::new(0, 0));
    assert_eq!(check::derive_sig(13, 15), Signature::new(3, 2));
    assert_eq!(check::derive_sig(0, 4), Signature::new(16, 4));
    assert_eq!(check::derive_sig(20, 25), Signature::new(0, 5));
}

#[test]
fn parts_of_code_compose() {
    let parts = [(2, 1), (1, 3), (4, 0), (0, 2)];
    for (a, b) in parts {
        for (c, d) in parts {
            let both = sig_of(&[func(a, b), Call(0), func(c, d), Call(0)]);
            let composed = Signature::new(c, d).compose(Signature::new(a, b));
            assert_eq!(both, (composed.args, composed.outputs));
        }
    }
}

#[test]
fn values_below_do_not_matter() {
    let code = || vec![op(PrimOp::Flip), func(3, 1), op(PrimOp::Reduce), op(PrimOp::Over)];
    let (args, outputs) = sig_of(&code());
    assert_eq!((args, outputs), (3, 3));
    for below in 0..6usize {
        let mut instrs: Vec<Instr> = (0..below).map(|_| push(1.0)).collect();
        instrs.append(&mut code());
        let composed = Signature::new(args, outputs).compose(Signature::new(0, below));
        assert_eq!(sig_of(&instrs), (composed.args, composed.outputs));
    }
}

#[test]
fn inversion_takes_the_height_back() {
    for (a, b) in [(2, 1), (1, 2), (0, 3), (4, 0)] {
        let (args, outputs) = sig_of(&[func(a, b), Call(0), func(a, b), op(PrimOp::Un)]);
        assert_eq!((args, outputs), (a, a));
    }
}

#[test]
fn a_lone_primitive_has_the_signature_of_its_run() {
    for (a, b) in [(0, 0), (2, 1), (16, 3)] {
        let alone = sig_of(&[Prim(prim("some", a, b), 0)]);
        let run = check::instrs_signature_no_temp(&[Prim(prim("some", a, b), 0)]).unwrap();
        assert_eq!(alone, (a, b));
        assert_eq!(alone, (run.args, run.outputs));
    }
    // Its signature is not bounded by the number of values at the start; its run is.
    assert_eq!(sig_of(&[Prim(prim("greedy", 17, 1), 0)]), (17, 1));
    assert_eq!(check::instrs_signature_no_temp(&[Prim(prim("greedy", 17, 1), 0)]), None);
}

#[test]
fn large_counts_that_still_fit() {
    assert_eq!(
        sig_of(&[push(1000.0), func(1, 2), op(PrimOp::Repeat)]),
        (1, 1001)
    );
}

#[test]
fn recursion_is_ambiguous_whatever_follows() {
    let stated = || vec![PushSig(Signature::new(1, 1)), Recur(7), PopSig];
    let mut instrs = stated();
    instrs.push(Recur(0));
    instrs.push(PopSig);
    assert_eq!(error_of(&instrs), SigCheckError::from("recur present").ambiguous());
    assert_eq!(sig_of(&stated()), (1, 1));
}

#[test]
fn stated_code_does_what_is_stated_anywhere() {
    for (a, b) in [(2, 1), (0, 3), (5, 0)] {
        let stated = Signature::new(a, b);
        assert_eq!(
            sig_of(&[push(1.0), PushSig(stated), PushSig(stated), PopSig, Recur(0), PopSig]),
            sig_of(&[push(1.0), func(a, b), Call(0)])
        );
    }
}

#[test]
fn what_a_failure_leaves() {
    let mut env = check::VirtualEnv::from_instrs(&[]).unwrap();
    assert_eq!(env.handle_args_outputs(17, 3), Err(incorrect(TOO_MANY_ARGS)));
    assert_eq!(env.pop().map(|_| ()), Err(incorrect(TOO_MANY_ARGS)));

    let end = [EndArray { boxed: false, span: 0 }];
    let mut env = check::VirtualEnv::from_instrs(&[]).unwrap();
    assert_eq!(env.instr(&end[0]), Err(incorrect("EndArray without BeginArray")));
    assert_eq!(env.sig(), Signature::new(0, 0));

    let instrs = [PushTemp { stack: TempStack::Inline, count: 20, span: 0 }];
    let mut env = check::VirtualEnv::from_instrs(&[]).unwrap();
    assert_eq!(env.instrs(&instrs), Err(incorrect(TOO_MANY_ARGS)));
    assert!(env.pop().is_err());
    for _ in 0..32 {
        assert!(env.pop_temp(TempStack::Inline).is_ok());
    }
    assert!(env.pop_temp(TempStack::Inline).is_err());
}

#[test]
fn noting_the_heights_twice() {
    let instrs = [push(1.0)];
    let mut env = check::VirtualEnv::from_instrs(&instrs).unwrap();
    env.pop().unwrap();
    env.pop().unwrap();
    env.set_min_height();
    let once = env.sig();
    env.set_min_height();
    assert_eq!(env.sig(), once);
    assert_eq!(once, Signature::new(1, 0));
}
