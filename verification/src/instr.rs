//! The instructions of the stack machine, as far as they bear on signatures.

use vstd::prelude::*;

use crate::signature::Signature;
use crate::value::Value;

verus! {

/// A stack beside the main one, on which code keeps values for later.
#[derive(Debug, Clone, Copy, PartialEq, Eq, Structural)]
pub enum TempStack {
    /// Values kept between the two halves of an undoable operation.
    Under,
    /// Values kept while the code between is written in line.
    Inline,
}

impl TempStack {
    /// The number of temporary stacks.
    pub const CARDINALITY: usize = 2;

    /// The place of the stack among the temporary stacks.
    pub open spec fn position(self) -> int {
        match self {
            TempStack::Under => 0,
            TempStack::Inline => 1,
        }
    }

    /// The place of the stack among the temporary stacks.
    pub fn index(self) -> (index: usize)
        ensures
            index == self.position(),
            index < TempStack::CARDINALITY,
    {
        match self {
            TempStack::Under => 0,
            TempStack::Inline => 1,
        }
    }
}

/// The primitives whose effect on the stack depends on more than a fixed signature.
#[derive(Debug, Clone, Copy, PartialEq, Eq, Structural)]
pub enum PrimOp {
    Reduce,
    Scan,
    Each,
    Rows,
    Inventory,
    Table,
    Group,
    Partition,
    Spawn,
    Pool,
    Repeat,
    Do,
    Un,
    Fold,
    Try,
    Fill,
    Content,
    Memo,
    Comptime,
    Dup,
    Flip,
    Pop,
    Over,
    Join,
    SetInverse,
    SetUnder,
    Dump,
    /// Any other primitive: its effect follows from its numbers of arguments and outputs.
    Other,
}

/// A built-in operation.
#[derive(Debug)]
pub struct Primitive {
    /// Which operation it is.
    pub op: PrimOp,
    /// How it is written in messages.
    pub name: String,
    /// The number of values it takes, where that is fixed.
    pub args: Option<usize>,
    /// The number of values it leaves, where that is fixed.
    pub outputs: Option<usize>,
    /// The number of functions it takes, for a modifier.
    pub modifier_args: Option<usize>,
}

/// The built-in operations that only the compiler emits, as far as they differ in kind.
#[derive(Debug, Clone, Copy, PartialEq, Eq, Structural)]
pub enum ImplOp {
    /// Reduce with a function that works on the contents of boxes.
    ReduceContent,
    /// Reduce at the given depth.
    ReduceDepth(usize),
    /// Any other operation: its effect follows from its numbers of arguments and outputs.
    Other,
}

/// A built-in operation that only the compiler emits.
#[derive(Debug)]
pub struct ImplPrimitive {
    /// Which operation it is.
    pub op: ImplOp,
    /// The number of values it takes.
    pub args: usize,
    /// The number of values it leaves.
    pub outputs: usize,
    /// The number of functions it takes, for a modifier.
    pub modifier_args: Option<usize>,
}

/// A function. Its signature is all that its callers depend on.
#[derive(Debug)]
pub struct Function {
    pub sig: Signature,
}

impl Function {
    /// The signature of the function.
    pub fn signature(&self) -> (sig: Signature)
        ensures
            sig == self.sig,
    {
        self.sig
    }
}

/// A function that is looked up when the code runs.
#[derive(Debug)]
pub struct DynamicFunction {
    pub index: usize,
    pub signature: Signature,
}

/// A rearrangement of the top of the stack.
#[derive(Debug)]
pub struct StackSwizzle {
    /// The numbers of values that are taken and left.
    pub signature: Signature,
}

/// An instruction.
#[derive(Debug)]
pub enum Instr {
    /// A remark. It does nothing.
    Comment(String),
    /// Push a value.
    Push(Value),
    /// Push a global, and call it if it is a function.
    CallGlobal { index: usize, call: bool },
    /// Bind the top of the stack to a global.
    BindGlobal { index: usize, span: usize },
    /// Begin to collect an array.
    BeginArray,
    /// Collect what was pushed since the matching [`Instr::BeginArray`] into an array.
    EndArray { boxed: bool, span: usize },
    /// Do a primitive.
    Prim(Primitive, usize),
    /// Do a primitive that only the compiler emits.
    ImplPrim(ImplPrimitive, usize),
    /// Call the function on top of the function stack.
    Call(usize),
    /// Call the function on top of the function stack, which may recur.
    CallRecursive(usize),
    /// Call the function that is running.
    Recur(usize),
    /// Push a function on the function stack.
    PushFunc(Function),
    /// Take `count` functions and a number, and call the function with that number. `sig` is the
    /// signature that the functions share. With `under_cond` the number is kept.
    Switch { count: usize, sig: Signature, span: usize, under_cond: bool },
    /// Put values between the given parts of a string.
    Format { parts: Vec<String>, span: usize },
    /// Take a string apart at the given parts.
    MatchFormatPattern { parts: Vec<String>, span: usize },
    /// Label the top of the stack.
    Label { label: String, span: usize },
    /// Call a function that is looked up.
    Dynamic(DynamicFunction),
    /// Spread an array of `count` rows over the stack.
    Unpack { count: usize, span: usize, unbox: bool },
    /// Make sure that there are `count` values on the stack.
    TouchStack { count: usize, span: usize },
    /// Rearrange the top of the stack.
    StackSwizzle(StackSwizzle, usize),
    /// Move `count` values to a temporary stack.
    PushTemp { stack: TempStack, count: usize, span: usize },
    /// Move `count` values back from a temporary stack.
    PopTemp { stack: TempStack, count: usize, span: usize },
    /// Copy `count` values to a temporary stack.
    CopyToTemp { stack: TempStack, count: usize, span: usize },
    /// Remember the top of the stack for a comment. It does nothing to the stack.
    SetOutputComment { i: usize, n: usize },
    /// State that the code up to the matching [`Instr::PopSig`] has the given signature.
    PushSig(Signature),
    /// End the code that an [`Instr::PushSig`] speaks of.
    PopSig,
    /// Keep the code from being written in line. It does nothing.
    NoInline,
}

} // verus!
