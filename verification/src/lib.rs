//! Signature inference for stack-machine code.

pub mod check;
pub mod error;
pub mod instr;
pub mod laws;
pub mod model;
pub mod number;
pub mod signature;
pub mod text;
pub mod value;
