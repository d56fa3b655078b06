//! What holds of every run.

pub mod arrays;
pub mod bounds;
pub mod control;
pub mod effects;
pub mod frame;
pub mod instructions;
pub mod invariants;
pub mod reach;
pub mod sequence;
pub mod signatures;
pub mod values;
