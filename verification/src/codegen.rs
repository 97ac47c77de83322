//! Code generation back ends, and the laws of the register assignment.

pub mod separation;
pub mod x86_64;
