//! A small just-in-time compiler middle-end for x86-64.
//!
//! A program is built as a control-flow graph of basic blocks holding a linear,
//! register-based intermediate representation ([`ir`]). Finalizing it makes the
//! edges agree and checks it ([`validate`]). The control-flow graph is analysed
//! for its reduced graph, dominators and liveness ([`reg_alloc`], on the graphs
//! of [`graph`]), the virtual registers are assigned machine registers and every
//! instruction is lowered to machine operations ([`codegen`]), which an assembler
//! encodes.

pub mod codegen;
pub mod graph;
pub mod index_list;
pub mod ir;
pub mod reg_alloc;
pub mod validate;
