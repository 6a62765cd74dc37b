//! A compiler from the ayysee language to device MIPS, with the interpreter
//! that its output is checked against.
//!
//! [`generate_program`] compiles a syntax tree to a target program. The
//! [`simulator`] runs target programs.
pub mod ast;
pub mod error;
pub mod ir;
pub mod mips;
pub mod number;
pub mod simulator;

pub use crate::ir::generate_program;
