//! The middle end: a control-flow graph in static single assignment form,
//! the passes that improve it and the generator that lowers it.
use vstd::prelude::*;
use crate::ast;
use crate::error::Error;
use crate::ir::model::Builder;

pub mod builder;
pub mod codegen;
pub mod inline;
pub mod model;
pub mod optimize;
pub mod phis;
pub mod register_allocation;
pub mod shape;
pub mod ssa;
pub mod targets;
pub mod types;

pub use crate::ir::builder::generate_ir;
pub use crate::ir::codegen::generate_mips_from_ir;

verus! {

/// The target program of a list of statements: the program that is built
/// from them, with the copies folded in and what nothing observable
/// depends on removed, lowered to target instructions.
pub open spec fn compiled(statements: Vec<ast::Statement>) -> Result<
    Seq<crate::mips::instructions::Instruction>,
    Error,
> {
    match Builder::build(statements) {
        Err(e) => Err(e),
        Ok(p) => p.inlined().pruned().lowered(),
    }
}

/// Compiles a program to a target program, or gives the first error. No
/// instruction of the target program holds free text, and every jump and
/// branch in it goes to a line of the program or to its end.
pub fn generate_program(program: ast::Program) -> (r: Result<crate::mips::instructions::Program, Error>)
    ensures
        match compiled(program.statements) {
            Ok(code) => r is Ok && r->Ok_0.instructions@ == code && crate::mips::text::all_plain(code)
                && crate::ir::targets::all_land(code),
            Err(e) => r == Err::<crate::mips::instructions::Program, Error>(e),
        },
{
    let mut ir = match crate::ir::builder::generate_ir(program) {
        Ok(x) => x,
        Err(e) => {
            return Err(e);
        },
    };
    crate::ir::optimize::optimize(&mut ir);
    crate::ir::codegen::generate_mips_from_ir(ir)
}

} // verus!
