//! What building the intermediate representation means: the construction
//! as a function on mathematical values, which the builder is proved to
//! compute.
//!
//! Blocks are filled while the statements are walked. A block is sealed
//! once all its predecessors are known. Reading a name in a block looks for
//! its latest value there; in a sealed block without one, the value is what
//! arrives from the predecessors, and in a block that is not sealed a phi
//! without operands is left, to be filled when the block is sealed.
use vstd::prelude::*;
use crate::ast::{Expr, IfStatement, Statement};
use crate::error::Error;
use crate::ir::types::{BlockId, BlockView, Operand, ProgramView, Step, Value, VarId};

verus! {

/// The value that a name has at the end of a block.
pub struct Defined {
    pub name: Seq<char>,
    pub block: BlockId,
    pub var: VarId,
}

/// A named constant.
pub struct Named {
    pub name: Seq<char>,
    pub value: Operand,
}

/// A phi that waits for its block to be sealed: the name it stands for,
/// the value it assigns, and where in the block it is.
pub struct Open {
    pub name: Seq<char>,
    pub var: VarId,
    pub index: int,
}

/// The state of the construction.
pub struct Builder {
    pub defs: Seq<Defined>,
    pub consts: Seq<Named>,
    /// The number of the next value.
    pub next_var: usize,
    /// Whether the numbers for values or for blocks have run out.
    pub overflow: bool,
    pub program: ProgramView,
    /// For each block whether it is sealed.
    pub sealed: Seq<bool>,
    /// For each block the phis that wait for it to be sealed.
    pub unresolved: Seq<Seq<Open>>,
}

/// The place of the first entry for `name` in `block`, from `from` on.
pub open spec fn find_def(defs: Seq<Defined>, name: Seq<char>, block: BlockId, from: int) -> Option<int>
    decreases defs.len() - from,
{
    if from < 0 || from >= defs.len() {
        None
    } else if defs[from].name == name && defs[from].block == block {
        Some(from)
    } else {
        find_def(defs, name, block, from + 1)
    }
}

/// The value of `name` at the end of `block`, if it has one.
pub open spec fn lookup(defs: Seq<Defined>, name: Seq<char>, block: BlockId) -> Option<VarId> {
    match find_def(defs, name, block, 0) {
        Some(k) => Some(defs[k].var),
        None => None,
    }
}

/// Whether `name` has a value in some block, from `from` on.
pub open spec fn known_from(defs: Seq<Defined>, name: Seq<char>, from: int) -> bool
    decreases defs.len() - from,
{
    if from < 0 || from >= defs.len() {
        false
    } else if defs[from].name == name {
        true
    } else {
        known_from(defs, name, from + 1)
    }
}

/// The entries with `name` in `block` given the value `var`.
pub open spec fn assigned(defs: Seq<Defined>, name: Seq<char>, block: BlockId, var: VarId) -> Seq<Defined> {
    match find_def(defs, name, block, 0) {
        Some(k) => defs.update(k, Defined { name, block, var }),
        None => defs.push(Defined { name, block, var }),
    }
}

/// The place of the first constant called `name`, from `from` on.
pub open spec fn find_const(consts: Seq<Named>, name: Seq<char>, from: int) -> Option<int>
    decreases consts.len() - from,
{
    if from < 0 || from >= consts.len() {
        None
    } else if consts[from].name == name {
        Some(from)
    } else {
        find_const(consts, name, from + 1)
    }
}

/// The constants with `name` standing for `value`.
pub open spec fn defined_const(consts: Seq<Named>, name: Seq<char>, value: Operand) -> Seq<Named> {
    match find_const(consts, name, 0) {
        Some(k) => consts.update(k, Named { name, value }),
        None => consts.push(Named { name, value }),
    }
}

/// Whether `name` has a value in the block with the number `block`, from `from` on.
pub open spec fn has_entry(defs: Seq<Defined>, name: Seq<char>, block: int, from: int) -> bool
    decreases defs.len() - from,
{
    if from < 0 || from >= defs.len() {
        false
    } else if defs[from].name == name && defs[from].block.0 == block {
        true
    } else {
        has_entry(defs, name, block, from + 1)
    }
}

/// How many of the first `n` blocks have no value for `name`.
pub open spec fn missing(defs: Seq<Defined>, name: Seq<char>, n: nat) -> nat
    decreases n,
{
    if n == 0 {
        0
    } else {
        missing(defs, name, (n - 1) as nat) + if has_entry(defs, name, n - 1, 0) {
            0nat
        } else {
            1nat
        }
    }
}

/// How many entries of a sequence are false.
pub open spec fn count_false(flags: Seq<bool>) -> nat
    decreases flags.len(),
{
    if flags.len() == 0 {
        0
    } else {
        count_false(flags.drop_last()) + if flags.last() {
            0nat
        } else {
            1nat
        }
    }
}

/// A sequence of values without those equal to `id`.
pub open spec fn without_var(all: Seq<VarId>, id: VarId) -> Seq<VarId>
    decreases all.len(),
{
    if all.len() == 0 {
        all
    } else if all.last() == id {
        without_var(all.drop_last(), id)
    } else {
        without_var(all.drop_last(), id).push(all.last())
    }
}

/// How many names of devices and device attributes there are.
pub const EXTERNALS: usize = 64;

/// The names of devices and device attributes, in a fixed order.
pub open spec fn external(i: int) -> Seq<char> {
    if i == 0 {
        "db"@
    } else if i == 1 {
        "d0"@
    } else if i == 2 {
        "d1"@
    } else if i == 3 {
        "d2"@
    } else if i == 4 {
        "d3"@
    } else if i == 5 {
        "d4"@
    } else if i == 6 {
        "d5"@
    } else if i == 7 {
        "Activate"@
    } else if i == 8 {
        "AirRelease"@
    } else if i == 9 {
        "Charge"@
    } else if i == 10 {
        "ClearMemory"@
    } else if i == 11 {
        "Color"@
    } else if i == 12 {
        "CompletionRatio"@
    } else if i == 13 {
        "ElevatorLevel"@
    } else if i == 14 {
        "ElevatorSpeed"@
    } else if i == 15 {
        "Error"@
    } else if i == 16 {
        "ExportCount"@
    } else if i == 17 {
        "Filtration"@
    } else if i == 18 {
        "Harvest"@
    } else if i == 19 {
        "Horizontal"@
    } else if i == 20 {
        "HorizontalRatio"@
    } else if i == 21 {
        "Idle"@
    } else if i == 22 {
        "ImportCount"@
    } else if i == 23 {
        "Lock"@
    } else if i == 24 {
        "Maximum"@
    } else if i == 25 {
        "Mode"@
    } else if i == 26 {
        "On"@
    } else if i == 27 {
        "Open"@
    } else if i == 28 {
        "Output"@
    } else if i == 29 {
        "Plant"@
    } else if i == 30 {
        "PositionX"@
    } else if i == 31 {
        "PositionY"@
    } else if i == 32 {
        "Power"@
    } else if i == 33 {
        "PowerActual"@
    } else if i == 34 {
        "PowerPotential"@
    } else if i == 35 {
        "PowerRequired"@
    } else if i == 36 {
        "Pressure"@
    } else if i == 37 {
        "PressureExternal"@
    } else if i == 38 {
        "PressureInternal"@
    } else if i == 39 {
        "PressureSetting"@
    } else if i == 40 {
        "Quantity"@
    } else if i == 41 {
        "Ratio"@
    } else if i == 42 {
        "RatioCarbonDioxide"@
    } else if i == 43 {
        "RatioNitrogen"@
    } else if i == 44 {
        "RatioOxygen"@
    } else if i == 45 {
        "RatioPollutant"@
    } else if i == 46 {
        "RatioVolatiles"@
    } else if i == 47 {
        "RatioWater"@
    } else if i == 48 {
        "Reagents"@
    } else if i == 49 {
        "RecipeHash"@
    } else if i == 50 {
        "RequestHash"@
    } else if i == 51 {
        "RequiredPower"@
    } else if i == 52 {
        "Setting"@
    } else if i == 53 {
        "SolarAngle"@
    } else if i == 54 {
        "Temperature"@
    } else if i == 55 {
        "TemperatureSettings"@
    } else if i == 56 {
        "TotalMoles"@
    } else if i == 57 {
        "VelocityMagnitude"@
    } else if i == 58 {
        "VelocityRelativeX"@
    } else if i == 59 {
        "VelocityRelativeY"@
    } else if i == 60 {
        "VelocityRelativeZ"@
    } else if i == 61 {
        "Vertical"@
    } else if i == 62 {
        "VerticalRatio"@
    } else {
        "Volume"@
    }
}

impl Builder {
    /// The state before anything is built: no block, and 1 the first value.
    pub open spec fn empty() -> Builder {
        Builder {
            defs: Seq::empty(),
            consts: Seq::empty(),
            next_var: 1,
            overflow: false,
            program: ProgramView { blocks: Seq::empty() },
            sealed: Seq::empty(),
            unresolved: Seq::empty(),
        }
    }

    /// How many blocks there are.
    pub open spec fn blocks(self) -> nat {
        self.program.blocks.len()
    }

    /// Whether `block` is sealed.
    pub open spec fn is_sealed(self, block: BlockId) -> bool {
        block.0 < self.sealed.len() && self.sealed[block.0 as int]
    }

    /// Whether `name` has a value in some block.
    pub open spec fn knows(self, name: Seq<char>) -> bool {
        known_from(self.defs, name, 0)
    }

    /// How many blocks have no value for `name`.
    pub open spec fn lacking(self, name: Seq<char>) -> nat {
        missing(self.defs, name, self.blocks())
    }

    /// How many blocks are not sealed.
    pub open spec fn unsealed(self) -> nat {
        count_false(self.sealed)
    }

    /// The constant that `name` stands for, if it is one.
    pub open spec fn constant(self, name: Seq<char>) -> Option<Operand> {
        match find_const(self.consts, name, 0) {
            Some(k) => Some(self.consts[k].value),
            None => None,
        }
    }

    /// The state with one more constant.
    pub open spec fn define(self, name: Seq<char>, value: Operand) -> Builder {
        Builder { consts: defined_const(self.consts, name, value), ..self }
    }

    /// The state with the names of devices and attributes as constants.
    pub open spec fn init(self) -> Builder {
        Builder {
            consts: Seq::new(64, |i: int| Named { name: external(i), value: Operand::External(external(i)) }),
            ..self
        }
    }

    /// The state with a new empty block, and the block. When the numbers
    /// for blocks have run out, that is noted.
    pub open spec fn new_block(self, sealed: bool) -> (Builder, BlockId) {
        (
            Builder {
                program: ProgramView {
                    blocks: self.program.blocks.push(
                        BlockView { instructions: Seq::empty(), prev: Seq::empty(), next: Seq::empty() },
                    ),
                },
                sealed: self.sealed.push(sealed),
                unresolved: self.unresolved.push(Seq::empty()),
                overflow: self.overflow || self.program.blocks.len() >= usize::MAX,
                ..self
            },
            BlockId(self.program.blocks.len() as usize),
        )
    }

    /// The state with `to` after `from`.
    pub open spec fn connect(self, from: BlockId, to: BlockId) -> Builder {
        let first = self.program.blocks[from.0 as int];
        let linked = self.program.blocks.update(
            from.0 as int,
            BlockView { next: first.next.push(to), ..first },
        );
        let second = linked[to.0 as int];
        Builder {
            program: ProgramView {
                blocks: linked.update(to.0 as int, BlockView { prev: second.prev.push(from), ..second }),
            },
            ..self
        }
    }

    /// The state with `v` the value of `name` at the end of `block`.
    pub open spec fn assign(self, block: BlockId, name: Seq<char>, v: VarId) -> Builder {
        Builder { defs: assigned(self.defs, name, block, v), ..self }
    }

    /// The state with a number taken for a value, and the value. When the
    /// numbers have run out, the last one is given again and that is noted.
    pub open spec fn fresh(self) -> (Builder, VarId) {
        if self.next_var == usize::MAX {
            (Builder { overflow: true, ..self }, VarId(self.next_var))
        } else {
            (Builder { next_var: (self.next_var + 1) as usize, ..self }, VarId(self.next_var))
        }
    }

    /// The state with an instruction at the end of `block`.
    pub open spec fn emit(self, block: BlockId, step: Step) -> Builder {
        let old = self.program.blocks[block.0 as int];
        Builder {
            program: ProgramView {
                blocks: self.program.blocks.update(
                    block.0 as int,
                    BlockView { instructions: old.instructions.push(step), ..old },
                ),
            },
            ..self
        }
    }

    /// The state with the instruction at `index` of `block` replaced.
    pub open spec fn replace(self, block: BlockId, index: int, step: Step) -> Builder {
        let old = self.program.blocks[block.0 as int];
        Builder {
            program: ProgramView {
                blocks: self.program.blocks.update(
                    block.0 as int,
                    BlockView { instructions: old.instructions.update(index, step), ..old },
                ),
            },
            ..self
        }
    }

    /// The state with a new value assigned at the end of `block`, and the value.
    pub open spec fn add_variable(self, block: BlockId, value: Value) -> (Builder, VarId) {
        let (s, id) = self.fresh();
        (s.emit(block, Step::Assignment { id, value }), id)
    }

    /// The state with a phi noted that waits for `block` to be sealed.
    pub open spec fn defer(self, block: BlockId, open: Open) -> Builder {
        Builder {
            unresolved: self.unresolved.update(block.0 as int, self.unresolved[block.0 as int].push(open)),
            ..self
        }
    }

    /// Reads `name` at the end of `block`: the value it has there; else,
    /// in a block that is not sealed, a new phi without operands that waits
    /// for the sealing; else a new value, noted for the block before the
    /// predecessors are read so that a cycle ends there, and assigned at
    /// the end of the block: a copy where there is one predecessor, a phi
    /// of what the predecessors give otherwise.
    pub open spec fn read_variable(self, block: BlockId, name: Seq<char>) -> (Builder, VarId)
        decreases self.lacking(name), 0nat, 0nat,
    {
        match lookup(self.defs, name, block) {
            Some(x) => (self, x),
            None => if !self.is_sealed(block) {
                let (s1, id) = self.add_variable(block, Value::Phi(Seq::empty()));
                let s2 = s1.assign(block, name, id);
                let index = s2.program.blocks[block.0 as int].instructions.len() - 1;
                (s2.defer(block, Open { name, var: id, index }), id)
            } else {
                let (s1, id) = self.fresh();
                let s2 = s1.assign(block, name, id);
                let prevs = s2.program.blocks[block.0 as int].prev;
                // the block now has a value for the name: this is why the reading ends
                if s2.lacking(name) < self.lacking(name) {
                    let (s3, all) = s2.read_all(prevs, 0, name);
                    let value = if all.len() == 1 {
                        Value::Single(Operand::Var(all[0]))
                    } else {
                        Value::Phi(all)
                    };
                    (s3.emit(block, Step::Assignment { id, value }), id)
                } else {
                    (s2, id)
                }
            },
        }
    }

    /// Reads `name` at the end of each of `blocks` from `from` on, in order.
    pub open spec fn read_all(self, blocks: Seq<BlockId>, from: int, name: Seq<char>) -> (Builder, Seq<VarId>)
        decreases self.lacking(name), 1nat, blocks.len() - from,
    {
        if from < 0 || from >= blocks.len() {
            (self, Seq::empty())
        } else {
            let (s1, v) = self.read_variable(blocks[from], name);
            // reading leaves no more blocks without a value, so the reading ends
            if s1.lacking(name) <= self.lacking(name) {
                let (s2, rest) = s1.read_all(blocks, from + 1, name);
                (s2, seq![v] + rest)
            } else {
                (s1, seq![v])
            }
        }
    }

    /// Fills the phis of `opens` from `from` on, which waited for `block`
    /// to be sealed: each gets what the predecessors give for its name,
    /// without the phi itself.
    pub open spec fn resolve_all(self, block: BlockId, opens: Seq<Open>, from: int) -> Builder
        decreases opens.len() - from,
    {
        if from < 0 || from >= opens.len() {
            self
        } else {
            let open = opens[from];
            let prevs = self.program.blocks[block.0 as int].prev;
            let (s1, all) = self.read_all(prevs, 0, open.name);
            let value = Value::Phi(without_var(all, open.var));
            s1.replace(block, open.index, Step::Assignment { id: open.var, value }).resolve_all(
                block,
                opens,
                from + 1,
            )
        }
    }

    /// Seals `block`, fills the phis that waited for that, and seals the
    /// blocks after it.
    pub open spec fn seal_block(self, block: BlockId) -> Builder
        decreases self.unsealed(), 0nat, 0nat,
    {
        if block.0 >= self.sealed.len() || self.sealed[block.0 as int] {
            self
        } else {
            let s1 = Builder {
                sealed: self.sealed.update(block.0 as int, true),
                unresolved: self.unresolved.update(block.0 as int, Seq::empty()),
                ..self
            };
            let s2 = s1.resolve_all(block, self.unresolved[block.0 as int], 0);
            let next = s2.program.blocks[block.0 as int].next;
            // the block is sealed now: this is why the sealing ends
            if s2.unsealed() < self.unsealed() {
                s2.seal_all(next, 0)
            } else {
                s2
            }
        }
    }

    /// Seals each of `blocks` from `from` on, in order.
    pub open spec fn seal_all(self, blocks: Seq<BlockId>, from: int) -> Builder
        decreases self.unsealed(), 1nat, blocks.len() - from,
    {
        if from < 0 || from >= blocks.len() {
            self
        } else {
            let s1 = self.seal_block(blocks[from]);
            // sealing leaves no more blocks unsealed, so the sealing ends
            if s1.unsealed() <= self.unsealed() {
                s1.seal_all(blocks, from + 1)
            } else {
                s1
            }
        }
    }

    /// Reads an identifier: a constant if it names one, else the value of
    /// the name in `block`; it is an error if the name has no value anywhere.
    pub open spec fn lower_name(self, block: BlockId, name: Seq<char>) -> Result<(Builder, Operand), Error> {
        match self.constant(name) {
            Some(x) => Ok((self, x)),
            None => if self.knows(name) {
                let (s, id) = self.read_variable(block, name);
                Ok((s, Operand::Var(id)))
            } else {
                Err(Error::UndefinedName)
            },
        }
    }

    /// Lowers an expression into `block`: the state after, and the operand
    /// that holds the expression's value.
    pub open spec fn lower_expr(self, block: BlockId, expr: Expr) -> Result<(Builder, Operand), Error>
        decreases expr, 0nat,
    {
        match expr {
            Expr::Constant(v) => Ok((self, Operand::Const(v.as_number()))),
            Expr::Identifier(ident) => self.lower_name(block, ident@),
            Expr::BinaryOp(lhs_expr, op, rhs_expr) => match self.lower_expr(block, *lhs_expr) {
                Err(e) => Err(e),
                Ok((s1, lhs)) => match s1.lower_expr(block, *rhs_expr) {
                    Err(e) => Err(e),
                    Ok((s2, rhs)) => {
                        let (s3, id) = s2.add_variable(block, Value::BinaryOp { lhs, op, rhs });
                        Ok((s3, Operand::Var(id)))
                    },
                },
            },
            Expr::UnaryOp(_, _) => Err(Error::UnsupportedSyntax),
            Expr::FunctionCall(ident, args) => match self.lower_args(block, args, 0) {
                Err(e) => Err(e),
                Ok((s1, operands)) => {
                    let (s2, id) = s1.add_variable(block, Value::Call { name: ident@, args: operands });
                    Ok((s2, Operand::Var(id)))
                },
            },
            Expr::FieldExpr(d, logic) => match self.lower_name(block, d@) {
                Err(e) => Err(e),
                Ok((s1, arg0)) => match s1.lower_name(block, logic@) {
                    Err(e) => Err(e),
                    Ok((s2, arg1)) => {
                        let (s3, id) = s2.add_variable(
                            block,
                            Value::Call { name: "load"@, args: seq![arg0, arg1] },
                        );
                        Ok((s3, Operand::Var(id)))
                    },
                },
            },
        }
    }

    /// Lowers the arguments of a call from `from` on, in order.
    pub open spec fn lower_args(self, block: BlockId, args: Vec<Box<Expr>>, from: int) -> Result<
        (Builder, Seq<Operand>),
        Error,
    >
        decreases args, args.len() - from,
    {
        if from < 0 || from >= args.len() {
            Ok((self, Seq::empty()))
        } else {
            match self.lower_expr(block, *args[from]) {
                Err(e) => Err(e),
                Ok((s1, first)) => match s1.lower_args(block, args, from + 1) {
                    Err(e) => Err(e),
                    Ok((s2, rest)) => Ok((s2, seq![first] + rest)),
                },
            }
        }
    }

    /// The value of an expression as a value of the program: the operand
    /// itself if it is one, else a new copy of it.
    pub open spec fn as_variable(self, block: BlockId, operand: Operand) -> (Builder, VarId) {
        match operand {
            Operand::Var(id) => (self, id),
            _ => self.add_variable(block, Value::Single(operand)),
        }
    }

    /// Lowers one statement into `block`: the state after, and the block
    /// in which what follows goes on.
    pub open spec fn lower_stmt(self, block: BlockId, stmt: Statement) -> Result<(Builder, BlockId), Error>
        decreases stmt, 0nat,
    {
        match stmt {
            Statement::FunctionCall { identifier, arguments } => match self.lower_args(block, arguments, 0) {
                Err(e) => Err(e),
                Ok((s1, args)) => Ok((s1.add_variable(block, Value::Call { name: identifier@, args }).0, block)),
            },
            Statement::Definition { identifier, expression } => match self.lower_expr(block, *expression) {
                Err(e) => Err(e),
                Ok((s1, v)) => {
                    let (s2, id) = s1.as_variable(block, v);
                    Ok((s2.assign(block, identifier@, id), block))
                },
            },
            Statement::Assignment { lhs, rhs } => match self.lower_expr(block, *rhs) {
                Err(e) => Err(e),
                Ok((s1, v)) => {
                    let (s2, id) = s1.as_variable(block, v);
                    match *lhs {
                        Expr::Identifier(ident) => Ok((s2.assign(block, ident@, id), block)),
                        Expr::FieldExpr(d, logic) => match s2.lower_name(block, d@) {
                            Err(e) => Err(e),
                            Ok((s3, arg0)) => match s3.lower_name(block, logic@) {
                                Err(e) => Err(e),
                                Ok((s4, arg1)) => Ok(
                                    (
                                        s4.add_variable(
                                            block,
                                            Value::Call {
                                                name: "store"@,
                                                args: seq![arg0, arg1, Operand::Var(id)],
                                            },
                                        ).0,
                                        block,
                                    ),
                                ),
                            },
                        },
                        _ => Err(Error::UnsupportedSyntax),
                    }
                },
            },
            Statement::Constant(identifier, expression) => match self.lower_expr(block, *expression) {
                Err(e) => Err(e),
                Ok((s1, v)) => Ok((s1.define(identifier@, v), block)),
            },
            Statement::IfStatement(if_stmt) => self.lower_if(block, if_stmt),
            Statement::Loop { body } => {
                let (s1, block_next) = self.new_block(false);
                let (s2, block_body) = s1.new_block(false);
                let s3 = s2.connect(block, block_body);
                match s3.lower_stmts(block_body, *body.statement_list(), 0) {
                    Err(e) => Err(e),
                    Ok((s4, body_end)) => {
                        let s5 = s4.connect(body_end, block_body);
                        let s6 = if s5.is_sealed(block) {
                            s5.seal_block(block_body)
                        } else {
                            s5
                        };
                        Ok((s6, block_next))
                    },
                }
            },
            Statement::Yield => Ok((self.emit(block, Step::Yield), block)),
            Statement::Return(expr) => match self.lower_expr(block, *expr) {
                Err(e) => Err(e),
                Ok((s1, v)) => Ok((s1.emit(block, Step::Return(v)), block)),
            },
            _ => Err(Error::UnsupportedSyntax),
        }
    }

    /// Lowers a conditional that starts in `block`: a block for each branch,
    /// the branch instruction at the end of `block`, and a block where the
    /// two meet, in which what follows goes on. The new blocks are sealed
    /// if `block` is.
    pub open spec fn lower_if(self, block: BlockId, statement: IfStatement) -> Result<(Builder, BlockId), Error>
        decreases statement, 0nat,
    {
        let (condition, body) = match statement {
            IfStatement::If { condition, body } => (condition, body),
            IfStatement::IfElse { condition, body, else_body } => (condition, body),
        };
        let sealed = self.is_sealed(block);
        match self.lower_expr(block, *condition) {
            Err(e) => Err(e),
            Ok((s1, cond)) => {
                let (s2, true_start) = s1.new_block(sealed);
                let s3 = s2.connect(block, true_start);
                match s3.lower_stmts(true_start, *body.statement_list(), 0) {
                    Err(e) => Err(e),
                    Ok((s4, true_end)) => {
                        let (s5, false_start) = s4.new_block(sealed);
                        let s6 = s5.connect(block, false_start);
                        let lowered = match statement {
                            IfStatement::If { condition, body } => Ok((s6, false_start)),
                            IfStatement::IfElse { condition, body, else_body } => s6.lower_stmts(
                                false_start,
                                *else_body.statement_list(),
                                0,
                            ),
                        };
                        match lowered {
                            Err(e) => Err(e),
                            Ok((s7, false_end)) => {
                                let s8 = s7.emit(
                                    block,
                                    Step::Branch { cond, true_block: true_start, false_block: false_start },
                                );
                                let (s9, join) = s8.new_block(sealed);
                                Ok((s9.connect(true_end, join).connect(false_end, join), join))
                            },
                        }
                    },
                }
            },
        }
    }

    /// Lowers the statements from `from` on, in order, starting in `block`.
    pub open spec fn lower_stmts(self, block: BlockId, stmts: Vec<Statement>, from: int) -> Result<
        (Builder, BlockId),
        Error,
    >
        decreases stmts, stmts.len() - from,
    {
        if from < 0 || from >= stmts.len() {
            Ok((self, block))
        } else {
            match self.lower_stmt(block, stmts[from]) {
                Err(e) => Err(e),
                Ok((s1, next)) => s1.lower_stmts(next, stmts, from + 1),
            }
        }
    }

    /// Builds the program of a list of statements: the entry block is
    /// sealed, the names of devices and attributes are constants, and the
    /// statements are lowered in order. It is an error if the numbers for
    /// values or for blocks run out.
    pub open spec fn build(stmts: Vec<Statement>) -> Result<ProgramView, Error> {
        let (s1, entry) = Builder::empty().new_block(true);
        match s1.init().lower_stmts(entry, stmts, 0) {
            Err(e) => Err(e),
            Ok((s2, end)) => if s2.overflow {
                Err(Error::TooLarge)
            } else {
                Ok(s2.program)
            },
        }
    }
}

/// What `find_def` finds is the first entry for the name in the block.
pub proof fn lemma_find_def(defs: Seq<Defined>, name: Seq<char>, block: BlockId, from: int)
    requires
        0 <= from,
    ensures
        match find_def(defs, name, block, from) {
            Some(k) => from <= k < defs.len() && defs[k].name == name && defs[k].block == block && forall|j: int|
                from <= j < k ==> !(defs[j].name == name && defs[j].block == block),
            None => forall|j: int| from <= j < defs.len() ==> !(defs[j].name == name && defs[j].block == block),
        },
    decreases defs.len() - from,
{
    if from < defs.len() && !(defs[from].name == name && defs[from].block == block) {
        lemma_find_def(defs, name, block, from + 1);
    }
}

/// A name has a value in a block exactly if some entry is for it there.
pub proof fn lemma_has_entry(defs: Seq<Defined>, name: Seq<char>, block: int, from: int)
    requires
        0 <= from,
    ensures
        has_entry(defs, name, block, from) <==> exists|j: int|
            from <= j < defs.len() && defs[j].name == name && defs[j].block.0 == block,
    decreases defs.len() - from,
{
    if from < defs.len() {
        lemma_has_entry(defs, name, block, from + 1);
        if defs[from].name == name && defs[from].block.0 == block {
        } else if exists|j: int| from <= j < defs.len() && defs[j].name == name && defs[j].block.0 == block {
            let j = choose|j: int| from <= j < defs.len() && defs[j].name == name && defs[j].block.0 == block;
            assert(from + 1 <= j);
        }
    }
}

/// A name has a value in a block exactly if looking it up there gives one.
pub proof fn lemma_lookup_entry(defs: Seq<Defined>, name: Seq<char>, block: BlockId)
    ensures
        has_entry(defs, name, block.0 as int, 0) <==> lookup(defs, name, block) is Some,
{
    lemma_has_entry(defs, name, block.0 as int, 0);
    lemma_find_def(defs, name, block, 0);
    if has_entry(defs, name, block.0 as int, 0) {
        let j = choose|j: int| 0 <= j < defs.len() && defs[j].name == name && defs[j].block.0 == block.0;
        assert(defs[j].block == block);
    }
}

/// After a name has been given a value in a block, it has one there, and
/// every other name and block has one if it had one.
pub proof fn lemma_entry_assigned(
    defs: Seq<Defined>,
    name: Seq<char>,
    block: BlockId,
    var: VarId,
    other: Seq<char>,
    at: int,
)
    ensures
        has_entry(assigned(defs, name, block, var), other, at, 0) == (has_entry(defs, other, at, 0) || (other
            == name && at == block.0)),
{
    let after = assigned(defs, name, block, var);
    lemma_has_entry(defs, other, at, 0);
    lemma_has_entry(after, other, at, 0);
    lemma_find_def(defs, name, block, 0);
    if has_entry(defs, other, at, 0) {
        let j = choose|j: int| 0 <= j < defs.len() && defs[j].name == other && defs[j].block.0 == at;
        assert(after[j].name == other && after[j].block.0 == at);
    }
    if other == name && at == block.0 {
        match find_def(defs, name, block, 0) {
            Some(k) => {
                assert(after[k].name == other && after[k].block.0 == at);
            },
            None => {
                assert(after[defs.len() as int].name == other && after[defs.len() as int].block.0 == at);
            },
        }
    }
    if has_entry(after, other, at, 0) {
        let j = choose|j: int| 0 <= j < after.len() && after[j].name == other && after[j].block.0 == at;
        if !(other == name && at == block.0) {
            assert(defs[j].name == other && defs[j].block.0 == at);
        }
    }
}

/// Giving a name a value in one of the first `n` blocks where it had none
/// leaves one block fewer without a value for it; giving it a value where
/// it had one, or giving another name a value, changes nothing.
pub proof fn lemma_missing_assigned(
    defs: Seq<Defined>,
    name: Seq<char>,
    block: BlockId,
    var: VarId,
    other: Seq<char>,
    n: nat,
)
    ensures
        missing(assigned(defs, name, block, var), other, n) + (if other == name && block.0 < n && lookup(
            defs,
            name,
            block,
        ) is None {
            1nat
        } else {
            0nat
        }) == missing(defs, other, n),
    decreases n,
{
    if n > 0 {
        lemma_missing_assigned(defs, name, block, var, other, (n - 1) as nat);
        lemma_entry_assigned(defs, name, block, var, other, n - 1);
        lemma_lookup_entry(defs, name, block);
    }
}

/// Sealing a block that was not sealed leaves one block fewer unsealed.
pub proof fn lemma_count_false_update(flags: Seq<bool>, i: int)
    requires
        0 <= i < flags.len(),
        !flags[i],
    ensures
        count_false(flags.update(i, true)) + 1 == count_false(flags),
    decreases flags.len(),
{
    if i == flags.len() - 1 {
        assert(flags.update(i, true).drop_last() =~= flags.drop_last());
    } else {
        assert(flags.update(i, true).drop_last() =~= flags.drop_last().update(i, true));
        lemma_count_false_update(flags.drop_last(), i);
    }
}

impl Builder {
    /// Every block has its flag and its list of waiting phis, every block
    /// that is named exists, and every waiting phi is in its block.
    pub open spec fn inv(self) -> bool {
        &&& self.sealed.len() == self.blocks()
        &&& self.unresolved.len() == self.blocks()
        &&& self.program.blocks_in_range()
        &&& forall|b: int, k: int|
            0 <= b < self.unresolved.len() && 0 <= k < self.unresolved[b].len() ==> 0 <= (
            #[trigger] self.unresolved[b][k]).index < self.program.blocks[b].instructions.len()
    }

    /// Whether `other` has the blocks of this state with the same
    /// predecessors and successors, and no fewer instructions in any.
    pub open spec fn grown(self, other: Builder) -> bool {
        &&& self.blocks() == other.blocks()
        &&& forall|b: int|
            0 <= b < self.blocks() ==> (#[trigger] self.program.blocks[b]).prev == other.program.blocks[b].prev
                && self.program.blocks[b].next == other.program.blocks[b].next
                && self.program.blocks[b].instructions.len() <= other.program.blocks[b].instructions.len()
    }
}

impl Builder {
    /// Whether `other` is a state in order that has the blocks of this one.
    pub open spec fn leads_to(self, other: Builder) -> bool {
        other.inv() && self.blocks() <= other.blocks()
    }
}

/// A new block keeps the state in order.
pub proof fn lemma_new_block_inv(s: Builder, sealed: bool)
    requires
        s.inv(),
    ensures
        s.new_block(sealed).0.inv(),
{
    let t = s.new_block(sealed).0;
    assert forall|b: int, k: int|
        0 <= b < t.program.blocks.len() && 0 <= k < t.program.blocks[b].next.len() implies (
        #[trigger] t.program.blocks[b].next[k]).0 < t.program.blocks.len() by {
        assert(s.program.blocks[b].next[k].0 < s.program.blocks.len());
    }
    assert forall|b: int, k: int|
        0 <= b < t.program.blocks.len() && 0 <= k < t.program.blocks[b].prev.len() implies (
        #[trigger] t.program.blocks[b].prev[k]).0 < t.program.blocks.len() by {
        assert(s.program.blocks[b].prev[k].0 < s.program.blocks.len());
    }
    assert forall|b: int, i: int| #[trigger] t.program.has(b, i) implies t.program.at(b, i).targets_below(
        t.program.blocks.len() as int,
    ) by {
        assert(s.program.has(b, i));
    }
    assert forall|b: int, k: int| 0 <= b < t.unresolved.len() && 0 <= k < t.unresolved[b].len() implies 0 <= (#[trigger] t.unresolved[b][k]).index < t.program.blocks[b].instructions.len() by {
        assert(s.unresolved[b][k].index < s.program.blocks[b].instructions.len());
    }
}

/// An edge between two blocks keeps the state in order.
pub proof fn lemma_connect_inv(s: Builder, from: BlockId, to: BlockId)
    requires
        s.inv(),
        from.0 < s.blocks(),
        to.0 < s.blocks(),
    ensures
        s.connect(from, to).inv(),
{
    let t = s.connect(from, to);
    assert forall|b: int, k: int|
        0 <= b < t.program.blocks.len() && 0 <= k < t.program.blocks[b].next.len() implies (
        #[trigger] t.program.blocks[b].next[k]).0 < t.program.blocks.len() by {
        if k < s.program.blocks[b].next.len() {
            assert(s.program.blocks[b].next[k].0 < s.program.blocks.len());
        }
    }
    assert forall|b: int, k: int|
        0 <= b < t.program.blocks.len() && 0 <= k < t.program.blocks[b].prev.len() implies (
        #[trigger] t.program.blocks[b].prev[k]).0 < t.program.blocks.len() by {
        if k < s.program.blocks[b].prev.len() {
            assert(s.program.blocks[b].prev[k].0 < s.program.blocks.len());
        }
    }
    assert forall|b: int, i: int| #[trigger] t.program.has(b, i) implies t.program.at(b, i).targets_below(
        t.program.blocks.len() as int,
    ) by {
        assert(s.program.has(b, i));
    }
    assert forall|b: int, k: int| 0 <= b < t.unresolved.len() && 0 <= k < t.unresolved[b].len() implies 0 <= (#[trigger] t.unresolved[b][k]).index < t.program.blocks[b].instructions.len() by {
        assert(s.unresolved[b][k].index < s.program.blocks[b].instructions.len());
    }
}

/// An instruction at the end of a block keeps the state in order.
pub proof fn lemma_emit_inv(s: Builder, block: BlockId, step: Step)
    requires
        s.inv(),
        block.0 < s.blocks(),
        step.targets_below(s.blocks() as int),
    ensures
        s.emit(block, step).inv(),
{
    let t = s.emit(block, step);
    assert forall|b: int, k: int|
        0 <= b < t.program.blocks.len() && 0 <= k < t.program.blocks[b].next.len() implies (
        #[trigger] t.program.blocks[b].next[k]).0 < t.program.blocks.len() by {
        assert(s.program.blocks[b].next[k].0 < s.program.blocks.len());
    }
    assert forall|b: int, k: int|
        0 <= b < t.program.blocks.len() && 0 <= k < t.program.blocks[b].prev.len() implies (
        #[trigger] t.program.blocks[b].prev[k]).0 < t.program.blocks.len() by {
        assert(s.program.blocks[b].prev[k].0 < s.program.blocks.len());
    }
    assert forall|b: int, i: int| #[trigger] t.program.has(b, i) implies t.program.at(b, i).targets_below(
        t.program.blocks.len() as int,
    ) by {
        if b == block.0 && i == s.program.blocks[b].instructions.len() {
        } else {
            assert(s.program.has(b, i));
        }
    }
    assert forall|b: int, k: int| 0 <= b < t.unresolved.len() && 0 <= k < t.unresolved[b].len() implies 0 <= (#[trigger] t.unresolved[b][k]).index < t.program.blocks[b].instructions.len() by {
        assert(s.unresolved[b][k].index < s.program.blocks[b].instructions.len());
    }
}

/// Replacing an assignment keeps the state in order.
pub proof fn lemma_replace_inv(s: Builder, block: BlockId, index: int, step: Step)
    requires
        s.inv(),
        block.0 < s.blocks(),
        0 <= index < s.program.blocks[block.0 as int].instructions.len(),
        step.targets_below(s.blocks() as int),
    ensures
        s.replace(block, index, step).inv(),
{
    let t = s.replace(block, index, step);
    assert forall|b: int, k: int|
        0 <= b < t.program.blocks.len() && 0 <= k < t.program.blocks[b].next.len() implies (
        #[trigger] t.program.blocks[b].next[k]).0 < t.program.blocks.len() by {
        assert(s.program.blocks[b].next[k].0 < s.program.blocks.len());
    }
    assert forall|b: int, k: int|
        0 <= b < t.program.blocks.len() && 0 <= k < t.program.blocks[b].prev.len() implies (
        #[trigger] t.program.blocks[b].prev[k]).0 < t.program.blocks.len() by {
        assert(s.program.blocks[b].prev[k].0 < s.program.blocks.len());
    }
    assert forall|b: int, i: int| #[trigger] t.program.has(b, i) implies t.program.at(b, i).targets_below(
        t.program.blocks.len() as int,
    ) by {
        assert(s.program.has(b, i));
    }
    assert forall|b: int, k: int| 0 <= b < t.unresolved.len() && 0 <= k < t.unresolved[b].len() implies 0 <= (#[trigger] t.unresolved[b][k]).index < t.program.blocks[b].instructions.len() by {
        assert(s.unresolved[b][k].index < s.program.blocks[b].instructions.len());
    }
}

} // verus!
