//! Lowering the intermediate representation to a target program.
//!
//! The blocks are laid out in the order in which a walk from the entry
//! first reaches them. A block that is reached again gets a jump to where
//! it starts. A block without a successor ends in a jump to the end of the
//! program, which is filled in when the length of the program is known.
use vstd::prelude::*;
use crate::ast::BinaryOpcode;
use crate::error::Error;
use crate::ir::register_allocation::{RegisterAllocation, Registers};
use crate::ir::types::{
    Block,
    BlockId,
    Instruction,
    Operand,
    Program,
    ProgramView,
    Step,
    Value,
    VarId,
    VarOrConst,
    VarValue,
    operands,
};
use crate::mips::instructions::{Arithmetic, DeviceIo, FlowControl, Logic, Misc, VariableSelection};
use crate::mips::types::{Device, DeviceVariable, JumpDest, Register, RegisterOrNumber, same_text};
use crate::number::Number;

verus! {

/// How many entries of a sequence are `None`.
pub open spec fn count_none(starts: Seq<Option<usize>>) -> nat
    decreases starts.len(),
{
    if starts.len() == 0 {
        0
    } else {
        count_none(starts.drop_last()) + if starts.last() is None {
            1nat
        } else {
            0nat
        }
    }
}

/// Giving an entry a value leaves one fewer without.
pub proof fn lemma_count_none_update(starts: Seq<Option<usize>>, i: int, value: usize)
    requires
        0 <= i < starts.len(),
        starts[i] is None,
    ensures
        count_none(starts.update(i, Some(value))) + 1 == count_none(starts),
    decreases starts.len(),
{
    if i == starts.len() - 1 {
        assert(starts.update(i, Some(value)).drop_last() =~= starts.drop_last());
    } else {
        assert(starts.update(i, Some(value)).drop_last() =~= starts.drop_last().update(i, Some(value)));
        lemma_count_none_update(starts.drop_last(), i, value);
    }
}

/// The number -1, which stands where a position is filled in later.
pub open spec fn unknown() -> Number {
    Number::of_int(-1i64)
}

/// The jump to a position.
pub open spec fn jump_to(position: usize) -> crate::mips::instructions::Instruction {
    crate::mips::instructions::Instruction::FlowControl(
        FlowControl::Jump { a: JumpDest::Number(Number::of_index(position)) },
    )
}

/// The jump whose position is filled in later.
pub open spec fn jump_unknown() -> crate::mips::instructions::Instruction {
    crate::mips::instructions::Instruction::FlowControl(FlowControl::Jump { a: JumpDest::Number(unknown()) })
}

/// The branch to `target` taken when `a` is zero.
pub open spec fn branch_to(a: RegisterOrNumber, target: Number) -> crate::mips::instructions::Instruction {
    crate::mips::instructions::Instruction::FlowControl(
        FlowControl::BranchEqualZero { a, b: RegisterOrNumber::Number(target) },
    )
}

/// The target instruction of a binary operator.
pub open spec fn binary(op: BinaryOpcode, register: Register, a: RegisterOrNumber, b: RegisterOrNumber) -> crate::mips::instructions::Instruction {
    match op {
        BinaryOpcode::Add => crate::mips::instructions::Instruction::Arithmetic(Arithmetic::Add { register, a, b }),
        BinaryOpcode::Sub => crate::mips::instructions::Instruction::Arithmetic(
            Arithmetic::Subtract { register, a, b },
        ),
        BinaryOpcode::Mul => crate::mips::instructions::Instruction::Arithmetic(
            Arithmetic::Multiply { register, a, b },
        ),
        BinaryOpcode::Div => crate::mips::instructions::Instruction::Arithmetic(
            Arithmetic::Divide { register, a, b },
        ),
        BinaryOpcode::Conj => crate::mips::instructions::Instruction::Logic(Logic::And { register, a, b }),
        BinaryOpcode::Disj => crate::mips::instructions::Instruction::Logic(Logic::Or { register, a, b }),
        BinaryOpcode::Equals => crate::mips::instructions::Instruction::VariableSelection(
            VariableSelection::SelectEqual { register, a, b },
        ),
        BinaryOpcode::NotEquals => crate::mips::instructions::Instruction::VariableSelection(
            VariableSelection::SelectNotEqual { register, a, b },
        ),
        BinaryOpcode::Greater => crate::mips::instructions::Instruction::VariableSelection(
            VariableSelection::SelectGreaterThan { register, a, b },
        ),
        BinaryOpcode::GreaterEquals => crate::mips::instructions::Instruction::VariableSelection(
            VariableSelection::SelectGreaterOrEqual { register, a, b },
        ),
        BinaryOpcode::Lower => crate::mips::instructions::Instruction::VariableSelection(
            VariableSelection::SelectLessThan { register, a, b },
        ),
        BinaryOpcode::LowerEquals => crate::mips::instructions::Instruction::VariableSelection(
            VariableSelection::SelectLessOrEqual { register, a, b },
        ),
    }
}

impl Registers {
    /// The target operand of an operand: the register of a value, or a
    /// number. The name of a device or an attribute is no operand.
    pub open spec fn operand(self, v: Operand) -> Result<RegisterOrNumber, Error> {
        match v {
            Operand::Var(id) => match self.get(id) {
                Some(register) => Ok(RegisterOrNumber::Register(register)),
                None => Err(Error::UndefinedName),
            },
            Operand::External(_) => Err(Error::UnsupportedSyntax),
            Operand::Const(x) => Ok(RegisterOrNumber::Number(x)),
        }
    }

    /// The target instruction of a call: `store` and `load` become `s` and
    /// `l`, and take the names of a device and of an attribute first.
    pub open spec fn call(self, register: Register, name: Seq<char>, args: Seq<Operand>) -> Result<
        crate::mips::instructions::Instruction,
        Error,
    > {
        if name == "store"@ {
            if args.len() < 3 {
                Err(Error::UnsupportedSyntax)
            } else {
                match (device_of(args[0]), variable_of(args[1]), self.operand(args[2])) {
                    (None, _, _) => Err(Error::UnsupportedSyntax),
                    (Some(_), None, _) => Err(Error::UnsupportedSyntax),
                    (Some(_), Some(_), Err(e)) => Err(e),
                    (Some(device), Some(variable), Ok(value)) => Ok(
                        crate::mips::instructions::Instruction::DeviceIo(
                            DeviceIo::StoreDeviceVariable { device, variable, register: value },
                        ),
                    ),
                }
            }
        } else if name == "load"@ {
            if args.len() < 2 {
                Err(Error::UnsupportedSyntax)
            } else {
                match (device_of(args[0]), variable_of(args[1])) {
                    (None, _) => Err(Error::UnsupportedSyntax),
                    (Some(_), None) => Err(Error::UnsupportedSyntax),
                    (Some(device), Some(variable)) => Ok(
                        crate::mips::instructions::Instruction::DeviceIo(
                            DeviceIo::LoadDeviceVariable { register, device, variable },
                        ),
                    ),
                }
            }
        } else {
            Err(Error::UnknownCall)
        }
    }

    /// The target instruction of an assignment, if it has one: a copy
    /// becomes a `move`, a binary operation the instruction of its
    /// operator, a call `s` or `l`, and a phi nothing, since its operands
    /// share its register.
    pub open spec fn assignment(self, id: VarId, value: Value) -> Result<
        Option<crate::mips::instructions::Instruction>,
        Error,
    > {
        match self.get(id) {
            None => Err(Error::UndefinedName),
            Some(register) => match value {
                Value::Single(simple) => match self.operand(simple) {
                    Err(e) => Err(e),
                    Ok(a) => Ok(Some(crate::mips::instructions::Instruction::Misc(Misc::Move { register, a }))),
                },
                Value::BinaryOp { lhs, op, rhs } => match self.operand(lhs) {
                    Err(e) => Err(e),
                    Ok(a) => match self.operand(rhs) {
                        Err(e) => Err(e),
                        Ok(b) => Ok(Some(binary(op, register, a, b))),
                    },
                },
                Value::Call { name, args } => match self.call(register, name, args) {
                    Err(e) => Err(e),
                    Ok(instruction) => Ok(Some(instruction)),
                },
                Value::Phi(_) => Ok(None),
            },
        }
    }
}

/// The device that an operand names, if it names one.
pub open spec fn device_of(v: Operand) -> Option<Device> {
    match v {
        Operand::External(name) => Device::named(name),
        _ => None,
    }
}

/// The device attribute that an operand names, if it names one.
pub open spec fn variable_of(v: Operand) -> Option<DeviceVariable> {
    match v {
        Operand::External(name) => DeviceVariable::named(name),
        _ => None,
    }
}

/// The target program so far, where each block that has been reached
/// starts, and where the jumps to the end of the program are.
pub struct Emission {
    pub code: Seq<crate::mips::instructions::Instruction>,
    pub starts: Seq<Option<usize>>,
    pub ends: Seq<usize>,
}

impl Emission {
    /// Nothing emitted, for a program of `n` blocks.
    pub open spec fn empty(n: nat) -> Emission {
        Emission { code: Seq::empty(), starts: Seq::new(n, |i: int| None), ends: Seq::empty() }
    }

    /// How many blocks have not been reached.
    pub open spec fn pending(self) -> nat {
        count_none(self.starts)
    }

    /// The emission with one more instruction.
    pub open spec fn push(self, instruction: crate::mips::instructions::Instruction) -> Emission {
        Emission { code: self.code.push(instruction), ..self }
    }

    /// Emits the block `b`: a jump to its start if it has been reached,
    /// else its instructions from here on.
    pub open spec fn block(self, p: ProgramView, registers: Registers, b: BlockId) -> Result<Emission, Error>
        decreases self.pending(), 0nat, 0nat,
    {
        if b.0 >= self.starts.len() {
            Err(Error::UnsupportedSyntax)
        } else {
            match self.starts[b.0 as int] {
                Some(position) => Ok(self.push(jump_to(position))),
                None => {
                    let started = Emission {
                        starts: self.starts.update(b.0 as int, Some(self.code.len() as usize)),
                        ..self
                    };
                    // a block that starts is one block fewer to reach: this is why the walk ends
                    if started.pending() < self.pending() {
                        started.steps(p, registers, b, 0)
                    } else {
                        Ok(started)
                    }
                },
            }
        }
    }

    /// Emits the instructions of the block `b` from `i` on. A branch ends
    /// the block. After the last instruction the one successor follows;
    /// where there is none, a jump to the end of the program is left. It
    /// is an error if a block without a branch has two successors.
    pub open spec fn steps(self, p: ProgramView, registers: Registers, b: BlockId, i: int) -> Result<
        Emission,
        Error,
    >
        decreases self.pending(), 1nat, p.blocks[b.0 as int].instructions.len() - i,
    {
        let block = p.blocks[b.0 as int];
        if i < 0 {
            Err(Error::UnsupportedSyntax)
        } else if i >= block.instructions.len() {
            if block.next.len() >= 2 {
                Err(Error::UnsupportedSyntax)
            } else if block.next.len() == 1 {
                self.block(p, registers, block.next[0])
            } else {
                Ok(
                    Emission {
                        code: self.code.push(jump_unknown()),
                        ends: self.ends.push(self.code.len() as usize),
                        ..self
                    },
                )
            }
        } else {
            match block.instructions[i] {
                Step::Assignment { id, value } => match registers.assignment(id, value) {
                    Err(e) => Err(e),
                    Ok(Some(instruction)) => self.push(instruction).steps(p, registers, b, i + 1),
                    Ok(None) => self.steps(p, registers, b, i + 1),
                },
                Step::Branch { cond, true_block, false_block } => self.branch(
                    p,
                    registers,
                    cond,
                    true_block,
                    false_block,
                ),
                Step::Yield => self.push(crate::mips::instructions::Instruction::Misc(Misc::Yield)).steps(
                    p,
                    registers,
                    b,
                    i + 1,
                ),
                Step::Return(_) => self.push(
                    crate::mips::instructions::Instruction::FlowControl(
                        FlowControl::Jump { a: JumpDest::Register(Register::Ra) },
                    ),
                ).steps(p, registers, b, i + 1),
            }
        }
    }

    /// Emits a branch: `beqz` on the condition, the block for true, the
    /// block for false; then the `beqz` gets the start of the block for
    /// false as its target.
    pub open spec fn branch(
        self,
        p: ProgramView,
        registers: Registers,
        cond: Operand,
        true_block: BlockId,
        false_block: BlockId,
    ) -> Result<Emission, Error>
        decreases self.pending(), 0nat, 1nat,
    {
        match registers.operand(cond) {
            Err(e) => Err(e),
            Ok(a) => {
                let at = self.code.len() as int;
                match self.push(branch_to(a, unknown())).block(p, registers, true_block) {
                    Err(e) => Err(e),
                    // emitting a block leaves no more blocks to reach, so the walk ends
                    Ok(s1) => if s1.pending() <= self.pending() {
                        match s1.block(p, registers, false_block) {
                            Err(e) => Err(e),
                            Ok(s2) => match s2.starts[false_block.0 as int] {
                                Some(target) => Ok(
                                    Emission {
                                        code: s2.code.update(at, branch_to(a, Number::of_index(target))),
                                        ..s2
                                    },
                                ),
                                None => Err(Error::UnsupportedSyntax),
                            },
                        }
                    } else {
                        Ok(s1)
                    },
                }
            },
        }
    }
}

/// The code with each jump to the end of the program at a place of `ends`
/// from `from` on given the length of the code as its target.
pub open spec fn patched(
    code: Seq<crate::mips::instructions::Instruction>,
    ends: Seq<usize>,
    from: int,
) -> Seq<crate::mips::instructions::Instruction>
    decreases ends.len() - from,
{
    if from < 0 || from >= ends.len() {
        code
    } else {
        patched(code.update(ends[from] as int, jump_to(code.len() as usize)), ends, from + 1)
    }
}

impl ProgramView {
    /// The target program of this program with the given registers.
    pub open spec fn emitted(self, registers: Registers) -> Result<
        Seq<crate::mips::instructions::Instruction>,
        Error,
    > {
        match Emission::empty(self.blocks.len()).block(self, registers, BlockId(0)) {
            Err(e) => Err(e),
            Ok(s) => Ok(patched(s.code, s.ends, 0)),
        }
    }

    /// The target program of this program: its values get their
    /// registers, then its blocks are emitted from the entry.
    pub open spec fn lowered(self) -> Result<Seq<crate::mips::instructions::Instruction>, Error> {
        match self.allocation() {
            Err(e) => Err(e),
            Ok(registers) => self.emitted(registers),
        }
    }
}

impl Emission {
    /// Every block has its entry, and every jump to the end of the
    /// program is in the code.
    pub open spec fn inv(self, n: nat) -> bool {
        &&& self.starts.len() == n
        &&& forall|k: int| 0 <= k < self.ends.len() ==> (#[trigger] self.ends[k]) < self.code.len()
        &&& crate::mips::text::all_plain(self.code)
    }

    /// Whether `other` is no shorter, and has no more blocks to reach.
    pub open spec fn grows(self, other: Emission) -> bool {
        &&& self.code.len() <= other.code.len()
        &&& other.pending() <= self.pending()
    }
}

/// The state of the generator: the target program so far, the program
/// that is lowered, the registers of its values, where each block that
/// has been reached starts, and where the jumps to the end are.
pub struct State<'a> {
    mips_program: crate::mips::instructions::Program,
    ir_program: &'a Program,
    registers: RegisterAllocation,
    block_start: Vec<Option<usize>>,
    jump_to_end: Vec<usize>,
}

impl<'a> View for State<'a> {
    type V = Emission;

    closed spec fn view(&self) -> Emission {
        Emission { code: self.mips_program.instructions@, starts: self.block_start@, ends: self.jump_to_end@ }
    }
}

impl<'a> State<'a> {
    /// The program that is lowered.
    pub closed spec fn program(&self) -> ProgramView {
        self.ir_program@
    }

    /// The registers of the values of the program.
    pub closed spec fn allocation(&self) -> Registers {
        self.registers@
    }

    /// The state is in order: the program is well formed, every value
    /// with a register has its register, and the emission is in order.
    pub open spec fn inv(&self) -> bool {
        &&& self.program().well_formed()
        &&& self.allocation().registers.len() == self.allocation().vars.len()
        &&& self@.inv(self.program().blocks.len())
    }

    /// Gives the values of the program their registers, and starts with
    /// nothing emitted.
    pub fn new(ir_program: &'a Program) -> (r: Result<State<'a>, Error>)
        requires
            ir_program@.well_formed(),
        ensures
            match ir_program@.allocation() {
                Ok(registers) => r is Ok && r->Ok_0.allocation() == registers && r->Ok_0.program() == ir_program@
                    && r->Ok_0@ == Emission::empty(ir_program@.blocks.len()) && r->Ok_0.inv(),
                Err(e) => r == Err::<State<'a>, Error>(e),
            },
    {
        let registers = match RegisterAllocation::allocate(ir_program) {
            Ok(x) => x,
            Err(e) => {
                return Err(e);
            },
        };
        let mut block_start: Vec<Option<usize>> = Vec::new();
        let mut i: usize = 0;
        while i < ir_program.blocks.len()
            invariant
                i <= ir_program.blocks.len(),
                block_start@ == Seq::new(i as nat, |k: int| None::<usize>),
            decreases ir_program.blocks.len() - i,
        {
            block_start.push(None);
            i = i + 1;
            assert(block_start@ =~= Seq::new(i as nat, |k: int| None::<usize>));
        }
        Ok(
            State {
                mips_program: crate::mips::instructions::Program::new(),
                ir_program,
                registers,
                block_start,
                jump_to_end: Vec::new(),
            },
        )
    }

    /// The target operand of an operand.
    pub fn var_to_register(&self, v: &VarOrConst) -> (r: Result<RegisterOrNumber, Error>)
        requires
            self.inv(),
        ensures
            r == self.allocation().operand(v@),
    {
        match v {
            VarOrConst::Var(id) => match self.registers.get(*id) {
                Some(register) => Ok(RegisterOrNumber::Register(register)),
                None => Err(Error::UndefinedName),
            },
            VarOrConst::External(_) => Err(Error::UnsupportedSyntax),
            VarOrConst::Const(x) => Ok(RegisterOrNumber::Number(*x)),
        }
    }

    /// Emits an instruction.
    fn push(&mut self, instruction: crate::mips::instructions::Instruction)
        requires
            old(self).inv(),
            instruction.plain(),
        ensures
            final(self)@ == old(self)@.push(instruction),
            final(self).inv(),
            final(self).program() == old(self).program(),
            final(self).allocation() == old(self).allocation(),
    {
        self.mips_program.instructions.push(instruction);
        proof {
            assert forall|k: int| 0 <= k < self@.ends.len() implies (#[trigger] self@.ends[k]) < self@.code.len() by {
                assert(old(self)@.ends[k] < old(self)@.code.len());
            }
            assert forall|k: int| 0 <= k < self@.code.len() implies (#[trigger] self@.code[k]).plain() by {
                if k < old(self)@.code.len() {
                    assert(old(self)@.code[k].plain());
                }
            }
        }
    }

    /// The target instruction of a call.
    fn generate_call(&self, register: Register, name: &String, args: &Vec<VarOrConst>) -> (r: Result<
        crate::mips::instructions::Instruction,
        Error,
    >)
        requires
            self.inv(),
        ensures
            r == self.allocation().call(register, name@, operands(args@)),
            r matches Ok(instruction) ==> instruction.plain(),
    {
        if same_text(name, "store") {
            if args.len() < 3 {
                return Err(Error::UnsupportedSyntax);
            }
            let device = match external_device(&args[0]) {
                Some(x) => x,
                None => {
                    return Err(Error::UnsupportedSyntax);
                },
            };
            let variable = match external_variable(&args[1]) {
                Some(x) => x,
                None => {
                    return Err(Error::UnsupportedSyntax);
                },
            };
            let value = match self.var_to_register(&args[2]) {
                Ok(x) => x,
                Err(e) => {
                    return Err(e);
                },
            };
            Ok(
                crate::mips::instructions::Instruction::DeviceIo(
                    DeviceIo::StoreDeviceVariable { device, variable, register: value },
                ),
            )
        } else if same_text(name, "load") {
            if args.len() < 2 {
                return Err(Error::UnsupportedSyntax);
            }
            let device = match external_device(&args[0]) {
                Some(x) => x,
                None => {
                    return Err(Error::UnsupportedSyntax);
                },
            };
            let variable = match external_variable(&args[1]) {
                Some(x) => x,
                None => {
                    return Err(Error::UnsupportedSyntax);
                },
            };
            Ok(
                crate::mips::instructions::Instruction::DeviceIo(
                    DeviceIo::LoadDeviceVariable { register, device, variable },
                ),
            )
        } else {
            Err(Error::UnknownCall)
        }
    }

    /// Emits the target instruction of an assignment, if it has one.
    pub fn generate_assignment(&mut self, id: &VarId, value: &VarValue) -> (r: Result<(), Error>)
        requires
            old(self).inv(),
        ensures
            match old(self).allocation().assignment(*id, value@) {
                Ok(Some(instruction)) => r is Ok && final(self)@ == old(self)@.push(instruction),
                Ok(None) => r is Ok && final(self)@ == old(self)@,
                Err(e) => r == Err::<(), Error>(e),
            },
            r is Ok ==> final(self).inv() && final(self).program() == old(self).program() && final(self).allocation() == old(self).allocation(),
    {
        let register = match self.registers.get(*id) {
            Some(x) => x,
            None => {
                return Err(Error::UndefinedName);
            },
        };
        match value {
            VarValue::Single(simple) => {
                let a = match self.var_to_register(simple) {
                    Ok(x) => x,
                    Err(e) => {
                        return Err(e);
                    },
                };
                self.push(crate::mips::instructions::Instruction::Misc(Misc::Move { register, a }));
            },
            VarValue::BinaryOp { lhs, op, rhs } => {
                let a = match self.var_to_register(lhs) {
                    Ok(x) => x,
                    Err(e) => {
                        return Err(e);
                    },
                };
                let b = match self.var_to_register(rhs) {
                    Ok(x) => x,
                    Err(e) => {
                        return Err(e);
                    },
                };
                self.push(binary_instruction(*op, register, a, b));
            },
            VarValue::Call { name, args } => {
                let instruction = match self.generate_call(register, name, args) {
                    Ok(x) => x,
                    Err(e) => {
                        return Err(e);
                    },
                };
                self.push(instruction);
            },
            VarValue::Phi(_) => {},
        }
        Ok(())
    }

    /// Emits the block `block_id`: a jump to its start if it has been
    /// reached, else its instructions and what follows.
    pub fn generate_block(&mut self, block_id: BlockId) -> (r: Result<(), Error>)
        requires
            old(self).inv(),
            block_id.0 < old(self).program().blocks.len(),
        ensures
            match old(self)@.block(old(self).program(), old(self).allocation(), block_id) {
                Ok(s) => r is Ok && final(self)@ == s,
                Err(e) => r == Err::<(), Error>(e),
            },
            r is Ok ==> final(self).inv() && final(self).program() == old(self).program() && final(self).allocation() == old(self).allocation() && old(self)@.grows(final(self)@),
        decreases old(self)@.pending(), 0nat, 0nat,
    {
        // If block is already generated, just jump to it
        if let Some(pos) = self.block_start[block_id.0] {
            self.push(
                crate::mips::instructions::Instruction::FlowControl(
                    FlowControl::Jump { a: JumpDest::Number(Number::from_index(pos)) },
                ),
            );
            return Ok(());
        }
        proof {
            lemma_count_none_update(self@.starts, block_id.0 as int, self@.code.len() as usize);
        }
        let position: usize = self.mips_program.instructions.len();
        self.block_start.set(block_id.0, Some(position));
        let ghost started = self@;
        let ghost p = self.program();
        let ghost registers = self.allocation();
        let block: &Block = &self.ir_program.blocks[block_id.0];
        let mut i: usize = 0;
        while i < block.instructions.len()
            invariant
                i <= block.instructions.len(),
                self.inv(),
                self.program() == p,
                self.allocation() == registers,
                p == old(self).program(),
                registers == old(self).allocation(),
                block_id.0 < p.blocks.len(),
                block@ == p.blocks[block_id.0 as int],
                started.pending() < old(self)@.pending(),
                self@.pending() == started.pending(),
                started.code.len() <= self@.code.len(),
                old(self)@.code.len() == started.code.len(),
                old(self)@.block(p, registers, block_id) == started.steps(p, registers, block_id, 0),
                started.steps(p, registers, block_id, 0) == self@.steps(p, registers, block_id, i as int),
            decreases block.instructions.len() - i,
        {
            match &block.instructions[i] {
                Instruction::Assignment { id, value } => {
                    match self.generate_assignment(id, value) {
                        Ok(_) => {},
                        Err(e) => {
                            return Err(e);
                        },
                    }
                },
                Instruction::Branch { cond, true_block, false_block } => {
                    proof {
                        assert(p.has(block_id.0 as int, i as int));
                        assert(p.at(block_id.0 as int, i as int).targets_below(p.blocks.len() as int));
                    }
                    return self.generate_branch(cond, true_block, false_block);
                },
                Instruction::Yield => {
                    self.push(crate::mips::instructions::Instruction::new_yield());
                },
                Instruction::Return(_) => {
                    self.push(
                        crate::mips::instructions::Instruction::FlowControl(
                            FlowControl::Jump { a: JumpDest::Register(Register::Ra) },
                        ),
                    );
                },
            }
            i = i + 1;
        }
        if block.next.len() >= 2 {
            return Err(Error::UnsupportedSyntax);
        }
        if block.next.len() == 1 {
            let next: BlockId = block.next[0];
            proof {
                assert(p.blocks[block_id.0 as int].next[0].0 < p.blocks.len());
            }
            return self.generate_block(next);
        }
        let at: usize = self.mips_program.instructions.len();
        self.push(
            crate::mips::instructions::Instruction::FlowControl(
                FlowControl::Jump { a: JumpDest::Number(Number::from_i64(-1)) },
            ),
        );
        let ghost before = self@;
        self.jump_to_end.push(at);
        proof {
            assert forall|k: int| 0 <= k < self@.ends.len() implies (#[trigger] self@.ends[k]) < self@.code.len() by {
                if k < self@.ends.len() - 1 {
                    assert(before.ends[k] < before.code.len());
                }
            }
        }
        Ok(())
    }

    /// Emits a branch with the blocks for true and for false.
    pub fn generate_branch(&mut self, cond_var: &VarOrConst, true_block_id: &BlockId, false_block_id: &BlockId) -> (r:
        Result<(), Error>)
        requires
            old(self).inv(),
            true_block_id.0 < old(self).program().blocks.len(),
            false_block_id.0 < old(self).program().blocks.len(),
        ensures
            match old(self)@.branch(
                old(self).program(),
                old(self).allocation(),
                cond_var@,
                *true_block_id,
                *false_block_id,
            ) {
                Ok(s) => r is Ok && final(self)@ == s,
                Err(e) => r == Err::<(), Error>(e),
            },
            r is Ok ==> final(self).inv() && final(self).program() == old(self).program() && final(self).allocation() == old(self).allocation() && old(self)@.grows(final(self)@),
        decreases old(self)@.pending(), 0nat, 1nat,
    {
        let a = match self.var_to_register(cond_var) {
            Ok(x) => x,
            Err(e) => {
                return Err(e);
            },
        };
        // The position of the branch is kept, so that its target can be filled in.
        let jeqz_idx: usize = self.mips_program.instructions.len();
        self.push(
            crate::mips::instructions::Instruction::FlowControl(
                FlowControl::BranchEqualZero { a, b: RegisterOrNumber::Number(Number::from_i64(-1)) },
            ),
        );
        match self.generate_block(*true_block_id) {
            Ok(_) => {},
            Err(e) => {
                return Err(e);
            },
        }
        match self.generate_block(*false_block_id) {
            Ok(_) => {},
            Err(e) => {
                return Err(e);
            },
        }
        let idx: usize = match self.block_start[false_block_id.0] {
            Some(x) => x,
            None => {
                return Err(Error::UnsupportedSyntax);
            },
        };
        self.mips_program.instructions.set(
            jeqz_idx,
            crate::mips::instructions::Instruction::FlowControl(
                FlowControl::BranchEqualZero { a, b: RegisterOrNumber::Number(Number::from_index(idx)) },
            ),
        );
        Ok(())
    }
}

/// The target instruction of a binary operator.
fn binary_instruction(op: BinaryOpcode, register: Register, a: RegisterOrNumber, b: RegisterOrNumber) -> (r:
    crate::mips::instructions::Instruction)
    ensures
        r == binary(op, register, a, b),
        r.plain(),
{
    match op {
        BinaryOpcode::Add => crate::mips::instructions::Instruction::Arithmetic(Arithmetic::Add { register, a, b }),
        BinaryOpcode::Sub => crate::mips::instructions::Instruction::Arithmetic(
            Arithmetic::Subtract { register, a, b },
        ),
        BinaryOpcode::Mul => crate::mips::instructions::Instruction::Arithmetic(
            Arithmetic::Multiply { register, a, b },
        ),
        BinaryOpcode::Div => crate::mips::instructions::Instruction::Arithmetic(
            Arithmetic::Divide { register, a, b },
        ),
        BinaryOpcode::Conj => crate::mips::instructions::Instruction::Logic(Logic::And { register, a, b }),
        BinaryOpcode::Disj => crate::mips::instructions::Instruction::Logic(Logic::Or { register, a, b }),
        BinaryOpcode::Equals => crate::mips::instructions::Instruction::VariableSelection(
            VariableSelection::SelectEqual { register, a, b },
        ),
        BinaryOpcode::NotEquals => crate::mips::instructions::Instruction::VariableSelection(
            VariableSelection::SelectNotEqual { register, a, b },
        ),
        BinaryOpcode::Greater => crate::mips::instructions::Instruction::VariableSelection(
            VariableSelection::SelectGreaterThan { register, a, b },
        ),
        BinaryOpcode::GreaterEquals => crate::mips::instructions::Instruction::VariableSelection(
            VariableSelection::SelectGreaterOrEqual { register, a, b },
        ),
        BinaryOpcode::Lower => crate::mips::instructions::Instruction::VariableSelection(
            VariableSelection::SelectLessThan { register, a, b },
        ),
        BinaryOpcode::LowerEquals => crate::mips::instructions::Instruction::VariableSelection(
            VariableSelection::SelectLessOrEqual { register, a, b },
        ),
    }
}

/// The device that an operand names.
fn external_device(v: &VarOrConst) -> (r: Option<Device>)
    ensures
        r == device_of(v@),
{
    match v.external() {
        Some(name) => Device::from_name(name),
        None => None,
    }
}

/// The device attribute that an operand names.
fn external_variable(v: &VarOrConst) -> (r: Option<DeviceVariable>)
    ensures
        r == variable_of(v@),
{
    match v.external() {
        Some(name) => DeviceVariable::from_name(name),
        None => None,
    }
}

/// Lowers a program to a target program: gives its values their
/// registers, emits its blocks from the entry, and fills in the jumps to
/// the end of the program. No instruction of the target program holds
/// free text, and every jump and branch in it goes to a line of the
/// program or to its end.
pub fn generate_mips_from_ir(ir_program: Program) -> (r: Result<crate::mips::instructions::Program, Error>)
    requires
        ir_program@.well_formed(),
        ir_program@.blocks.len() > 0,
    ensures
        match ir_program@.lowered() {
            Ok(code) => r is Ok && r->Ok_0.instructions@ == code && crate::mips::text::all_plain(code)
                && crate::ir::targets::all_land(code),
            Err(e) => r == Err::<crate::mips::instructions::Program, Error>(e),
        },
{
    proof {
        if let Ok(registers) = ir_program@.allocation() {
            crate::ir::targets::lemma_emitted_lands(ir_program@, registers);
        }
    }
    let mut state = match State::new(&ir_program) {
        Ok(x) => x,
        Err(e) => {
            return Err(e);
        },
    };
    match state.generate_block(BlockId(0)) {
        Ok(_) => {},
        Err(e) => {
            return Err(e);
        },
    }
    let ghost emitted = state@;
    let length: usize = state.mips_program.instructions.len();
    let mut k: usize = 0;
    while k < state.jump_to_end.len()
        invariant
            k <= state.jump_to_end.len(),
            state@.ends == emitted.ends,
            state@.code.len() == emitted.code.len(),
            length == emitted.code.len(),
            forall|j: int| 0 <= j < emitted.ends.len() ==> (#[trigger] emitted.ends[j]) < emitted.code.len(),
            crate::mips::text::all_plain(state@.code),
            patched(emitted.code, emitted.ends, 0) == patched(state@.code, emitted.ends, k as int),
        decreases state.jump_to_end.len() - k,
    {
        let i: usize = state.jump_to_end[k];
        state.mips_program.instructions.set(
            i,
            crate::mips::instructions::Instruction::FlowControl(
                FlowControl::Jump { a: JumpDest::Number(Number::from_index(length)) },
            ),
        );
        k = k + 1;
    }
    Ok(state.mips_program)
}

} // verus!
