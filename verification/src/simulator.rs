//! The interpreter of target programs.
//!
//! A tick runs up to 127 instructions. The interpreter decides everything
//! itself except the four operations on numbers: when an instruction needs a
//! sum, a difference, a product or a quotient, the run stops with the
//! operation to compute, and goes on when the caller hands the result back.
use vstd::prelude::*;
use crate::error::Error;
use crate::mips::instructions::{
    Arithmetic,
    DeviceIo,
    FlowControl,
    Instruction,
    Logic,
    Misc,
    Program,
    VariableSelection,
};
use crate::mips::types::{Device, DeviceVariable, JumpDest, Register, RegisterOrNumber};
use crate::number::{Number, ONE_BITS};

verus! {

/// How many instructions one tick runs at most.
pub const TICK_LIMIT: usize = 127;

/// How many registers the machine has.
pub const REGISTERS: usize = 18;

/// How many attributes a device has.
pub const ATTRIBUTES: usize = 57;

/// How many attributes all devices have together.
pub const CELLS: usize = 399;

/// How a tick ended.
#[derive(Debug, PartialEq, Eq, Clone, Copy, Structural)]
pub enum TickResult {
    /// The program executed `yield`.
    Yield,
    /// The tick ran its 127 instructions.
    LimitHit,
    /// The program counter left the program.
    End,
}

/// An operation on numbers that the interpreter leaves to its caller.
#[derive(Debug, PartialEq, Eq, Clone, Copy, Structural)]
pub enum Operator {
    Add,
    Subtract,
    Multiply,
    Divide,
}

/// A request for `a operator b`.
#[derive(Debug, PartialEq, Eq, Clone, Copy, Structural)]
pub struct Operation {
    pub operator: Operator,
    pub a: Number,
    pub b: Number,
}

/// Where a run stopped.
#[derive(Debug, PartialEq, Eq, Clone, Copy, Structural)]
pub enum Progress {
    /// The tick is over.
    Done(TickResult),
    /// The run waits for the result of an operation.
    Compute(Operation),
}

/// What the interpreter does with the result it waits for.
#[derive(Debug, PartialEq, Eq, Clone, Copy, Structural)]
pub enum Pending {
    /// No result is awaited.
    Nothing,
    /// The result goes to a register.
    Register(Register),
    /// The register becomes 1 if the result is nearer to zero than the bound, else 0.
    Within { register: Register, bound: Number },
    /// The register becomes 1 if the result is at least the bound away from zero, else 0.
    Beyond { register: Register, bound: Number },
}

/// What executing one instruction asks for next.
#[derive(Debug, PartialEq, Eq, Clone, Copy, Structural)]
pub enum Outcome {
    /// Go on with the following instruction.
    Next,
    /// Stop until the caller has computed the operation.
    Wait(Operation),
    /// The instruction is not implemented.
    Fault,
}

/// The machine as a mathematical value: the register file, the attributes
/// of all devices, and what is awaited.
pub struct Machine {
    pub registers: Seq<Number>,
    pub devices: Seq<Number>,
    pub pending: Pending,
}

/// A machine after an instruction, and what the instruction asks for.
pub struct Effect {
    pub machine: Machine,
    pub outcome: Outcome,
}

/// A machine after a run, how many instructions the tick has left, and why
/// the run stopped.
pub struct Run {
    pub machine: Machine,
    pub budget: nat,
    pub result: Result<Progress, Error>,
}

/// The place of an attribute of a device among all attributes.
pub open spec fn cell(device: Device, variable: DeviceVariable) -> int {
    device.slot() * 57 + variable.slot()
}

/// The number zero.
pub open spec fn zero() -> Number {
    Number { bits: 0 }
}

/// The number one.
pub open spec fn one() -> Number {
    Number { bits: ONE_BITS }
}

impl Machine {
    /// The register file and the devices have their sizes.
    pub open spec fn well_formed(self) -> bool {
        self.registers.len() == 18 && self.devices.len() == 399
    }

    /// The machine at power-on: every register and attribute is zero.
    pub open spec fn initial() -> Machine {
        Machine {
            registers: Seq::new(18, |i: int| zero()),
            devices: Seq::new(399, |i: int| zero()),
            pending: Pending::Nothing,
        }
    }

    /// The value of a register.
    pub open spec fn get(self, register: Register) -> Number {
        self.registers[register.slot()]
    }

    /// The machine with a register set.
    pub open spec fn set(self, register: Register, value: Number) -> Machine {
        Machine { registers: self.registers.update(register.slot(), value), ..self }
    }

    /// The value of an attribute of a device.
    pub open spec fn attribute(self, device: Device, variable: DeviceVariable) -> Number {
        self.devices[cell(device, variable)]
    }

    /// The machine with an attribute of a device set.
    pub open spec fn store(self, device: Device, variable: DeviceVariable, value: Number) -> Machine {
        Machine { devices: self.devices.update(cell(device, variable), value), ..self }
    }

    /// The value of an operand.
    pub open spec fn operand(self, x: RegisterOrNumber) -> Number {
        match x {
            RegisterOrNumber::Register(r) => self.get(r),
            RegisterOrNumber::Number(n) => n,
        }
    }

    /// Whether an operand counts as true: every number but zero does.
    pub open spec fn truth(self, x: RegisterOrNumber) -> bool {
        !self.operand(x).zero()
    }

    /// The program counter: `sp` rounded to the nearest integer.
    pub open spec fn counter(self) -> i32 {
        self.get(Register::Sp).rounded()
    }

    /// The machine with the program counter moved to the following line.
    pub open spec fn advance(self) -> Machine {
        self.set(Register::Sp, Number::of_int((self.counter() + 1) as i64))
    }

    /// The machine going on unchanged but for a register.
    pub open spec fn next(self, register: Register, value: Number) -> Effect {
        Effect { machine: self.set(register, value), outcome: Outcome::Next }
    }

    /// The machine waiting for `a operator b`.
    pub open spec fn ask(self, pending: Pending, operator: Operator, a: Number, b: Number) -> Effect {
        Effect {
            machine: Machine { pending, ..self },
            outcome: Outcome::Wait(Operation { operator, a, b }),
        }
    }

    /// The machine refusing an instruction.
    pub open spec fn fault(self) -> Effect {
        Effect { machine: self, outcome: Outcome::Fault }
    }

    /// `add`, `sub`, `mul`, `div`: the result of the operation goes to the register.
    pub open spec fn arithmetic(self, ins: Arithmetic) -> Effect {
        match ins {
            Arithmetic::Add { register, a, b } => self.ask(
                Pending::Register(register),
                Operator::Add,
                self.operand(a),
                self.operand(b),
            ),
            Arithmetic::Divide { register, a, b } => self.ask(
                Pending::Register(register),
                Operator::Divide,
                self.operand(a),
                self.operand(b),
            ),
            Arithmetic::Multiply { register, a, b } => self.ask(
                Pending::Register(register),
                Operator::Multiply,
                self.operand(a),
                self.operand(b),
            ),
            Arithmetic::Subtract { register, a, b } => self.ask(
                Pending::Register(register),
                Operator::Subtract,
                self.operand(a),
                self.operand(b),
            ),
        }
    }

    /// `and`, `or`: 1 or 0, where every operand but zero is true.
    pub open spec fn logic(self, ins: Logic) -> Effect {
        match ins {
            Logic::And { register, a, b } => self.next(
                register,
                Number::of_bool(self.truth(a) && self.truth(b)),
            ),
            Logic::Or { register, a, b } => self.next(
                register,
                Number::of_bool(self.truth(a) || self.truth(b)),
            ),
        }
    }

    /// `s` writes an operand to an attribute; `l` reads an attribute into a register.
    pub open spec fn device_io(self, ins: DeviceIo) -> Effect {
        match ins {
            DeviceIo::StoreDeviceVariable { device, variable, register } => Effect {
                machine: self.store(device, variable, self.operand(register)),
                outcome: Outcome::Next,
            },
            DeviceIo::LoadDeviceVariable { register, device, variable } => self.next(
                register,
                self.attribute(device, variable),
            ),
        }
    }

    /// `move` copies an operand to a register, `yield` changes nothing; the
    /// other instructions of the group are not implemented.
    pub open spec fn misc(self, ins: Misc) -> Effect {
        match ins {
            Misc::Move { register, a } => self.next(register, self.operand(a)),
            Misc::Yield => Effect { machine: self, outcome: Outcome::Next },
            _ => self.fault(),
        }
    }

    /// The selections: the register becomes 1 or 0 by a comparison, or one
    /// of two operands. Comparing a difference with a bound waits for the
    /// difference first.
    pub open spec fn select(self, ins: VariableSelection) -> Effect {
        match ins {
            VariableSelection::SelectApproximatelyEqual { register, a, b, c } => self.ask(
                Pending::Within { register, bound: self.operand(c) },
                Operator::Subtract,
                self.operand(a),
                self.operand(b),
            ),
            VariableSelection::SelectApproximatelyZero { register, a, b } => self.next(
                register,
                Number::of_bool(self.operand(a).absolute().less(self.operand(b))),
            ),
            VariableSelection::Select { register, a, b, c } => self.next(
                register,
                if self.truth(a) {
                    self.operand(b)
                } else {
                    self.operand(c)
                },
            ),
            VariableSelection::SelectEqual { register, a, b } => self.next(
                register,
                Number::of_bool(self.operand(a).equals(self.operand(b))),
            ),
            VariableSelection::SelectEqualZero { register, a } => self.next(
                register,
                Number::of_bool(self.operand(a).zero()),
            ),
            VariableSelection::SelectGreaterOrEqual { register, a, b } => self.next(
                register,
                Number::of_bool(self.operand(b).at_most(self.operand(a))),
            ),
            VariableSelection::SelectGreaterOrEqualZero { register, a } => self.next(
                register,
                Number::of_bool(zero().at_most(self.operand(a))),
            ),
            VariableSelection::SelectGreaterThan { register, a, b } => self.next(
                register,
                Number::of_bool(self.operand(b).less(self.operand(a))),
            ),
            VariableSelection::SelectGreaterThanZero { register, a } => self.next(
                register,
                Number::of_bool(zero().less(self.operand(a))),
            ),
            VariableSelection::SelectLessOrEqual { register, a, b } => self.next(
                register,
                Number::of_bool(self.operand(a).at_most(self.operand(b))),
            ),
            VariableSelection::SelectLessOrEqualZero { register, a } => self.next(
                register,
                Number::of_bool(self.operand(a).at_most(zero())),
            ),
            VariableSelection::SelectLessThan { register, a, b } => self.next(
                register,
                Number::of_bool(self.operand(a).less(self.operand(b))),
            ),
            VariableSelection::SelectLessThanZero { register, a } => self.next(
                register,
                Number::of_bool(self.operand(a).less(zero())),
            ),
            VariableSelection::SelectNotApproximatelyEqual { register, a, b, c } => self.ask(
                Pending::Beyond { register, bound: self.operand(c) },
                Operator::Subtract,
                self.operand(a),
                self.operand(b),
            ),
            VariableSelection::SelectNotApproximatelyZero { register, a, b } => self.next(
                register,
                Number::of_bool(self.operand(b).at_most(self.operand(a).absolute())),
            ),
            VariableSelection::SelectNotEqual { register, a, b } => self.next(
                register,
                Number::of_bool(!self.operand(a).equals(self.operand(b))),
            ),
            VariableSelection::SelectNotEqualZero { register, a } => self.next(
                register,
                Number::of_bool(!self.operand(a).zero()),
            ),
        }
    }

    /// `beqz a b` puts the line before `b` into `sp` if `a` is zero; `j a`
    /// puts `a - 1` there, and waits for that difference. A jump to a label
    /// and the other jumps are not implemented.
    pub open spec fn flow(self, ins: FlowControl) -> Effect {
        match ins {
            FlowControl::BranchEqualZero { a, b } => if self.operand(a).zero() {
                self.next(Register::Sp, Number::of_int((self.operand(b).truncated() - 1) as i64))
            } else {
                Effect { machine: self, outcome: Outcome::Next }
            },
            FlowControl::Jump { a } => match a {
                JumpDest::Label(_) => self.fault(),
                JumpDest::Register(r) => self.ask(
                    Pending::Register(Register::Sp),
                    Operator::Subtract,
                    self.get(r),
                    one(),
                ),
                JumpDest::Number(x) => self.ask(
                    Pending::Register(Register::Sp),
                    Operator::Subtract,
                    x,
                    one(),
                ),
            },
            _ => self.fault(),
        }
    }

    /// What one instruction does, before the program counter moves on.
    pub open spec fn execute(self, ins: Instruction) -> Effect {
        match ins {
            Instruction::Arithmetic(x) => self.arithmetic(x),
            Instruction::DeviceIo(x) => self.device_io(x),
            Instruction::Misc(x) => self.misc(x),
            Instruction::VariableSelection(x) => self.select(x),
            Instruction::FlowControl(x) => self.flow(x),
            Instruction::Logic(x) => self.logic(x),
            Instruction::Stack(_) => self.fault(),
        }
    }

    /// The machine after the awaited result has arrived.
    pub open spec fn supply(self, value: Number) -> Machine {
        let idle = Machine { pending: Pending::Nothing, ..self };
        match self.pending {
            Pending::Nothing => idle,
            Pending::Register(register) => idle.set(register, value),
            Pending::Within { register, bound } => idle.set(
                register,
                Number::of_bool(value.absolute().less(bound)),
            ),
            Pending::Beyond { register, bound } => idle.set(
                register,
                Number::of_bool(bound.at_most(value.absolute())),
            ),
        }
    }

    /// The machine from which the run goes on after a result has been
    /// handed over: with the result where it belongs and the program
    /// counter on the following line, if a result is awaited; else unchanged.
    pub open spec fn resumed(self, value: Number) -> Machine {
        if self.pending == Pending::Nothing {
            self
        } else {
            self.supply(value).advance()
        }
    }

    /// Runs instructions until the budget is used up, the program counter
    /// leaves the program, a `yield` is executed, an operation has to be
    /// computed or an instruction is not implemented. Every instruction
    /// fetched costs one unit of the budget; after an instruction that
    /// completes, the program counter moves to the following line.
    pub open spec fn run(self, program: Seq<Instruction>, budget: nat) -> Run
        decreases budget,
    {
        if budget == 0 {
            Run { machine: self, budget, result: Ok(Progress::Done(TickResult::LimitHit)) }
        } else if self.counter() < 0 || self.counter() >= program.len() {
            Run { machine: self, budget, result: Ok(Progress::Done(TickResult::End)) }
        } else {
            let ins = program[self.counter() as int];
            let left = (budget - 1) as nat;
            if ins == Instruction::Misc(Misc::Yield) {
                Run {
                    machine: self.advance(),
                    budget: left,
                    result: Ok(Progress::Done(TickResult::Yield)),
                }
            } else {
                let effect = self.execute(ins);
                match effect.outcome {
                    Outcome::Next => effect.machine.advance().run(program, left),
                    Outcome::Wait(operation) => Run {
                        machine: effect.machine,
                        budget: left,
                        result: Ok(Progress::Compute(operation)),
                    },
                    Outcome::Fault => Run { machine: self, budget: left, result: Err(Error::Todo) },
                }
            }
        }
    }
}

/// Setting an attribute of a device sets that attribute and no other.
pub proof fn lemma_store(m: Machine, device: Device, variable: DeviceVariable, value: Number, other: Device, at: DeviceVariable)
    requires
        m.well_formed(),
    ensures
        m.store(device, variable, value).attribute(other, at) == if other == device && at == variable {
            value
        } else {
            m.attribute(other, at)
        },
        m.store(device, variable, value).well_formed(),
        m.store(device, variable, value).registers == m.registers,
{
    assert(0 <= variable.slot() < 57 && 0 <= at.slot() < 57);
    assert(0 <= device.slot() < 7 && 0 <= other.slot() < 7);
    if cell(device, variable) == cell(other, at) {
        assert(device.slot() == other.slot());
        assert(variable.slot() == at.slot());
    }
}

/// The registers, the devices and the progress of the tick.
pub struct State {
    registers: Vec<Number>,
    devices: Vec<Number>,
    pending: Pending,
    budget: usize,
}

/// A program and the machine that runs it.
pub struct Simulator {
    instructions: Vec<Instruction>,
    state: State,
}

impl View for State {
    type V = Machine;

    closed spec fn view(&self) -> Machine {
        Machine { registers: self.registers@, devices: self.devices@, pending: self.pending }
    }
}

/// A vector of `n` zeros.
fn zeros(n: usize) -> (r: Vec<Number>)
    ensures
        r@ == Seq::new(n as nat, |i: int| zero()),
{
    let mut r: Vec<Number> = Vec::new();
    let mut i: usize = 0;
    while i < n
        invariant
            i <= n,
            r@ == Seq::new(i as nat, |k: int| zero()),
        decreases n - i,
    {
        r.push(Number { bits: 0 });
        i = i + 1;
        assert(r@ =~= Seq::new(i as nat, |k: int| zero()));
    }
    r
}

impl State {
    /// How many instructions the tick has left.
    pub closed spec fn left(&self) -> nat {
        self.budget as nat
    }

    /// The machine at power-on.
    pub fn new() -> (r: State)
        ensures
            r@ == Machine::initial(),
            r.left() == 0,
    {
        State { registers: zeros(REGISTERS), devices: zeros(CELLS), pending: Pending::Nothing, budget: 0 }
    }

    /// The program counter.
    pub fn sp(&self) -> (r: i32)
        requires
            self@.well_formed(),
        ensures
            r == self@.counter(),
    {
        self.registers[Register::Sp.index()].round()
    }

    /// Puts the program counter on a line.
    pub fn set_sp(&mut self, sp: i64)
        requires
            old(self)@.well_formed(),
        ensures
            final(self)@ == old(self)@.set(Register::Sp, Number::of_int(sp)),
            final(self).left() == old(self).left(),
    {
        self.registers.set(Register::Sp.index(), Number::from_i64(sp));
    }

    /// The value of an operand.
    pub fn read(&self, r: &RegisterOrNumber) -> (value: Number)
        requires
            self@.well_formed(),
        ensures
            value == self@.operand(*r),
    {
        match r {
            RegisterOrNumber::Register(r) => self.registers[r.index()],
            RegisterOrNumber::Number(x) => *x,
        }
    }

    /// Whether an operand counts as true.
    pub fn read_bool(&self, v: &RegisterOrNumber) -> (r: bool)
        requires
            self@.well_formed(),
        ensures
            r == self@.truth(*v),
    {
        !self.read(v).is_zero()
    }

    fn put(&mut self, register: &Register, value: Number) -> (r: Outcome)
        requires
            old(self)@.well_formed(),
        ensures
            old(self)@.next(*register, value) == (Effect { machine: final(self)@, outcome: r }),
            final(self).left() == old(self).left(),
    {
        self.registers.set(register.index(), value);
        Outcome::Next
    }

    fn request(&mut self, pending: Pending, operator: Operator, a: Number, b: Number) -> (r: Outcome)
        ensures
            old(self)@.ask(pending, operator, a, b) == (Effect { machine: final(self)@, outcome: r }),
            final(self).left() == old(self).left(),
    {
        self.pending = pending;
        Outcome::Wait(Operation { operator, a, b })
    }

    /// Executes `and` or `or`.
    pub fn execute_logic(&mut self, ins: &Logic) -> (r: Outcome)
        requires
            old(self)@.well_formed(),
        ensures
            old(self)@.logic(*ins) == (Effect { machine: final(self)@, outcome: r }),
            final(self).left() == old(self).left(),
    {
        match ins {
            Logic::And { register, a, b } => {
                let value: bool = self.read_bool(a) && self.read_bool(b);
                self.put(register, Number::from_bool(value))
            },
            Logic::Or { register, a, b } => {
                let value: bool = self.read_bool(a) || self.read_bool(b);
                self.put(register, Number::from_bool(value))
            },
        }
    }

    /// Executes `add`, `sub`, `mul` or `div`: asks for the result.
    pub fn execute_arithmetic(&mut self, ins: &Arithmetic) -> (r: Outcome)
        requires
            old(self)@.well_formed(),
        ensures
            old(self)@.arithmetic(*ins) == (Effect { machine: final(self)@, outcome: r }),
            final(self).left() == old(self).left(),
    {
        match ins {
            Arithmetic::Add { register, a, b } => {
                let x: Number = self.read(a);
                let y: Number = self.read(b);
                self.request(Pending::Register(*register), Operator::Add, x, y)
            },
            Arithmetic::Divide { register, a, b } => {
                let x: Number = self.read(a);
                let y: Number = self.read(b);
                self.request(Pending::Register(*register), Operator::Divide, x, y)
            },
            Arithmetic::Multiply { register, a, b } => {
                let x: Number = self.read(a);
                let y: Number = self.read(b);
                self.request(Pending::Register(*register), Operator::Multiply, x, y)
            },
            Arithmetic::Subtract { register, a, b } => {
                let x: Number = self.read(a);
                let y: Number = self.read(b);
                self.request(Pending::Register(*register), Operator::Subtract, x, y)
            },
        }
    }

    /// Executes `s` or `l`.
    pub fn execute_deviceio(&mut self, ins: &DeviceIo) -> (r: Outcome)
        requires
            old(self)@.well_formed(),
        ensures
            old(self)@.device_io(*ins) == (Effect { machine: final(self)@, outcome: r }),
            final(self).left() == old(self).left(),
    {
        match ins {
            DeviceIo::StoreDeviceVariable { device, variable, register } => {
                let value: Number = self.read(register);
                self.devices.set(device.index() * ATTRIBUTES + variable.index(), value);
                Outcome::Next
            },
            DeviceIo::LoadDeviceVariable { register, device, variable } => {
                let value: Number = self.devices[device.index() * ATTRIBUTES + variable.index()];
                self.put(register, value)
            },
        }
    }

    /// Executes an instruction of the group of `move`.
    pub fn execute_misc(&mut self, ins: &Misc) -> (r: Outcome)
        requires
            old(self)@.well_formed(),
        ensures
            old(self)@.misc(*ins) == (Effect { machine: final(self)@, outcome: r }),
            final(self).left() == old(self).left(),
    {
        match ins {
            Misc::Move { register, a } => {
                let value: Number = self.read(a);
                self.put(register, value)
            },
            Misc::Yield => Outcome::Next,
            _ => Outcome::Fault,
        }
    }

    /// Executes a selection.
    pub fn execute_select(&mut self, ins: &VariableSelection) -> (r: Outcome)
        requires
            old(self)@.well_formed(),
        ensures
            old(self)@.select(*ins) == (Effect { machine: final(self)@, outcome: r }),
            final(self).left() == old(self).left(),
    {
        let nought: Number = Number { bits: 0 };
        let (register, value): (Register, Number) = match ins {
            VariableSelection::SelectApproximatelyEqual { register, a, b, c } => {
                let x: Number = self.read(a);
                let y: Number = self.read(b);
                let bound: Number = self.read(c);
                return self.request(
                    Pending::Within { register: *register, bound },
                    Operator::Subtract,
                    x,
                    y,
                );
            },
            VariableSelection::SelectApproximatelyZero { register, a, b } => (
                *register,
                Number::from_bool(self.read(a).abs().lt_number(&self.read(b))),
            ),
            VariableSelection::Select { register, a, b, c } => (
                *register,
                if self.read_bool(a) {
                    self.read(b)
                } else {
                    self.read(c)
                },
            ),
            VariableSelection::SelectEqual { register, a, b } => (
                *register,
                Number::from_bool(self.read(a).eq_number(&self.read(b))),
            ),
            VariableSelection::SelectEqualZero { register, a } => (
                *register,
                Number::from_bool(self.read(a).is_zero()),
            ),
            VariableSelection::SelectGreaterOrEqual { register, a, b } => (
                *register,
                Number::from_bool(self.read(b).le_number(&self.read(a))),
            ),
            VariableSelection::SelectGreaterOrEqualZero { register, a } => (
                *register,
                Number::from_bool(nought.le_number(&self.read(a))),
            ),
            VariableSelection::SelectGreaterThan { register, a, b } => (
                *register,
                Number::from_bool(self.read(b).lt_number(&self.read(a))),
            ),
            VariableSelection::SelectGreaterThanZero { register, a } => (
                *register,
                Number::from_bool(nought.lt_number(&self.read(a))),
            ),
            VariableSelection::SelectLessOrEqual { register, a, b } => (
                *register,
                Number::from_bool(self.read(a).le_number(&self.read(b))),
            ),
            VariableSelection::SelectLessOrEqualZero { register, a } => (
                *register,
                Number::from_bool(self.read(a).le_number(&nought)),
            ),
            VariableSelection::SelectLessThan { register, a, b } => (
                *register,
                Number::from_bool(self.read(a).lt_number(&self.read(b))),
            ),
            VariableSelection::SelectLessThanZero { register, a } => (
                *register,
                Number::from_bool(self.read(a).lt_number(&nought)),
            ),
            VariableSelection::SelectNotApproximatelyEqual { register, a, b, c } => {
                let x: Number = self.read(a);
                let y: Number = self.read(b);
                let bound: Number = self.read(c);
                return self.request(
                    Pending::Beyond { register: *register, bound },
                    Operator::Subtract,
                    x,
                    y,
                );
            },
            VariableSelection::SelectNotApproximatelyZero { register, a, b } => (
                *register,
                Number::from_bool(self.read(b).le_number(&self.read(a).abs())),
            ),
            VariableSelection::SelectNotEqual { register, a, b } => (
                *register,
                Number::from_bool(!self.read(a).eq_number(&self.read(b))),
            ),
            VariableSelection::SelectNotEqualZero { register, a } => (
                *register,
                Number::from_bool(!self.read(a).is_zero()),
            ),
        };
        self.put(&register, value)
    }

    /// Executes a jump or a branch.
    pub fn execute_flow(&mut self, ins: &FlowControl) -> (r: Outcome)
        requires
            old(self)@.well_formed(),
        ensures
            old(self)@.flow(*ins) == (Effect { machine: final(self)@, outcome: r }),
            final(self).left() == old(self).left(),
    {
        match ins {
            FlowControl::BranchEqualZero { a, b } => {
                if self.read(a).is_zero() {
                    let idx: i32 = self.read(b).truncate();
                    self.set_sp(idx as i64 - 1);
                }
                Outcome::Next
            },
            FlowControl::Jump { a } => {
                match a {
                    JumpDest::Label(_) => Outcome::Fault,
                    JumpDest::Register(r) => {
                        let x: Number = self.registers[r.index()];
                        self.request(
                            Pending::Register(Register::Sp),
                            Operator::Subtract,
                            x,
                            Number { bits: ONE_BITS },
                        )
                    },
                    JumpDest::Number(x) => self.request(
                        Pending::Register(Register::Sp),
                        Operator::Subtract,
                        *x,
                        Number { bits: ONE_BITS },
                    ),
                }
            },
            _ => Outcome::Fault,
        }
    }

    /// Stores the awaited result where it belongs.
    fn complete(&mut self, value: Number)
        requires
            old(self)@.well_formed(),
        ensures
            final(self)@ == old(self)@.supply(value),
            final(self).left() == old(self).left(),
    {
        let pending: Pending = self.pending;
        self.pending = Pending::Nothing;
        match pending {
            Pending::Nothing => {},
            Pending::Register(register) => {
                self.registers.set(register.index(), value);
            },
            Pending::Within { register, bound } => {
                let near: bool = value.abs().lt_number(&bound);
                self.registers.set(register.index(), Number::from_bool(near));
            },
            Pending::Beyond { register, bound } => {
                let far: bool = bound.le_number(&value.abs());
                self.registers.set(register.index(), Number::from_bool(far));
            },
        }
    }

    /// Runs the tick on from where it stands.
    pub fn tick(&mut self, instructions: &Vec<Instruction>) -> (r: Result<Progress, Error>)
        requires
            old(self)@.well_formed(),
        ensures
            final(self)@.well_formed(),
            old(self)@.run(instructions@, old(self).left()) == (Run {
                machine: final(self)@,
                budget: final(self).left(),
                result: r,
            }),
    {
        let ghost start = self@;
        let ghost fuel = self.left();
        loop
            invariant
                self@.well_formed(),
                start == old(self)@,
                fuel == old(self).left(),
                start.run(instructions@, fuel) == self@.run(instructions@, self.left()),
            decreases self.budget,
        {
            if self.budget == 0 {
                return Ok(Progress::Done(TickResult::LimitHit));
            }
            let sp: i32 = self.sp();
            if sp < 0 || sp as usize >= instructions.len() {
                return Ok(Progress::Done(TickResult::End));
            }
            let ins: &Instruction = &instructions[sp as usize];
            self.budget = self.budget - 1;
            let ghost before = self@;
            let outcome: Outcome = match ins {
                Instruction::Arithmetic(x) => self.execute_arithmetic(x),
                Instruction::DeviceIo(x) => self.execute_deviceio(x),
                Instruction::Misc(Misc::Yield) => {
                    self.set_sp(sp as i64 + 1);
                    return Ok(Progress::Done(TickResult::Yield));
                },
                Instruction::Misc(x) => self.execute_misc(x),
                Instruction::VariableSelection(x) => self.execute_select(x),
                Instruction::FlowControl(x) => self.execute_flow(x),
                Instruction::Logic(x) => self.execute_logic(x),
                Instruction::Stack(_) => Outcome::Fault,
            };
            assert(before.execute(*ins) == (Effect { machine: self@, outcome }));
            match outcome {
                Outcome::Next => {
                    let at: i32 = self.sp();
                    self.set_sp(at as i64 + 1);
                },
                Outcome::Wait(operation) => {
                    return Ok(Progress::Compute(operation));
                },
                Outcome::Fault => {
                    return Err(Error::Todo);
                },
            }
        }
    }
}

impl View for Simulator {
    type V = Machine;

    closed spec fn view(&self) -> Machine {
        self.state@
    }
}

impl Simulator {
    /// The program that the machine runs.
    pub closed spec fn program(&self) -> Seq<Instruction> {
        self.instructions@
    }

    /// How many instructions the tick has left.
    pub closed spec fn left(&self) -> nat {
        self.state.left()
    }

    /// The register file and the devices have their sizes.
    pub open spec fn well_formed(&self) -> bool {
        self@.well_formed()
    }

    /// A machine at power-on with a program to run.
    pub fn new(program: Program) -> (r: Simulator)
        ensures
            r.well_formed(),
            r@ == Machine::initial(),
            r.program() == program.instructions@,
    {
        Simulator { instructions: program.instructions, state: State::new() }
    }

    /// Starts a tick: runs up to 127 instructions from where the program
    /// counter stands. Whatever was awaited is given up.
    pub fn tick(&mut self) -> (r: Result<Progress, Error>)
        requires
            old(self).well_formed(),
        ensures
            final(self).well_formed(),
            final(self).program() == old(self).program(),
            (Machine { pending: Pending::Nothing, ..old(self)@ }).run(old(self).program(), 127) == (Run {
                machine: final(self)@,
                budget: final(self).left(),
                result: r,
            }),
    {
        self.state.budget = TICK_LIMIT;
        self.state.pending = Pending::Nothing;
        self.state.tick(&self.instructions)
    }

    /// Whether the run waits for the result of an operation.
    pub fn is_waiting(&self) -> (r: bool)
        ensures
            r == (self@.pending != Pending::Nothing),
    {
        match self.state.pending {
            Pending::Nothing => false,
            _ => true,
        }
    }

    /// Hands over the result of the operation that the run waits for: the
    /// result goes where it belongs, the program counter moves to the
    /// following line, and the tick runs on. Where nothing is awaited the
    /// value is dropped and the tick runs on from where it stands.
    pub fn resume(&mut self, value: Number) -> (r: Result<Progress, Error>)
        requires
            old(self).well_formed(),
        ensures
            final(self).well_formed(),
            final(self).program() == old(self).program(),
            old(self)@.resumed(value).run(old(self).program(), old(self).left()) == (Run {
                machine: final(self)@,
                budget: final(self).left(),
                result: r,
            }),
    {
        if self.is_waiting() {
            self.state.complete(value);
            let at: i32 = self.state.sp();
            self.state.set_sp(at as i64 + 1);
        }
        self.state.tick(&self.instructions)
    }

    /// The value of an attribute of a device.
    pub fn read(&self, d: Device, logic_type: DeviceVariable) -> (r: Number)
        requires
            self.well_formed(),
        ensures
            r == self@.attribute(d, logic_type),
    {
        self.state.devices[d.index() * ATTRIBUTES + logic_type.index()]
    }

    /// Sets an attribute of a device.
    pub fn write(&mut self, d: Device, logic_type: DeviceVariable, v: Number)
        requires
            old(self).well_formed(),
        ensures
            final(self).well_formed(),
            final(self)@ == old(self)@.store(d, logic_type, v),
            final(self).program() == old(self).program(),
            final(self).left() == old(self).left(),
    {
        self.state.devices.set(d.index() * ATTRIBUTES + logic_type.index(), v);
    }

    /// The value of a register.
    pub fn register(&self, register: Register) -> (r: Number)
        requires
            self.well_formed(),
        ensures
            r == self@.get(register),
    {
        self.state.registers[register.index()]
    }
}

} // verus!
