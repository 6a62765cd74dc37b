//! The instructions of the target machine.
use vstd::prelude::*;
use crate::mips::types::{Device, DeviceVariable, JumpDest, Register, RegisterOrNumber};
use crate::number::Number;

verus! {

/// Reading and writing the attributes of devices.
#[derive(Clone, Copy, Debug, PartialEq, Eq, Structural)]
pub enum DeviceIo {
    /// `s device variable register`: writes a value to an attribute.
    StoreDeviceVariable { device: Device, variable: DeviceVariable, register: RegisterOrNumber },
    /// `l register device variable`: reads an attribute into a register.
    LoadDeviceVariable { register: Register, device: Device, variable: DeviceVariable },
}

/// Jumps and branches.
#[derive(Clone, Debug, PartialEq, Eq)]
pub enum FlowControl {
    /// `beqz a b`: goes to line `b` if `a` is zero.
    BranchEqualZero { a: RegisterOrNumber, b: RegisterOrNumber },
    /// `j a`: goes to line `a`.
    Jump { a: JumpDest },
    /// `jal a`: goes to line `a` and keeps the next line in `ra`.
    JumpAndLink { a: JumpDest },
    /// `jr a`: goes `a` lines further.
    JumpRelative { a: RegisterOrNumber },
}

/// Instructions that set a register to 1 or 0 by a test, or pick a value.
#[derive(Clone, Copy, Debug, PartialEq, Eq, Structural)]
pub enum VariableSelection {
    /// `sap`: whether `a` and `b` differ by less than `c`.
    SelectApproximatelyEqual { register: Register, a: RegisterOrNumber, b: RegisterOrNumber, c: RegisterOrNumber },
    /// `sapz`: whether `a` is nearer to zero than `b`.
    SelectApproximatelyZero { register: Register, a: RegisterOrNumber, b: RegisterOrNumber },
    /// `select`: `b` if `a` is not zero, else `c`.
    Select { register: Register, a: RegisterOrNumber, b: RegisterOrNumber, c: RegisterOrNumber },
    /// `seq`
    SelectEqual { register: Register, a: RegisterOrNumber, b: RegisterOrNumber },
    /// `seqz`
    SelectEqualZero { register: Register, a: RegisterOrNumber },
    /// `sge`
    SelectGreaterOrEqual { register: Register, a: RegisterOrNumber, b: RegisterOrNumber },
    /// `sgez`
    SelectGreaterOrEqualZero { register: Register, a: RegisterOrNumber },
    /// `sgt`
    SelectGreaterThan { register: Register, a: RegisterOrNumber, b: RegisterOrNumber },
    /// `sgtz`
    SelectGreaterThanZero { register: Register, a: RegisterOrNumber },
    /// `sle`
    SelectLessOrEqual { register: Register, a: RegisterOrNumber, b: RegisterOrNumber },
    /// `slez`
    SelectLessOrEqualZero { register: Register, a: RegisterOrNumber },
    /// `slt`
    SelectLessThan { register: Register, a: RegisterOrNumber, b: RegisterOrNumber },
    /// `sltz`
    SelectLessThanZero { register: Register, a: RegisterOrNumber },
    /// `sna`: whether `a` and `b` differ by at least `c`.
    SelectNotApproximatelyEqual { register: Register, a: RegisterOrNumber, b: RegisterOrNumber, c: RegisterOrNumber },
    /// `snaz`: whether `a` is at least `b` away from zero.
    SelectNotApproximatelyZero { register: Register, a: RegisterOrNumber, b: RegisterOrNumber },
    /// `sne`
    SelectNotEqual { register: Register, a: RegisterOrNumber, b: RegisterOrNumber },
    /// `snez`
    SelectNotEqualZero { register: Register, a: RegisterOrNumber },
}

/// The four operations on numbers.
#[derive(Clone, Copy, Debug, PartialEq, Eq, Structural)]
pub enum Arithmetic {
    /// `add`
    Add { register: Register, a: RegisterOrNumber, b: RegisterOrNumber },
    /// `div`
    Divide { register: Register, a: RegisterOrNumber, b: RegisterOrNumber },
    /// `mul`
    Multiply { register: Register, a: RegisterOrNumber, b: RegisterOrNumber },
    /// `sub`
    Subtract { register: Register, a: RegisterOrNumber, b: RegisterOrNumber },
}

/// Operations on truth values, where every number but zero is true.
#[derive(Clone, Copy, Debug, PartialEq, Eq, Structural)]
pub enum Logic {
    /// `and`
    And { register: Register, a: RegisterOrNumber, b: RegisterOrNumber },
    /// `or`
    Or { register: Register, a: RegisterOrNumber, b: RegisterOrNumber },
}

/// Operations on the machine's stack.
#[derive(Clone, Copy, Debug, PartialEq, Eq, Structural)]
pub enum Stack {
    /// `push a`
    Push { a: RegisterOrNumber },
    /// `pop register`
    Pop { register: Register },
    /// `peek register`
    Peek { register: Register },
}

/// Instructions that belong to no other group.
#[derive(Clone, Debug, PartialEq, Eq)]
pub enum Misc {
    /// `alias name target`: names a register or a device.
    Alias { name: String, target: String },
    /// `define name value`: names a number.
    Define { name: String, value: Number },
    /// `hcf`: halt and catch fire.
    Halt,
    /// `move register a`
    Move { register: Register, a: RegisterOrNumber },
    /// `sleep a`: pauses for `a` seconds.
    Sleep { a: RegisterOrNumber },
    /// `yield`: pauses until the next tick.
    Yield,
    /// `name:` marks a line.
    Label { name: String },
    /// `# comment`
    Comment { comment: String },
}

/// One line of a target program.
#[derive(Clone, Debug, PartialEq, Eq)]
pub enum Instruction {
    DeviceIo(DeviceIo),
    FlowControl(FlowControl),
    VariableSelection(VariableSelection),
    Arithmetic(Arithmetic),
    Logic(Logic),
    Stack(Stack),
    Misc(Misc),
}

impl Instruction {
    /// The instruction `yield`.
    pub fn new_yield() -> (r: Instruction)
        ensures
            r == Instruction::Misc(Misc::Yield),
    {
        Instruction::Misc(Misc::Yield)
    }
}

/// A target program: its lines in order, the first at position 0.
#[derive(Clone, Debug, PartialEq, Eq)]
pub struct Program {
    pub instructions: Vec<Instruction>,
}

impl Program {
    /// The program without a line.
    pub fn new() -> (r: Program)
        ensures
            r.instructions@ == Seq::<Instruction>::empty(),
    {
        Program { instructions: Vec::new() }
    }
}

} // verus!
