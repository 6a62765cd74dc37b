//! Target instructions as lines of words.
//!
//! A line is a mnemonic and its operands. A word is a piece of text or a
//! number; how a number is written is not decided here.
use vstd::prelude::*;
use crate::error::Error;
use crate::mips::instructions::{
    Arithmetic,
    DeviceIo,
    FlowControl,
    Instruction,
    Logic,
    Misc,
    Program,
    Stack,
    VariableSelection,
};
use crate::mips::types::{Device, DeviceVariable, JumpDest, Register, RegisterOrNumber, same_text};
use crate::number::Number;

verus! {

/// A word of a line.
#[derive(Clone, Debug, PartialEq, Eq)]
pub enum Word {
    Text(String),
    Number(Number),
}

/// A word as a mathematical value.
pub enum Token {
    Text(Seq<char>),
    Number(Number),
}

impl View for Word {
    type V = Token;

    open spec fn view(&self) -> Token {
        match self {
            Word::Text(s) => Token::Text(s@),
            Word::Number(n) => Token::Number(*n),
        }
    }
}

/// The words of a list, each as a mathematical value.
pub open spec fn tokens(words: Seq<Word>) -> Seq<Token> {
    Seq::new(words.len(), |i: int| words[i]@)
}

/// The mnemonics of the instructions that hold no free text.
#[derive(Clone, Copy, Debug, PartialEq, Eq, Structural)]
pub enum Mnemonic {
    StoreDeviceVariable,
    LoadDeviceVariable,
    BranchEqualZero,
    Jump,
    JumpAndLink,
    JumpRelative,
    SelectApproximatelyEqual,
    SelectApproximatelyZero,
    Select,
    SelectEqual,
    SelectEqualZero,
    SelectGreaterOrEqual,
    SelectGreaterOrEqualZero,
    SelectGreaterThan,
    SelectGreaterThanZero,
    SelectLessOrEqual,
    SelectLessOrEqualZero,
    SelectLessThan,
    SelectLessThanZero,
    SelectNotApproximatelyEqual,
    SelectNotApproximatelyZero,
    SelectNotEqual,
    SelectNotEqualZero,
    Add,
    Divide,
    Multiply,
    Subtract,
    And,
    Or,
    Push,
    Pop,
    Peek,
    Halt,
    Move,
    Sleep,
    Yield,
}

impl Mnemonic {
    /// The mnemonic that a word is, if it is one.
    #[verifier::opaque]
    pub open spec fn named(name: Seq<char>) -> Option<Mnemonic> {
        if name == "s"@ {
            Some(Mnemonic::StoreDeviceVariable)
        } else if name == "l"@ {
            Some(Mnemonic::LoadDeviceVariable)
        } else if name == "beqz"@ {
            Some(Mnemonic::BranchEqualZero)
        } else if name == "j"@ {
            Some(Mnemonic::Jump)
        } else if name == "jal"@ {
            Some(Mnemonic::JumpAndLink)
        } else if name == "jr"@ {
            Some(Mnemonic::JumpRelative)
        } else if name == "sap"@ {
            Some(Mnemonic::SelectApproximatelyEqual)
        } else if name == "sapz"@ {
            Some(Mnemonic::SelectApproximatelyZero)
        } else if name == "select"@ {
            Some(Mnemonic::Select)
        } else if name == "seq"@ {
            Some(Mnemonic::SelectEqual)
        } else if name == "seqz"@ {
            Some(Mnemonic::SelectEqualZero)
        } else if name == "sge"@ {
            Some(Mnemonic::SelectGreaterOrEqual)
        } else if name == "sgez"@ {
            Some(Mnemonic::SelectGreaterOrEqualZero)
        } else if name == "sgt"@ {
            Some(Mnemonic::SelectGreaterThan)
        } else if name == "sgtz"@ {
            Some(Mnemonic::SelectGreaterThanZero)
        } else if name == "sle"@ {
            Some(Mnemonic::SelectLessOrEqual)
        } else if name == "slez"@ {
            Some(Mnemonic::SelectLessOrEqualZero)
        } else if name == "slt"@ {
            Some(Mnemonic::SelectLessThan)
        } else if name == "sltz"@ {
            Some(Mnemonic::SelectLessThanZero)
        } else if name == "sna"@ {
            Some(Mnemonic::SelectNotApproximatelyEqual)
        } else if name == "snaz"@ {
            Some(Mnemonic::SelectNotApproximatelyZero)
        } else if name == "sne"@ {
            Some(Mnemonic::SelectNotEqual)
        } else if name == "snez"@ {
            Some(Mnemonic::SelectNotEqualZero)
        } else if name == "add"@ {
            Some(Mnemonic::Add)
        } else if name == "div"@ {
            Some(Mnemonic::Divide)
        } else if name == "mul"@ {
            Some(Mnemonic::Multiply)
        } else if name == "sub"@ {
            Some(Mnemonic::Subtract)
        } else if name == "and"@ {
            Some(Mnemonic::And)
        } else if name == "or"@ {
            Some(Mnemonic::Or)
        } else if name == "push"@ {
            Some(Mnemonic::Push)
        } else if name == "pop"@ {
            Some(Mnemonic::Pop)
        } else if name == "peek"@ {
            Some(Mnemonic::Peek)
        } else if name == "hcf"@ {
            Some(Mnemonic::Halt)
        } else if name == "move"@ {
            Some(Mnemonic::Move)
        } else if name == "sleep"@ {
            Some(Mnemonic::Sleep)
        } else if name == "yield"@ {
            Some(Mnemonic::Yield)
        } else {
            None
        }
    }

    /// The mnemonic as text.
    pub open spec fn text(self) -> Seq<char> {
        match self {
            Mnemonic::StoreDeviceVariable => "s"@,
            Mnemonic::LoadDeviceVariable => "l"@,
            Mnemonic::BranchEqualZero => "beqz"@,
            Mnemonic::Jump => "j"@,
            Mnemonic::JumpAndLink => "jal"@,
            Mnemonic::JumpRelative => "jr"@,
            Mnemonic::SelectApproximatelyEqual => "sap"@,
            Mnemonic::SelectApproximatelyZero => "sapz"@,
            Mnemonic::Select => "select"@,
            Mnemonic::SelectEqual => "seq"@,
            Mnemonic::SelectEqualZero => "seqz"@,
            Mnemonic::SelectGreaterOrEqual => "sge"@,
            Mnemonic::SelectGreaterOrEqualZero => "sgez"@,
            Mnemonic::SelectGreaterThan => "sgt"@,
            Mnemonic::SelectGreaterThanZero => "sgtz"@,
            Mnemonic::SelectLessOrEqual => "sle"@,
            Mnemonic::SelectLessOrEqualZero => "slez"@,
            Mnemonic::SelectLessThan => "slt"@,
            Mnemonic::SelectLessThanZero => "sltz"@,
            Mnemonic::SelectNotApproximatelyEqual => "sna"@,
            Mnemonic::SelectNotApproximatelyZero => "snaz"@,
            Mnemonic::SelectNotEqual => "sne"@,
            Mnemonic::SelectNotEqualZero => "snez"@,
            Mnemonic::Add => "add"@,
            Mnemonic::Divide => "div"@,
            Mnemonic::Multiply => "mul"@,
            Mnemonic::Subtract => "sub"@,
            Mnemonic::And => "and"@,
            Mnemonic::Or => "or"@,
            Mnemonic::Push => "push"@,
            Mnemonic::Pop => "pop"@,
            Mnemonic::Peek => "peek"@,
            Mnemonic::Halt => "hcf"@,
            Mnemonic::Move => "move"@,
            Mnemonic::Sleep => "sleep"@,
            Mnemonic::Yield => "yield"@,
        }
    }

    /// Reads a mnemonic.
    pub fn from_name(name: &String) -> (r: Option<Mnemonic>)
        ensures
            r == Mnemonic::named(name@),
    {
        reveal(Mnemonic::named);
        if same_text(name, "s") {
            Some(Mnemonic::StoreDeviceVariable)
        } else if same_text(name, "l") {
            Some(Mnemonic::LoadDeviceVariable)
        } else if same_text(name, "beqz") {
            Some(Mnemonic::BranchEqualZero)
        } else if same_text(name, "j") {
            Some(Mnemonic::Jump)
        } else if same_text(name, "jal") {
            Some(Mnemonic::JumpAndLink)
        } else if same_text(name, "jr") {
            Some(Mnemonic::JumpRelative)
        } else if same_text(name, "sap") {
            Some(Mnemonic::SelectApproximatelyEqual)
        } else if same_text(name, "sapz") {
            Some(Mnemonic::SelectApproximatelyZero)
        } else if same_text(name, "select") {
            Some(Mnemonic::Select)
        } else if same_text(name, "seq") {
            Some(Mnemonic::SelectEqual)
        } else if same_text(name, "seqz") {
            Some(Mnemonic::SelectEqualZero)
        } else if same_text(name, "sge") {
            Some(Mnemonic::SelectGreaterOrEqual)
        } else if same_text(name, "sgez") {
            Some(Mnemonic::SelectGreaterOrEqualZero)
        } else if same_text(name, "sgt") {
            Some(Mnemonic::SelectGreaterThan)
        } else if same_text(name, "sgtz") {
            Some(Mnemonic::SelectGreaterThanZero)
        } else if same_text(name, "sle") {
            Some(Mnemonic::SelectLessOrEqual)
        } else if same_text(name, "slez") {
            Some(Mnemonic::SelectLessOrEqualZero)
        } else if same_text(name, "slt") {
            Some(Mnemonic::SelectLessThan)
        } else if same_text(name, "sltz") {
            Some(Mnemonic::SelectLessThanZero)
        } else if same_text(name, "sna") {
            Some(Mnemonic::SelectNotApproximatelyEqual)
        } else if same_text(name, "snaz") {
            Some(Mnemonic::SelectNotApproximatelyZero)
        } else if same_text(name, "sne") {
            Some(Mnemonic::SelectNotEqual)
        } else if same_text(name, "snez") {
            Some(Mnemonic::SelectNotEqualZero)
        } else if same_text(name, "add") {
            Some(Mnemonic::Add)
        } else if same_text(name, "div") {
            Some(Mnemonic::Divide)
        } else if same_text(name, "mul") {
            Some(Mnemonic::Multiply)
        } else if same_text(name, "sub") {
            Some(Mnemonic::Subtract)
        } else if same_text(name, "and") {
            Some(Mnemonic::And)
        } else if same_text(name, "or") {
            Some(Mnemonic::Or)
        } else if same_text(name, "push") {
            Some(Mnemonic::Push)
        } else if same_text(name, "pop") {
            Some(Mnemonic::Pop)
        } else if same_text(name, "peek") {
            Some(Mnemonic::Peek)
        } else if same_text(name, "hcf") {
            Some(Mnemonic::Halt)
        } else if same_text(name, "move") {
            Some(Mnemonic::Move)
        } else if same_text(name, "sleep") {
            Some(Mnemonic::Sleep)
        } else if same_text(name, "yield") {
            Some(Mnemonic::Yield)
        } else {
            None
        }
    }

    /// The mnemonic as text.
    pub fn name(&self) -> (r: &'static str)
        ensures
            r@ == self.text(),
    {
        match self {
            Mnemonic::StoreDeviceVariable => "s",
            Mnemonic::LoadDeviceVariable => "l",
            Mnemonic::BranchEqualZero => "beqz",
            Mnemonic::Jump => "j",
            Mnemonic::JumpAndLink => "jal",
            Mnemonic::JumpRelative => "jr",
            Mnemonic::SelectApproximatelyEqual => "sap",
            Mnemonic::SelectApproximatelyZero => "sapz",
            Mnemonic::Select => "select",
            Mnemonic::SelectEqual => "seq",
            Mnemonic::SelectEqualZero => "seqz",
            Mnemonic::SelectGreaterOrEqual => "sge",
            Mnemonic::SelectGreaterOrEqualZero => "sgez",
            Mnemonic::SelectGreaterThan => "sgt",
            Mnemonic::SelectGreaterThanZero => "sgtz",
            Mnemonic::SelectLessOrEqual => "sle",
            Mnemonic::SelectLessOrEqualZero => "slez",
            Mnemonic::SelectLessThan => "slt",
            Mnemonic::SelectLessThanZero => "sltz",
            Mnemonic::SelectNotApproximatelyEqual => "sna",
            Mnemonic::SelectNotApproximatelyZero => "snaz",
            Mnemonic::SelectNotEqual => "sne",
            Mnemonic::SelectNotEqualZero => "snez",
            Mnemonic::Add => "add",
            Mnemonic::Divide => "div",
            Mnemonic::Multiply => "mul",
            Mnemonic::Subtract => "sub",
            Mnemonic::And => "and",
            Mnemonic::Or => "or",
            Mnemonic::Push => "push",
            Mnemonic::Pop => "pop",
            Mnemonic::Peek => "peek",
            Mnemonic::Halt => "hcf",
            Mnemonic::Move => "move",
            Mnemonic::Sleep => "sleep",
            Mnemonic::Yield => "yield",
        }
    }
}

/// The word of a register.
pub open spec fn register_word(register: Register) -> Token {
    Token::Text(register.text())
}

/// The word of a device.
pub open spec fn device_word(device: Device) -> Token {
    Token::Text(device.text())
}

/// The word of a device attribute.
pub open spec fn variable_word(variable: DeviceVariable) -> Token {
    Token::Text(variable.text())
}

/// The word of an operand.
pub open spec fn operand_word(operand: RegisterOrNumber) -> Token {
    match operand {
        RegisterOrNumber::Register(r) => Token::Text(r.text()),
        RegisterOrNumber::Number(n) => Token::Number(n),
    }
}

/// The word of the target of a jump that is no label.
pub open spec fn target_word(target: JumpDest) -> Token {
    match target {
        JumpDest::Register(r) => Token::Text(r.text()),
        JumpDest::Number(n) => Token::Number(n),
        JumpDest::Label(name) => Token::Text(name@),
    }
}

/// The register that a word names.
pub open spec fn read_register(word: Token) -> Option<Register> {
    match word {
        Token::Text(t) => Register::named(t),
        Token::Number(_) => None,
    }
}

/// The device that a word names.
pub open spec fn read_device(word: Token) -> Option<Device> {
    match word {
        Token::Text(t) => Device::named(t),
        Token::Number(_) => None,
    }
}

/// The device attribute that a word names.
pub open spec fn read_variable(word: Token) -> Option<DeviceVariable> {
    match word {
        Token::Text(t) => DeviceVariable::named(t),
        Token::Number(_) => None,
    }
}

/// The operand that a word stands for: a number, or the register that it names.
pub open spec fn read_operand(word: Token) -> Option<RegisterOrNumber> {
    match word {
        Token::Text(t) => match Register::named(t) {
            Some(r) => Some(RegisterOrNumber::Register(r)),
            None => None,
        },
        Token::Number(n) => Some(RegisterOrNumber::Number(n)),
    }
}

/// The target of a jump that a word stands for: a number, or the register
/// that it names.
pub open spec fn read_target(word: Token) -> Option<JumpDest> {
    match word {
        Token::Text(t) => match Register::named(t) {
            Some(r) => Some(JumpDest::Register(r)),
            None => None,
        },
        Token::Number(n) => Some(JumpDest::Number(n)),
    }
}

impl Instruction {
    /// The mnemonic of the instruction, if it holds no free text: every
    /// instruction but `alias`, `define`, a label, a comment and a jump to
    /// a label has one.
    pub open spec fn mnemonic(self) -> Option<Mnemonic> {
        match self {
            Instruction::DeviceIo(DeviceIo::StoreDeviceVariable { .. }) => Some(Mnemonic::StoreDeviceVariable),
            Instruction::DeviceIo(DeviceIo::LoadDeviceVariable { .. }) => Some(Mnemonic::LoadDeviceVariable),
            Instruction::FlowControl(FlowControl::BranchEqualZero { .. }) => Some(Mnemonic::BranchEqualZero),
            Instruction::FlowControl(FlowControl::Jump { a }) => if a is Label {
                None
            } else {
                Some(Mnemonic::Jump)
            },
            Instruction::FlowControl(FlowControl::JumpAndLink { a }) => if a is Label {
                None
            } else {
                Some(Mnemonic::JumpAndLink)
            },
            Instruction::FlowControl(FlowControl::JumpRelative { .. }) => Some(Mnemonic::JumpRelative),
            Instruction::VariableSelection(VariableSelection::SelectApproximatelyEqual { .. }) => Some(Mnemonic::SelectApproximatelyEqual),
            Instruction::VariableSelection(VariableSelection::SelectApproximatelyZero { .. }) => Some(Mnemonic::SelectApproximatelyZero),
            Instruction::VariableSelection(VariableSelection::Select { .. }) => Some(Mnemonic::Select),
            Instruction::VariableSelection(VariableSelection::SelectEqual { .. }) => Some(Mnemonic::SelectEqual),
            Instruction::VariableSelection(VariableSelection::SelectEqualZero { .. }) => Some(Mnemonic::SelectEqualZero),
            Instruction::VariableSelection(VariableSelection::SelectGreaterOrEqual { .. }) => Some(Mnemonic::SelectGreaterOrEqual),
            Instruction::VariableSelection(VariableSelection::SelectGreaterOrEqualZero { .. }) => Some(Mnemonic::SelectGreaterOrEqualZero),
            Instruction::VariableSelection(VariableSelection::SelectGreaterThan { .. }) => Some(Mnemonic::SelectGreaterThan),
            Instruction::VariableSelection(VariableSelection::SelectGreaterThanZero { .. }) => Some(Mnemonic::SelectGreaterThanZero),
            Instruction::VariableSelection(VariableSelection::SelectLessOrEqual { .. }) => Some(Mnemonic::SelectLessOrEqual),
            Instruction::VariableSelection(VariableSelection::SelectLessOrEqualZero { .. }) => Some(Mnemonic::SelectLessOrEqualZero),
            Instruction::VariableSelection(VariableSelection::SelectLessThan { .. }) => Some(Mnemonic::SelectLessThan),
            Instruction::VariableSelection(VariableSelection::SelectLessThanZero { .. }) => Some(Mnemonic::SelectLessThanZero),
            Instruction::VariableSelection(VariableSelection::SelectNotApproximatelyEqual { .. }) => Some(Mnemonic::SelectNotApproximatelyEqual),
            Instruction::VariableSelection(VariableSelection::SelectNotApproximatelyZero { .. }) => Some(Mnemonic::SelectNotApproximatelyZero),
            Instruction::VariableSelection(VariableSelection::SelectNotEqual { .. }) => Some(Mnemonic::SelectNotEqual),
            Instruction::VariableSelection(VariableSelection::SelectNotEqualZero { .. }) => Some(Mnemonic::SelectNotEqualZero),
            Instruction::Arithmetic(Arithmetic::Add { .. }) => Some(Mnemonic::Add),
            Instruction::Arithmetic(Arithmetic::Divide { .. }) => Some(Mnemonic::Divide),
            Instruction::Arithmetic(Arithmetic::Multiply { .. }) => Some(Mnemonic::Multiply),
            Instruction::Arithmetic(Arithmetic::Subtract { .. }) => Some(Mnemonic::Subtract),
            Instruction::Logic(Logic::And { .. }) => Some(Mnemonic::And),
            Instruction::Logic(Logic::Or { .. }) => Some(Mnemonic::Or),
            Instruction::Stack(Stack::Push { .. }) => Some(Mnemonic::Push),
            Instruction::Stack(Stack::Pop { .. }) => Some(Mnemonic::Pop),
            Instruction::Stack(Stack::Peek { .. }) => Some(Mnemonic::Peek),
            Instruction::Misc(Misc::Halt) => Some(Mnemonic::Halt),
            Instruction::Misc(Misc::Move { .. }) => Some(Mnemonic::Move),
            Instruction::Misc(Misc::Sleep { .. }) => Some(Mnemonic::Sleep),
            Instruction::Misc(Misc::Yield) => Some(Mnemonic::Yield),
            _ => None,
        }
    }

    /// Whether the instruction holds no free text.
    pub open spec fn plain(self) -> bool {
        self.mnemonic() is Some
    }

    /// The operands of the instruction as words, in the order of the line.
    pub open spec fn operand_words(self) -> Seq<Token> {
        match self {
            Instruction::DeviceIo(DeviceIo::StoreDeviceVariable { device, variable, register }) => seq![device_word(device), variable_word(variable), operand_word(register)],
            Instruction::DeviceIo(DeviceIo::LoadDeviceVariable { register, device, variable }) => seq![register_word(register), device_word(device), variable_word(variable)],
            Instruction::FlowControl(FlowControl::BranchEqualZero { a, b }) => seq![operand_word(a), operand_word(b)],
            Instruction::FlowControl(FlowControl::Jump { a }) => seq![target_word(a)],
            Instruction::FlowControl(FlowControl::JumpAndLink { a }) => seq![target_word(a)],
            Instruction::FlowControl(FlowControl::JumpRelative { a }) => seq![operand_word(a)],
            Instruction::VariableSelection(VariableSelection::SelectApproximatelyEqual { register, a, b, c }) => seq![register_word(register), operand_word(a), operand_word(b), operand_word(c)],
            Instruction::VariableSelection(VariableSelection::SelectApproximatelyZero { register, a, b }) => seq![register_word(register), operand_word(a), operand_word(b)],
            Instruction::VariableSelection(VariableSelection::Select { register, a, b, c }) => seq![register_word(register), operand_word(a), operand_word(b), operand_word(c)],
            Instruction::VariableSelection(VariableSelection::SelectEqual { register, a, b }) => seq![register_word(register), operand_word(a), operand_word(b)],
            Instruction::VariableSelection(VariableSelection::SelectEqualZero { register, a }) => seq![register_word(register), operand_word(a)],
            Instruction::VariableSelection(VariableSelection::SelectGreaterOrEqual { register, a, b }) => seq![register_word(register), operand_word(a), operand_word(b)],
            Instruction::VariableSelection(VariableSelection::SelectGreaterOrEqualZero { register, a }) => seq![register_word(register), operand_word(a)],
            Instruction::VariableSelection(VariableSelection::SelectGreaterThan { register, a, b }) => seq![register_word(register), operand_word(a), operand_word(b)],
            Instruction::VariableSelection(VariableSelection::SelectGreaterThanZero { register, a }) => seq![register_word(register), operand_word(a)],
            Instruction::VariableSelection(VariableSelection::SelectLessOrEqual { register, a, b }) => seq![register_word(register), operand_word(a), operand_word(b)],
            Instruction::VariableSelection(VariableSelection::SelectLessOrEqualZero { register, a }) => seq![register_word(register), operand_word(a)],
            Instruction::VariableSelection(VariableSelection::SelectLessThan { register, a, b }) => seq![register_word(register), operand_word(a), operand_word(b)],
            Instruction::VariableSelection(VariableSelection::SelectLessThanZero { register, a }) => seq![register_word(register), operand_word(a)],
            Instruction::VariableSelection(VariableSelection::SelectNotApproximatelyEqual { register, a, b, c }) => seq![register_word(register), operand_word(a), operand_word(b), operand_word(c)],
            Instruction::VariableSelection(VariableSelection::SelectNotApproximatelyZero { register, a, b }) => seq![register_word(register), operand_word(a), operand_word(b)],
            Instruction::VariableSelection(VariableSelection::SelectNotEqual { register, a, b }) => seq![register_word(register), operand_word(a), operand_word(b)],
            Instruction::VariableSelection(VariableSelection::SelectNotEqualZero { register, a }) => seq![register_word(register), operand_word(a)],
            Instruction::Arithmetic(Arithmetic::Add { register, a, b }) => seq![register_word(register), operand_word(a), operand_word(b)],
            Instruction::Arithmetic(Arithmetic::Divide { register, a, b }) => seq![register_word(register), operand_word(a), operand_word(b)],
            Instruction::Arithmetic(Arithmetic::Multiply { register, a, b }) => seq![register_word(register), operand_word(a), operand_word(b)],
            Instruction::Arithmetic(Arithmetic::Subtract { register, a, b }) => seq![register_word(register), operand_word(a), operand_word(b)],
            Instruction::Logic(Logic::And { register, a, b }) => seq![register_word(register), operand_word(a), operand_word(b)],
            Instruction::Logic(Logic::Or { register, a, b }) => seq![register_word(register), operand_word(a), operand_word(b)],
            Instruction::Stack(Stack::Push { a }) => seq![operand_word(a)],
            Instruction::Stack(Stack::Pop { register }) => seq![register_word(register)],
            Instruction::Stack(Stack::Peek { register }) => seq![register_word(register)],
            Instruction::Misc(Misc::Halt) => Seq::empty(),
            Instruction::Misc(Misc::Move { register, a }) => seq![register_word(register), operand_word(a)],
            Instruction::Misc(Misc::Sleep { a }) => seq![operand_word(a)],
            Instruction::Misc(Misc::Yield) => Seq::empty(),
            _ => Seq::empty(),
        }
    }

    /// The line of a plain instruction: its mnemonic, then its operands.
    pub open spec fn line(self) -> Seq<Token> {
        match self.mnemonic() {
            Some(m) => seq![Token::Text(m.text())] + self.operand_words(),
            None => Seq::empty(),
        }
    }
}

/// The instruction with the given mnemonic and operands, if the operands
/// are as many and of the kinds that the mnemonic takes.
pub open spec fn assembled(m: Mnemonic, line: Seq<Token>) -> Option<Instruction> {
    match m {
        Mnemonic::StoreDeviceVariable => if line.len() == 4 {
            match (read_device(line[1]), read_variable(line[2]), read_operand(line[3])) {
                (Some(device), Some(variable), Some(register)) => Some(Instruction::DeviceIo(DeviceIo::StoreDeviceVariable { device, variable, register })),
                _ => None,
            }
        } else {
            None
        },
        Mnemonic::LoadDeviceVariable => if line.len() == 4 {
            match (read_register(line[1]), read_device(line[2]), read_variable(line[3])) {
                (Some(register), Some(device), Some(variable)) => Some(Instruction::DeviceIo(DeviceIo::LoadDeviceVariable { register, device, variable })),
                _ => None,
            }
        } else {
            None
        },
        Mnemonic::BranchEqualZero => if line.len() == 3 {
            match (read_operand(line[1]), read_operand(line[2])) {
                (Some(a), Some(b)) => Some(Instruction::FlowControl(FlowControl::BranchEqualZero { a, b })),
                _ => None,
            }
        } else {
            None
        },
        Mnemonic::Jump => if line.len() == 2 {
            match read_target(line[1]) {
                Some(a) => Some(Instruction::FlowControl(FlowControl::Jump { a })),
                _ => None,
            }
        } else {
            None
        },
        Mnemonic::JumpAndLink => if line.len() == 2 {
            match read_target(line[1]) {
                Some(a) => Some(Instruction::FlowControl(FlowControl::JumpAndLink { a })),
                _ => None,
            }
        } else {
            None
        },
        Mnemonic::JumpRelative => if line.len() == 2 {
            match read_operand(line[1]) {
                Some(a) => Some(Instruction::FlowControl(FlowControl::JumpRelative { a })),
                _ => None,
            }
        } else {
            None
        },
        Mnemonic::SelectApproximatelyEqual => if line.len() == 5 {
            match (read_register(line[1]), read_operand(line[2]), read_operand(line[3]), read_operand(line[4])) {
                (Some(register), Some(a), Some(b), Some(c)) => Some(Instruction::VariableSelection(VariableSelection::SelectApproximatelyEqual { register, a, b, c })),
                _ => None,
            }
        } else {
            None
        },
        Mnemonic::SelectApproximatelyZero => if line.len() == 4 {
            match (read_register(line[1]), read_operand(line[2]), read_operand(line[3])) {
                (Some(register), Some(a), Some(b)) => Some(Instruction::VariableSelection(VariableSelection::SelectApproximatelyZero { register, a, b })),
                _ => None,
            }
        } else {
            None
        },
        Mnemonic::Select => if line.len() == 5 {
            match (read_register(line[1]), read_operand(line[2]), read_operand(line[3]), read_operand(line[4])) {
                (Some(register), Some(a), Some(b), Some(c)) => Some(Instruction::VariableSelection(VariableSelection::Select { register, a, b, c })),
                _ => None,
            }
        } else {
            None
        },
        Mnemonic::SelectEqual => if line.len() == 4 {
            match (read_register(line[1]), read_operand(line[2]), read_operand(line[3])) {
                (Some(register), Some(a), Some(b)) => Some(Instruction::VariableSelection(VariableSelection::SelectEqual { register, a, b })),
                _ => None,
            }
        } else {
            None
        },
        Mnemonic::SelectEqualZero => if line.len() == 3 {
            match (read_register(line[1]), read_operand(line[2])) {
                (Some(register), Some(a)) => Some(Instruction::VariableSelection(VariableSelection::SelectEqualZero { register, a })),
                _ => None,
            }
        } else {
            None
        },
        Mnemonic::SelectGreaterOrEqual => if line.len() == 4 {
            match (read_register(line[1]), read_operand(line[2]), read_operand(line[3])) {
                (Some(register), Some(a), Some(b)) => Some(Instruction::VariableSelection(VariableSelection::SelectGreaterOrEqual { register, a, b })),
                _ => None,
            }
        } else {
            None
        },
        Mnemonic::SelectGreaterOrEqualZero => if line.len() == 3 {
            match (read_register(line[1]), read_operand(line[2])) {
                (Some(register), Some(a)) => Some(Instruction::VariableSelection(VariableSelection::SelectGreaterOrEqualZero { register, a })),
                _ => None,
            }
        } else {
            None
        },
        Mnemonic::SelectGreaterThan => if line.len() == 4 {
            match (read_register(line[1]), read_operand(line[2]), read_operand(line[3])) {
                (Some(register), Some(a), Some(b)) => Some(Instruction::VariableSelection(VariableSelection::SelectGreaterThan { register, a, b })),
                _ => None,
            }
        } else {
            None
        },
        Mnemonic::SelectGreaterThanZero => if line.len() == 3 {
            match (read_register(line[1]), read_operand(line[2])) {
                (Some(register), Some(a)) => Some(Instruction::VariableSelection(VariableSelection::SelectGreaterThanZero { register, a })),
                _ => None,
            }
        } else {
            None
        },
        Mnemonic::SelectLessOrEqual => if line.len() == 4 {
            match (read_register(line[1]), read_operand(line[2]), read_operand(line[3])) {
                (Some(register), Some(a), Some(b)) => Some(Instruction::VariableSelection(VariableSelection::SelectLessOrEqual { register, a, b })),
                _ => None,
            }
        } else {
            None
        },
        Mnemonic::SelectLessOrEqualZero => if line.len() == 3 {
            match (read_register(line[1]), read_operand(line[2])) {
                (Some(register), Some(a)) => Some(Instruction::VariableSelection(VariableSelection::SelectLessOrEqualZero { register, a })),
                _ => None,
            }
        } else {
            None
        },
        Mnemonic::SelectLessThan => if line.len() == 4 {
            match (read_register(line[1]), read_operand(line[2]), read_operand(line[3])) {
                (Some(register), Some(a), Some(b)) => Some(Instruction::VariableSelection(VariableSelection::SelectLessThan { register, a, b })),
                _ => None,
            }
        } else {
            None
        },
        Mnemonic::SelectLessThanZero => if line.len() == 3 {
            match (read_register(line[1]), read_operand(line[2])) {
                (Some(register), Some(a)) => Some(Instruction::VariableSelection(VariableSelection::SelectLessThanZero { register, a })),
                _ => None,
            }
        } else {
            None
        },
        Mnemonic::SelectNotApproximatelyEqual => if line.len() == 5 {
            match (read_register(line[1]), read_operand(line[2]), read_operand(line[3]), read_operand(line[4])) {
                (Some(register), Some(a), Some(b), Some(c)) => Some(Instruction::VariableSelection(VariableSelection::SelectNotApproximatelyEqual { register, a, b, c })),
                _ => None,
            }
        } else {
            None
        },
        Mnemonic::SelectNotApproximatelyZero => if line.len() == 4 {
            match (read_register(line[1]), read_operand(line[2]), read_operand(line[3])) {
                (Some(register), Some(a), Some(b)) => Some(Instruction::VariableSelection(VariableSelection::SelectNotApproximatelyZero { register, a, b })),
                _ => None,
            }
        } else {
            None
        },
        Mnemonic::SelectNotEqual => if line.len() == 4 {
            match (read_register(line[1]), read_operand(line[2]), read_operand(line[3])) {
                (Some(register), Some(a), Some(b)) => Some(Instruction::VariableSelection(VariableSelection::SelectNotEqual { register, a, b })),
                _ => None,
            }
        } else {
            None
        },
        Mnemonic::SelectNotEqualZero => if line.len() == 3 {
            match (read_register(line[1]), read_operand(line[2])) {
                (Some(register), Some(a)) => Some(Instruction::VariableSelection(VariableSelection::SelectNotEqualZero { register, a })),
                _ => None,
            }
        } else {
            None
        },
        Mnemonic::Add => if line.len() == 4 {
            match (read_register(line[1]), read_operand(line[2]), read_operand(line[3])) {
                (Some(register), Some(a), Some(b)) => Some(Instruction::Arithmetic(Arithmetic::Add { register, a, b })),
                _ => None,
            }
        } else {
            None
        },
        Mnemonic::Divide => if line.len() == 4 {
            match (read_register(line[1]), read_operand(line[2]), read_operand(line[3])) {
                (Some(register), Some(a), Some(b)) => Some(Instruction::Arithmetic(Arithmetic::Divide { register, a, b })),
                _ => None,
            }
        } else {
            None
        },
        Mnemonic::Multiply => if line.len() == 4 {
            match (read_register(line[1]), read_operand(line[2]), read_operand(line[3])) {
                (Some(register), Some(a), Some(b)) => Some(Instruction::Arithmetic(Arithmetic::Multiply { register, a, b })),
                _ => None,
            }
        } else {
            None
        },
        Mnemonic::Subtract => if line.len() == 4 {
            match (read_register(line[1]), read_operand(line[2]), read_operand(line[3])) {
                (Some(register), Some(a), Some(b)) => Some(Instruction::Arithmetic(Arithmetic::Subtract { register, a, b })),
                _ => None,
            }
        } else {
            None
        },
        Mnemonic::And => if line.len() == 4 {
            match (read_register(line[1]), read_operand(line[2]), read_operand(line[3])) {
                (Some(register), Some(a), Some(b)) => Some(Instruction::Logic(Logic::And { register, a, b })),
                _ => None,
            }
        } else {
            None
        },
        Mnemonic::Or => if line.len() == 4 {
            match (read_register(line[1]), read_operand(line[2]), read_operand(line[3])) {
                (Some(register), Some(a), Some(b)) => Some(Instruction::Logic(Logic::Or { register, a, b })),
                _ => None,
            }
        } else {
            None
        },
        Mnemonic::Push => if line.len() == 2 {
            match read_operand(line[1]) {
                Some(a) => Some(Instruction::Stack(Stack::Push { a })),
                _ => None,
            }
        } else {
            None
        },
        Mnemonic::Pop => if line.len() == 2 {
            match read_register(line[1]) {
                Some(register) => Some(Instruction::Stack(Stack::Pop { register })),
                _ => None,
            }
        } else {
            None
        },
        Mnemonic::Peek => if line.len() == 2 {
            match read_register(line[1]) {
                Some(register) => Some(Instruction::Stack(Stack::Peek { register })),
                _ => None,
            }
        } else {
            None
        },
        Mnemonic::Halt => if line.len() == 1 {
            Some(Instruction::Misc(Misc::Halt))
        } else {
            None
        },
        Mnemonic::Move => if line.len() == 3 {
            match (read_register(line[1]), read_operand(line[2])) {
                (Some(register), Some(a)) => Some(Instruction::Misc(Misc::Move { register, a })),
                _ => None,
            }
        } else {
            None
        },
        Mnemonic::Sleep => if line.len() == 2 {
            match read_operand(line[1]) {
                Some(a) => Some(Instruction::Misc(Misc::Sleep { a })),
                _ => None,
            }
        } else {
            None
        },
        Mnemonic::Yield => if line.len() == 1 {
            Some(Instruction::Misc(Misc::Yield))
        } else {
            None
        },
    }
}

/// The instruction that a line of words stands for, if it stands for one:
/// the first word is the mnemonic, the others are the operands.
pub open spec fn parsed(line: Seq<Token>) -> Option<Instruction> {
    if line.len() == 0 {
        None
    } else {
        match line[0] {
            Token::Number(_) => None,
            Token::Text(m) => match Mnemonic::named(m) {
                Some(mnemonic) => assembled(mnemonic, line),
                None => None,
            },
        }
    }
}

/// The word of an operand.
fn operand_to_word(operand: &RegisterOrNumber) -> (r: Word)
    ensures
        r@ == operand_word(*operand),
{
    match operand {
        RegisterOrNumber::Register(r) => Word::Text(r.name().to_owned()),
        RegisterOrNumber::Number(n) => Word::Number(*n),
    }
}

/// The word of the target of a jump.
fn target_to_word(target: &JumpDest) -> (r: Word)
    ensures
        r@ == target_word(*target),
{
    match target {
        JumpDest::Register(r) => Word::Text(r.name().to_owned()),
        JumpDest::Number(n) => Word::Number(*n),
        JumpDest::Label(name) => Word::Text(name.clone()),
    }
}

/// The register that a word names.
fn word_to_register(word: &Word) -> (r: Option<Register>)
    ensures
        r == read_register(word@),
{
    match word {
        Word::Text(t) => Register::from_name(t),
        Word::Number(_) => None,
    }
}

/// The device that a word names.
fn word_to_device(word: &Word) -> (r: Option<Device>)
    ensures
        r == read_device(word@),
{
    match word {
        Word::Text(t) => Device::from_name(t),
        Word::Number(_) => None,
    }
}

/// The device attribute that a word names.
fn word_to_variable(word: &Word) -> (r: Option<DeviceVariable>)
    ensures
        r == read_variable(word@),
{
    match word {
        Word::Text(t) => DeviceVariable::from_name(t),
        Word::Number(_) => None,
    }
}

/// The operand that a word stands for.
fn word_to_operand(word: &Word) -> (r: Option<RegisterOrNumber>)
    ensures
        r == read_operand(word@),
{
    match word {
        Word::Text(t) => match Register::from_name(t) {
            Some(r) => Some(RegisterOrNumber::Register(r)),
            None => None,
        },
        Word::Number(n) => Some(RegisterOrNumber::Number(*n)),
    }
}

/// The target of a jump that a word stands for.
fn word_to_target(word: &Word) -> (r: Option<JumpDest>)
    ensures
        r == read_target(word@),
{
    match word {
        Word::Text(t) => match Register::from_name(t) {
            Some(r) => Some(JumpDest::Register(r)),
            None => None,
        },
        Word::Number(n) => Some(JumpDest::Number(*n)),
    }
}

/// Puts an instruction together from its mnemonic and its operands.
fn assemble(m: Mnemonic, line: &Vec<Word>) -> (r: Option<Instruction>)
    ensures
        r == assembled(m, tokens(line@)),
{
    let n: usize = line.len();
    match m {
        Mnemonic::StoreDeviceVariable => if n == 4 {
            match (word_to_device(&line[1]), word_to_variable(&line[2]), word_to_operand(&line[3])) {
                (Some(device), Some(variable), Some(register)) => Some(Instruction::DeviceIo(DeviceIo::StoreDeviceVariable { device, variable, register })),
                _ => None,
            }
        } else {
            None
        },
        Mnemonic::LoadDeviceVariable => if n == 4 {
            match (word_to_register(&line[1]), word_to_device(&line[2]), word_to_variable(&line[3])) {
                (Some(register), Some(device), Some(variable)) => Some(Instruction::DeviceIo(DeviceIo::LoadDeviceVariable { register, device, variable })),
                _ => None,
            }
        } else {
            None
        },
        Mnemonic::BranchEqualZero => if n == 3 {
            match (word_to_operand(&line[1]), word_to_operand(&line[2])) {
                (Some(a), Some(b)) => Some(Instruction::FlowControl(FlowControl::BranchEqualZero { a, b })),
                _ => None,
            }
        } else {
            None
        },
        Mnemonic::Jump => if n == 2 {
            match word_to_target(&line[1]) {
                Some(a) => Some(Instruction::FlowControl(FlowControl::Jump { a })),
                _ => None,
            }
        } else {
            None
        },
        Mnemonic::JumpAndLink => if n == 2 {
            match word_to_target(&line[1]) {
                Some(a) => Some(Instruction::FlowControl(FlowControl::JumpAndLink { a })),
                _ => None,
            }
        } else {
            None
        },
        Mnemonic::JumpRelative => if n == 2 {
            match word_to_operand(&line[1]) {
                Some(a) => Some(Instruction::FlowControl(FlowControl::JumpRelative { a })),
                _ => None,
            }
        } else {
            None
        },
        Mnemonic::SelectApproximatelyEqual => if n == 5 {
            match (word_to_register(&line[1]), word_to_operand(&line[2]), word_to_operand(&line[3]), word_to_operand(&line[4])) {
                (Some(register), Some(a), Some(b), Some(c)) => Some(Instruction::VariableSelection(VariableSelection::SelectApproximatelyEqual { register, a, b, c })),
                _ => None,
            }
        } else {
            None
        },
        Mnemonic::SelectApproximatelyZero => if n == 4 {
            match (word_to_register(&line[1]), word_to_operand(&line[2]), word_to_operand(&line[3])) {
                (Some(register), Some(a), Some(b)) => Some(Instruction::VariableSelection(VariableSelection::SelectApproximatelyZero { register, a, b })),
                _ => None,
            }
        } else {
            None
        },
        Mnemonic::Select => if n == 5 {
            match (word_to_register(&line[1]), word_to_operand(&line[2]), word_to_operand(&line[3]), word_to_operand(&line[4])) {
                (Some(register), Some(a), Some(b), Some(c)) => Some(Instruction::VariableSelection(VariableSelection::Select { register, a, b, c })),
                _ => None,
            }
        } else {
            None
        },
        Mnemonic::SelectEqual => if n == 4 {
            match (word_to_register(&line[1]), word_to_operand(&line[2]), word_to_operand(&line[3])) {
                (Some(register), Some(a), Some(b)) => Some(Instruction::VariableSelection(VariableSelection::SelectEqual { register, a, b })),
                _ => None,
            }
        } else {
            None
        },
        Mnemonic::SelectEqualZero => if n == 3 {
            match (word_to_register(&line[1]), word_to_operand(&line[2])) {
                (Some(register), Some(a)) => Some(Instruction::VariableSelection(VariableSelection::SelectEqualZero { register, a })),
                _ => None,
            }
        } else {
            None
        },
        Mnemonic::SelectGreaterOrEqual => if n == 4 {
            match (word_to_register(&line[1]), word_to_operand(&line[2]), word_to_operand(&line[3])) {
                (Some(register), Some(a), Some(b)) => Some(Instruction::VariableSelection(VariableSelection::SelectGreaterOrEqual { register, a, b })),
                _ => None,
            }
        } else {
            None
        },
        Mnemonic::SelectGreaterOrEqualZero => if n == 3 {
            match (word_to_register(&line[1]), word_to_operand(&line[2])) {
                (Some(register), Some(a)) => Some(Instruction::VariableSelection(VariableSelection::SelectGreaterOrEqualZero { register, a })),
                _ => None,
            }
        } else {
            None
        },
        Mnemonic::SelectGreaterThan => if n == 4 {
            match (word_to_register(&line[1]), word_to_operand(&line[2]), word_to_operand(&line[3])) {
                (Some(register), Some(a), Some(b)) => Some(Instruction::VariableSelection(VariableSelection::SelectGreaterThan { register, a, b })),
                _ => None,
            }
        } else {
            None
        },
        Mnemonic::SelectGreaterThanZero => if n == 3 {
            match (word_to_register(&line[1]), word_to_operand(&line[2])) {
                (Some(register), Some(a)) => Some(Instruction::VariableSelection(VariableSelection::SelectGreaterThanZero { register, a })),
                _ => None,
            }
        } else {
            None
        },
        Mnemonic::SelectLessOrEqual => if n == 4 {
            match (word_to_register(&line[1]), word_to_operand(&line[2]), word_to_operand(&line[3])) {
                (Some(register), Some(a), Some(b)) => Some(Instruction::VariableSelection(VariableSelection::SelectLessOrEqual { register, a, b })),
                _ => None,
            }
        } else {
            None
        },
        Mnemonic::SelectLessOrEqualZero => if n == 3 {
            match (word_to_register(&line[1]), word_to_operand(&line[2])) {
                (Some(register), Some(a)) => Some(Instruction::VariableSelection(VariableSelection::SelectLessOrEqualZero { register, a })),
                _ => None,
            }
        } else {
            None
        },
        Mnemonic::SelectLessThan => if n == 4 {
            match (word_to_register(&line[1]), word_to_operand(&line[2]), word_to_operand(&line[3])) {
                (Some(register), Some(a), Some(b)) => Some(Instruction::VariableSelection(VariableSelection::SelectLessThan { register, a, b })),
                _ => None,
            }
        } else {
            None
        },
        Mnemonic::SelectLessThanZero => if n == 3 {
            match (word_to_register(&line[1]), word_to_operand(&line[2])) {
                (Some(register), Some(a)) => Some(Instruction::VariableSelection(VariableSelection::SelectLessThanZero { register, a })),
                _ => None,
            }
        } else {
            None
        },
        Mnemonic::SelectNotApproximatelyEqual => if n == 5 {
            match (word_to_register(&line[1]), word_to_operand(&line[2]), word_to_operand(&line[3]), word_to_operand(&line[4])) {
                (Some(register), Some(a), Some(b), Some(c)) => Some(Instruction::VariableSelection(VariableSelection::SelectNotApproximatelyEqual { register, a, b, c })),
                _ => None,
            }
        } else {
            None
        },
        Mnemonic::SelectNotApproximatelyZero => if n == 4 {
            match (word_to_register(&line[1]), word_to_operand(&line[2]), word_to_operand(&line[3])) {
                (Some(register), Some(a), Some(b)) => Some(Instruction::VariableSelection(VariableSelection::SelectNotApproximatelyZero { register, a, b })),
                _ => None,
            }
        } else {
            None
        },
        Mnemonic::SelectNotEqual => if n == 4 {
            match (word_to_register(&line[1]), word_to_operand(&line[2]), word_to_operand(&line[3])) {
                (Some(register), Some(a), Some(b)) => Some(Instruction::VariableSelection(VariableSelection::SelectNotEqual { register, a, b })),
                _ => None,
            }
        } else {
            None
        },
        Mnemonic::SelectNotEqualZero => if n == 3 {
            match (word_to_register(&line[1]), word_to_operand(&line[2])) {
                (Some(register), Some(a)) => Some(Instruction::VariableSelection(VariableSelection::SelectNotEqualZero { register, a })),
                _ => None,
            }
        } else {
            None
        },
        Mnemonic::Add => if n == 4 {
            match (word_to_register(&line[1]), word_to_operand(&line[2]), word_to_operand(&line[3])) {
                (Some(register), Some(a), Some(b)) => Some(Instruction::Arithmetic(Arithmetic::Add { register, a, b })),
                _ => None,
            }
        } else {
            None
        },
        Mnemonic::Divide => if n == 4 {
            match (word_to_register(&line[1]), word_to_operand(&line[2]), word_to_operand(&line[3])) {
                (Some(register), Some(a), Some(b)) => Some(Instruction::Arithmetic(Arithmetic::Divide { register, a, b })),
                _ => None,
            }
        } else {
            None
        },
        Mnemonic::Multiply => if n == 4 {
            match (word_to_register(&line[1]), word_to_operand(&line[2]), word_to_operand(&line[3])) {
                (Some(register), Some(a), Some(b)) => Some(Instruction::Arithmetic(Arithmetic::Multiply { register, a, b })),
                _ => None,
            }
        } else {
            None
        },
        Mnemonic::Subtract => if n == 4 {
            match (word_to_register(&line[1]), word_to_operand(&line[2]), word_to_operand(&line[3])) {
                (Some(register), Some(a), Some(b)) => Some(Instruction::Arithmetic(Arithmetic::Subtract { register, a, b })),
                _ => None,
            }
        } else {
            None
        },
        Mnemonic::And => if n == 4 {
            match (word_to_register(&line[1]), word_to_operand(&line[2]), word_to_operand(&line[3])) {
                (Some(register), Some(a), Some(b)) => Some(Instruction::Logic(Logic::And { register, a, b })),
                _ => None,
            }
        } else {
            None
        },
        Mnemonic::Or => if n == 4 {
            match (word_to_register(&line[1]), word_to_operand(&line[2]), word_to_operand(&line[3])) {
                (Some(register), Some(a), Some(b)) => Some(Instruction::Logic(Logic::Or { register, a, b })),
                _ => None,
            }
        } else {
            None
        },
        Mnemonic::Push => if n == 2 {
            match word_to_operand(&line[1]) {
                Some(a) => Some(Instruction::Stack(Stack::Push { a })),
                _ => None,
            }
        } else {
            None
        },
        Mnemonic::Pop => if n == 2 {
            match word_to_register(&line[1]) {
                Some(register) => Some(Instruction::Stack(Stack::Pop { register })),
                _ => None,
            }
        } else {
            None
        },
        Mnemonic::Peek => if n == 2 {
            match word_to_register(&line[1]) {
                Some(register) => Some(Instruction::Stack(Stack::Peek { register })),
                _ => None,
            }
        } else {
            None
        },
        Mnemonic::Halt => if n == 1 {
            Some(Instruction::Misc(Misc::Halt))
        } else {
            None
        },
        Mnemonic::Move => if n == 3 {
            match (word_to_register(&line[1]), word_to_operand(&line[2])) {
                (Some(register), Some(a)) => Some(Instruction::Misc(Misc::Move { register, a })),
                _ => None,
            }
        } else {
            None
        },
        Mnemonic::Sleep => if n == 2 {
            match word_to_operand(&line[1]) {
                Some(a) => Some(Instruction::Misc(Misc::Sleep { a })),
                _ => None,
            }
        } else {
            None
        },
        Mnemonic::Yield => if n == 1 {
            Some(Instruction::Misc(Misc::Yield))
        } else {
            None
        },
    }
}

impl Instruction {
    /// The mnemonic of the instruction, if it holds no free text.
    pub fn mnemonic_of(&self) -> (r: Option<Mnemonic>)
        ensures
            r == self.mnemonic(),
    {
        match self {
            Instruction::DeviceIo(DeviceIo::StoreDeviceVariable { .. }) => Some(Mnemonic::StoreDeviceVariable),
            Instruction::DeviceIo(DeviceIo::LoadDeviceVariable { .. }) => Some(Mnemonic::LoadDeviceVariable),
            Instruction::FlowControl(FlowControl::BranchEqualZero { .. }) => Some(Mnemonic::BranchEqualZero),
            Instruction::FlowControl(FlowControl::Jump { a }) => match a {
                JumpDest::Label(_) => None,
                _ => Some(Mnemonic::Jump),
            },
            Instruction::FlowControl(FlowControl::JumpAndLink { a }) => match a {
                JumpDest::Label(_) => None,
                _ => Some(Mnemonic::JumpAndLink),
            },
            Instruction::FlowControl(FlowControl::JumpRelative { .. }) => Some(Mnemonic::JumpRelative),
            Instruction::VariableSelection(VariableSelection::SelectApproximatelyEqual { .. }) => Some(Mnemonic::SelectApproximatelyEqual),
            Instruction::VariableSelection(VariableSelection::SelectApproximatelyZero { .. }) => Some(Mnemonic::SelectApproximatelyZero),
            Instruction::VariableSelection(VariableSelection::Select { .. }) => Some(Mnemonic::Select),
            Instruction::VariableSelection(VariableSelection::SelectEqual { .. }) => Some(Mnemonic::SelectEqual),
            Instruction::VariableSelection(VariableSelection::SelectEqualZero { .. }) => Some(Mnemonic::SelectEqualZero),
            Instruction::VariableSelection(VariableSelection::SelectGreaterOrEqual { .. }) => Some(Mnemonic::SelectGreaterOrEqual),
            Instruction::VariableSelection(VariableSelection::SelectGreaterOrEqualZero { .. }) => Some(Mnemonic::SelectGreaterOrEqualZero),
            Instruction::VariableSelection(VariableSelection::SelectGreaterThan { .. }) => Some(Mnemonic::SelectGreaterThan),
            Instruction::VariableSelection(VariableSelection::SelectGreaterThanZero { .. }) => Some(Mnemonic::SelectGreaterThanZero),
            Instruction::VariableSelection(VariableSelection::SelectLessOrEqual { .. }) => Some(Mnemonic::SelectLessOrEqual),
            Instruction::VariableSelection(VariableSelection::SelectLessOrEqualZero { .. }) => Some(Mnemonic::SelectLessOrEqualZero),
            Instruction::VariableSelection(VariableSelection::SelectLessThan { .. }) => Some(Mnemonic::SelectLessThan),
            Instruction::VariableSelection(VariableSelection::SelectLessThanZero { .. }) => Some(Mnemonic::SelectLessThanZero),
            Instruction::VariableSelection(VariableSelection::SelectNotApproximatelyEqual { .. }) => Some(Mnemonic::SelectNotApproximatelyEqual),
            Instruction::VariableSelection(VariableSelection::SelectNotApproximatelyZero { .. }) => Some(Mnemonic::SelectNotApproximatelyZero),
            Instruction::VariableSelection(VariableSelection::SelectNotEqual { .. }) => Some(Mnemonic::SelectNotEqual),
            Instruction::VariableSelection(VariableSelection::SelectNotEqualZero { .. }) => Some(Mnemonic::SelectNotEqualZero),
            Instruction::Arithmetic(Arithmetic::Add { .. }) => Some(Mnemonic::Add),
            Instruction::Arithmetic(Arithmetic::Divide { .. }) => Some(Mnemonic::Divide),
            Instruction::Arithmetic(Arithmetic::Multiply { .. }) => Some(Mnemonic::Multiply),
            Instruction::Arithmetic(Arithmetic::Subtract { .. }) => Some(Mnemonic::Subtract),
            Instruction::Logic(Logic::And { .. }) => Some(Mnemonic::And),
            Instruction::Logic(Logic::Or { .. }) => Some(Mnemonic::Or),
            Instruction::Stack(Stack::Push { .. }) => Some(Mnemonic::Push),
            Instruction::Stack(Stack::Pop { .. }) => Some(Mnemonic::Pop),
            Instruction::Stack(Stack::Peek { .. }) => Some(Mnemonic::Peek),
            Instruction::Misc(Misc::Halt) => Some(Mnemonic::Halt),
            Instruction::Misc(Misc::Move { .. }) => Some(Mnemonic::Move),
            Instruction::Misc(Misc::Sleep { .. }) => Some(Mnemonic::Sleep),
            Instruction::Misc(Misc::Yield) => Some(Mnemonic::Yield),
            _ => None,
        }
    }

    /// The line of a plain instruction as words: its mnemonic, then its
    /// operands. Another instruction has no line here.
    pub fn words(&self) -> (r: Option<Vec<Word>>)
        ensures
            match r {
                Some(list) => self.plain() && tokens(list@) == self.line(),
                None => !self.plain(),
            },
    {
        let m: Mnemonic = match self.mnemonic_of() {
            Some(m) => m,
            None => {
                return None;
            },
        };
        let mut list: Vec<Word> = Vec::new();
        list.push(Word::Text(m.name().to_owned()));
        match self {
            Instruction::DeviceIo(DeviceIo::StoreDeviceVariable { device, variable, register }) => {
                list.push(Word::Text(device.name().to_owned()));
                list.push(Word::Text(variable.name().to_owned()));
                list.push(operand_to_word(register));
            },
            Instruction::DeviceIo(DeviceIo::LoadDeviceVariable { register, device, variable }) => {
                list.push(Word::Text(register.name().to_owned()));
                list.push(Word::Text(device.name().to_owned()));
                list.push(Word::Text(variable.name().to_owned()));
            },
            Instruction::FlowControl(FlowControl::BranchEqualZero { a, b }) => {
                list.push(operand_to_word(a));
                list.push(operand_to_word(b));
            },
            Instruction::FlowControl(FlowControl::Jump { a }) => {
                list.push(target_to_word(a));
            },
            Instruction::FlowControl(FlowControl::JumpAndLink { a }) => {
                list.push(target_to_word(a));
            },
            Instruction::FlowControl(FlowControl::JumpRelative { a }) => {
                list.push(operand_to_word(a));
            },
            Instruction::VariableSelection(VariableSelection::SelectApproximatelyEqual { register, a, b, c }) => {
                list.push(Word::Text(register.name().to_owned()));
                list.push(operand_to_word(a));
                list.push(operand_to_word(b));
                list.push(operand_to_word(c));
            },
            Instruction::VariableSelection(VariableSelection::SelectApproximatelyZero { register, a, b }) => {
                list.push(Word::Text(register.name().to_owned()));
                list.push(operand_to_word(a));
                list.push(operand_to_word(b));
            },
            Instruction::VariableSelection(VariableSelection::Select { register, a, b, c }) => {
                list.push(Word::Text(register.name().to_owned()));
                list.push(operand_to_word(a));
                list.push(operand_to_word(b));
                list.push(operand_to_word(c));
            },
            Instruction::VariableSelection(VariableSelection::SelectEqual { register, a, b }) => {
                list.push(Word::Text(register.name().to_owned()));
                list.push(operand_to_word(a));
                list.push(operand_to_word(b));
            },
            Instruction::VariableSelection(VariableSelection::SelectEqualZero { register, a }) => {
                list.push(Word::Text(register.name().to_owned()));
                list.push(operand_to_word(a));
            },
            Instruction::VariableSelection(VariableSelection::SelectGreaterOrEqual { register, a, b }) => {
                list.push(Word::Text(register.name().to_owned()));
                list.push(operand_to_word(a));
                list.push(operand_to_word(b));
            },
            Instruction::VariableSelection(VariableSelection::SelectGreaterOrEqualZero { register, a }) => {
                list.push(Word::Text(register.name().to_owned()));
                list.push(operand_to_word(a));
            },
            Instruction::VariableSelection(VariableSelection::SelectGreaterThan { register, a, b }) => {
                list.push(Word::Text(register.name().to_owned()));
                list.push(operand_to_word(a));
                list.push(operand_to_word(b));
            },
            Instruction::VariableSelection(VariableSelection::SelectGreaterThanZero { register, a }) => {
                list.push(Word::Text(register.name().to_owned()));
                list.push(operand_to_word(a));
            },
            Instruction::VariableSelection(VariableSelection::SelectLessOrEqual { register, a, b }) => {
                list.push(Word::Text(register.name().to_owned()));
                list.push(operand_to_word(a));
                list.push(operand_to_word(b));
            },
            Instruction::VariableSelection(VariableSelection::SelectLessOrEqualZero { register, a }) => {
                list.push(Word::Text(register.name().to_owned()));
                list.push(operand_to_word(a));
            },
            Instruction::VariableSelection(VariableSelection::SelectLessThan { register, a, b }) => {
                list.push(Word::Text(register.name().to_owned()));
                list.push(operand_to_word(a));
                list.push(operand_to_word(b));
            },
            Instruction::VariableSelection(VariableSelection::SelectLessThanZero { register, a }) => {
                list.push(Word::Text(register.name().to_owned()));
                list.push(operand_to_word(a));
            },
            Instruction::VariableSelection(VariableSelection::SelectNotApproximatelyEqual { register, a, b, c }) => {
                list.push(Word::Text(register.name().to_owned()));
                list.push(operand_to_word(a));
                list.push(operand_to_word(b));
                list.push(operand_to_word(c));
            },
            Instruction::VariableSelection(VariableSelection::SelectNotApproximatelyZero { register, a, b }) => {
                list.push(Word::Text(register.name().to_owned()));
                list.push(operand_to_word(a));
                list.push(operand_to_word(b));
            },
            Instruction::VariableSelection(VariableSelection::SelectNotEqual { register, a, b }) => {
                list.push(Word::Text(register.name().to_owned()));
                list.push(operand_to_word(a));
                list.push(operand_to_word(b));
            },
            Instruction::VariableSelection(VariableSelection::SelectNotEqualZero { register, a }) => {
                list.push(Word::Text(register.name().to_owned()));
                list.push(operand_to_word(a));
            },
            Instruction::Arithmetic(Arithmetic::Add { register, a, b }) => {
                list.push(Word::Text(register.name().to_owned()));
                list.push(operand_to_word(a));
                list.push(operand_to_word(b));
            },
            Instruction::Arithmetic(Arithmetic::Divide { register, a, b }) => {
                list.push(Word::Text(register.name().to_owned()));
                list.push(operand_to_word(a));
                list.push(operand_to_word(b));
            },
            Instruction::Arithmetic(Arithmetic::Multiply { register, a, b }) => {
                list.push(Word::Text(register.name().to_owned()));
                list.push(operand_to_word(a));
                list.push(operand_to_word(b));
            },
            Instruction::Arithmetic(Arithmetic::Subtract { register, a, b }) => {
                list.push(Word::Text(register.name().to_owned()));
                list.push(operand_to_word(a));
                list.push(operand_to_word(b));
            },
            Instruction::Logic(Logic::And { register, a, b }) => {
                list.push(Word::Text(register.name().to_owned()));
                list.push(operand_to_word(a));
                list.push(operand_to_word(b));
            },
            Instruction::Logic(Logic::Or { register, a, b }) => {
                list.push(Word::Text(register.name().to_owned()));
                list.push(operand_to_word(a));
                list.push(operand_to_word(b));
            },
            Instruction::Stack(Stack::Push { a }) => {
                list.push(operand_to_word(a));
            },
            Instruction::Stack(Stack::Pop { register }) => {
                list.push(Word::Text(register.name().to_owned()));
            },
            Instruction::Stack(Stack::Peek { register }) => {
                list.push(Word::Text(register.name().to_owned()));
            },
            Instruction::Misc(Misc::Halt) => {},
            Instruction::Misc(Misc::Move { register, a }) => {
                list.push(Word::Text(register.name().to_owned()));
                list.push(operand_to_word(a));
            },
            Instruction::Misc(Misc::Sleep { a }) => {
                list.push(operand_to_word(a));
            },
            Instruction::Misc(Misc::Yield) => {},
            _ => {},
        }
        proof {
            assert(tokens(list@) =~= self.line());
        }
        Some(list)
    }

    /// Reads a line of words. It is an error if the words are not the
    /// line of a plain instruction.
    pub fn from_words(line: &Vec<Word>) -> (r: Result<Instruction, Error>)
        ensures
            match parsed(tokens(line@)) {
                Some(instruction) => r == Ok::<Instruction, Error>(instruction),
                None => r is Err && r->Err_0 is ParseError,
            },
    {
        if line.len() == 0 {
            return Err(Error::ParseError(String::new()));
        }
        let m: &String = match &line[0] {
            Word::Text(m) => m,
            Word::Number(_) => {
                return Err(Error::ParseError(String::new()));
            },
        };
        assert(tokens(line@)[0] == Token::Text(m@));
        let parsed: Option<Instruction> = match Mnemonic::from_name(m) {
            Some(mnemonic) => assemble(mnemonic, line),
            None => None,
        };
        match parsed {
            Some(instruction) => Ok(instruction),
            None => Err(Error::ParseError(m.clone())),
        }
    }
}

/// Reading the name of a register gives the register: the names differ in their
/// lengths or in one of a few letters.
pub proof fn lemma_register_name(x: Register)
    ensures
        Register::named(x.text()) == Some(x),
{
    reveal(Register::named);
    reveal_strlit("r0");
    assert("r0"@.len() == 2);
    assert("r0"@[1] == '0');
    reveal_strlit("r1");
    assert("r1"@.len() == 2);
    assert("r1"@[1] == '1');
    reveal_strlit("r2");
    assert("r2"@.len() == 2);
    assert("r2"@[1] == '2');
    reveal_strlit("r3");
    assert("r3"@.len() == 2);
    assert("r3"@[1] == '3');
    reveal_strlit("r4");
    assert("r4"@.len() == 2);
    assert("r4"@[1] == '4');
    reveal_strlit("r5");
    assert("r5"@.len() == 2);
    assert("r5"@[1] == '5');
    reveal_strlit("r6");
    assert("r6"@.len() == 2);
    assert("r6"@[1] == '6');
    reveal_strlit("r7");
    assert("r7"@.len() == 2);
    assert("r7"@[1] == '7');
    reveal_strlit("r8");
    assert("r8"@.len() == 2);
    assert("r8"@[1] == '8');
    reveal_strlit("r9");
    assert("r9"@.len() == 2);
    assert("r9"@[1] == '9');
    reveal_strlit("r10");
    assert("r10"@.len() == 3);
    assert("r10"@[2] == '0');
    reveal_strlit("r11");
    assert("r11"@.len() == 3);
    assert("r11"@[2] == '1');
    reveal_strlit("r12");
    assert("r12"@.len() == 3);
    assert("r12"@[2] == '2');
    reveal_strlit("r13");
    assert("r13"@.len() == 3);
    assert("r13"@[2] == '3');
    reveal_strlit("r14");
    assert("r14"@.len() == 3);
    assert("r14"@[2] == '4');
    reveal_strlit("r15");
    assert("r15"@.len() == 3);
    assert("r15"@[2] == '5');
    reveal_strlit("sp");
    assert("sp"@.len() == 2);
    assert("sp"@[1] == 'p');
    reveal_strlit("ra");
    assert("ra"@.len() == 2);
    assert("ra"@[1] == 'a');
}

/// Reading the name of a device gives the device: the names differ in their
/// lengths or in one of a few letters.
pub proof fn lemma_device_name(x: Device)
    ensures
        Device::named(x.text()) == Some(x),
{
    reveal(Device::named);
    reveal_strlit("db");
    assert("db"@.len() == 2);
    assert("db"@[1] == 'b');
    reveal_strlit("d0");
    assert("d0"@.len() == 2);
    assert("d0"@[1] == '0');
    reveal_strlit("d1");
    assert("d1"@.len() == 2);
    assert("d1"@[1] == '1');
    reveal_strlit("d2");
    assert("d2"@.len() == 2);
    assert("d2"@[1] == '2');
    reveal_strlit("d3");
    assert("d3"@.len() == 2);
    assert("d3"@[1] == '3');
    reveal_strlit("d4");
    assert("d4"@.len() == 2);
    assert("d4"@[1] == '4');
    reveal_strlit("d5");
    assert("d5"@.len() == 2);
    assert("d5"@[1] == '5');
}

/// Reading the name of a device attribute gives the device attribute: the names differ in their
/// lengths or in one of a few letters.
pub proof fn lemma_devicevariable_name(x: DeviceVariable)
    ensures
        DeviceVariable::named(x.text()) == Some(x),
{
    reveal(DeviceVariable::named);
    reveal_strlit("Activate");
    assert("Activate"@.len() == 8);
    assert("Activate"@[0] == 'A');
    reveal_strlit("AirRelease");
    assert("AirRelease"@.len() == 10);
    assert("AirRelease"@[5] == 'l');
    reveal_strlit("Charge");
    assert("Charge"@.len() == 6);
    assert("Charge"@[0] == 'C');
    reveal_strlit("ClearMemory");
    assert("ClearMemory"@.len() == 11);
    assert("ClearMemory"@[0] == 'C');
    assert("ClearMemory"@[1] == 'l');
    reveal_strlit("Color");
    assert("Color"@.len() == 5);
    assert("Color"@[2] == 'l');
    reveal_strlit("CompletionRatio");
    assert("CompletionRatio"@.len() == 15);
    assert("CompletionRatio"@[0] == 'C');
    reveal_strlit("ElevatorLevel");
    assert("ElevatorLevel"@.len() == 13);
    assert("ElevatorLevel"@[8] == 'L');
    reveal_strlit("ElevatorSpeed");
    assert("ElevatorSpeed"@.len() == 13);
    assert("ElevatorSpeed"@[8] == 'S');
    reveal_strlit("Error");
    assert("Error"@.len() == 5);
    assert("Error"@[2] == 'r');
    reveal_strlit("ExportCount");
    assert("ExportCount"@.len() == 11);
    assert("ExportCount"@[0] == 'E');
    assert("ExportCount"@[1] == 'x');
    reveal_strlit("Filtration");
    assert("Filtration"@.len() == 10);
    assert("Filtration"@[5] == 'a');
    reveal_strlit("Harvest");
    assert("Harvest"@.len() == 7);
    assert("Harvest"@[0] == 'H');
    reveal_strlit("Horizontal");
    assert("Horizontal"@.len() == 10);
    assert("Horizontal"@[5] == 'o');
    reveal_strlit("HorizontalRatio");
    assert("HorizontalRatio"@.len() == 15);
    assert("HorizontalRatio"@[0] == 'H');
    reveal_strlit("Idle");
    assert("Idle"@.len() == 4);
    assert("Idle"@[0] == 'I');
    reveal_strlit("ImportCount");
    assert("ImportCount"@.len() == 11);
    assert("ImportCount"@[0] == 'I');
    assert("ImportCount"@[1] == 'm');
    reveal_strlit("Lock");
    assert("Lock"@.len() == 4);
    assert("Lock"@[0] == 'L');
    reveal_strlit("Maximum");
    assert("Maximum"@.len() == 7);
    assert("Maximum"@[0] == 'M');
    reveal_strlit("Mode");
    assert("Mode"@.len() == 4);
    assert("Mode"@[0] == 'M');
    reveal_strlit("On");
    assert("On"@.len() == 2);
    reveal_strlit("Open");
    assert("Open"@.len() == 4);
    assert("Open"@[0] == 'O');
    reveal_strlit("Output");
    assert("Output"@.len() == 6);
    assert("Output"@[0] == 'O');
    reveal_strlit("Plant");
    assert("Plant"@.len() == 5);
    assert("Plant"@[2] == 'a');
    reveal_strlit("PositionX");
    assert("PositionX"@.len() == 9);
    assert("PositionX"@[8] == 'X');
    reveal_strlit("PositionY");
    assert("PositionY"@.len() == 9);
    assert("PositionY"@[8] == 'Y');
    reveal_strlit("Power");
    assert("Power"@.len() == 5);
    assert("Power"@[2] == 'w');
    reveal_strlit("PowerActual");
    assert("PowerActual"@.len() == 11);
    assert("PowerActual"@[0] == 'P');
    assert("PowerActual"@[1] == 'o');
    reveal_strlit("PowerPotential");
    assert("PowerPotential"@.len() == 14);
    assert("PowerPotential"@[8] == 'e');
    reveal_strlit("PowerRequired");
    assert("PowerRequired"@.len() == 13);
    assert("PowerRequired"@[8] == 'u');
    reveal_strlit("Pressure");
    assert("Pressure"@.len() == 8);
    assert("Pressure"@[0] == 'P');
    reveal_strlit("PressureExternal");
    assert("PressureExternal"@.len() == 16);
    assert("PressureExternal"@[8] == 'E');
    reveal_strlit("PressureInternal");
    assert("PressureInternal"@.len() == 16);
    assert("PressureInternal"@[8] == 'I');
    reveal_strlit("PressureSetting");
    assert("PressureSetting"@.len() == 15);
    assert("PressureSetting"@[0] == 'P');
    reveal_strlit("Quantity");
    assert("Quantity"@.len() == 8);
    assert("Quantity"@[0] == 'Q');
    reveal_strlit("Ratio");
    assert("Ratio"@.len() == 5);
    assert("Ratio"@[2] == 't');
    reveal_strlit("RatioCarbonDioxide");
    assert("RatioCarbonDioxide"@.len() == 18);
    reveal_strlit("RatioNitrogen");
    assert("RatioNitrogen"@.len() == 13);
    assert("RatioNitrogen"@[8] == 'r');
    reveal_strlit("RatioOxygen");
    assert("RatioOxygen"@.len() == 11);
    assert("RatioOxygen"@[0] == 'R');
    assert("RatioOxygen"@[1] == 'a');
    reveal_strlit("RatioPollutant");
    assert("RatioPollutant"@.len() == 14);
    assert("RatioPollutant"@[8] == 'l');
    reveal_strlit("RatioVolatiles");
    assert("RatioVolatiles"@.len() == 14);
    assert("RatioVolatiles"@[8] == 'a');
    reveal_strlit("RatioWater");
    assert("RatioWater"@.len() == 10);
    assert("RatioWater"@[5] == 'W');
    reveal_strlit("Reagents");
    assert("Reagents"@.len() == 8);
    assert("Reagents"@[0] == 'R');
    reveal_strlit("RecipeHash");
    assert("RecipeHash"@.len() == 10);
    assert("RecipeHash"@[5] == 'e');
    reveal_strlit("RequestHash");
    assert("RequestHash"@.len() == 11);
    assert("RequestHash"@[0] == 'R');
    assert("RequestHash"@[1] == 'e');
    reveal_strlit("RequiredPower");
    assert("RequiredPower"@.len() == 13);
    assert("RequiredPower"@[8] == 'P');
    reveal_strlit("Setting");
    assert("Setting"@.len() == 7);
    assert("Setting"@[0] == 'S');
    reveal_strlit("SolarAngle");
    assert("SolarAngle"@.len() == 10);
    assert("SolarAngle"@[5] == 'A');
    reveal_strlit("Temperature");
    assert("Temperature"@.len() == 11);
    assert("Temperature"@[0] == 'T');
    assert("Temperature"@[1] == 'e');
    reveal_strlit("TemperatureSettings");
    assert("TemperatureSettings"@.len() == 19);
    reveal_strlit("TotalMoles");
    assert("TotalMoles"@.len() == 10);
    assert("TotalMoles"@[5] == 'M');
    reveal_strlit("VelocityMagnitude");
    assert("VelocityMagnitude"@.len() == 17);
    assert("VelocityMagnitude"@[16] == 'e');
    reveal_strlit("VelocityRelativeX");
    assert("VelocityRelativeX"@.len() == 17);
    assert("VelocityRelativeX"@[16] == 'X');
    reveal_strlit("VelocityRelativeY");
    assert("VelocityRelativeY"@.len() == 17);
    assert("VelocityRelativeY"@[16] == 'Y');
    reveal_strlit("VelocityRelativeZ");
    assert("VelocityRelativeZ"@.len() == 17);
    assert("VelocityRelativeZ"@[16] == 'Z');
    reveal_strlit("Vertical");
    assert("Vertical"@.len() == 8);
    assert("Vertical"@[0] == 'V');
    reveal_strlit("VerticalRatio");
    assert("VerticalRatio"@.len() == 13);
    assert("VerticalRatio"@[8] == 'R');
    reveal_strlit("Volume");
    assert("Volume"@.len() == 6);
    assert("Volume"@[0] == 'V');
}

/// Reading a mnemonic gives the mnemonic: the mnemonics differ in their
/// lengths or in one of a few letters.
pub proof fn lemma_mnemonic_name(x: Mnemonic)
    ensures
        Mnemonic::named(x.text()) == Some(x),
{
    reveal(Mnemonic::named);
    reveal_strlit("s");
    assert("s"@.len() == 1);
    assert("s"@[0] == 's');
    reveal_strlit("l");
    assert("l"@.len() == 1);
    assert("l"@[0] == 'l');
    reveal_strlit("beqz");
    assert("beqz"@.len() == 4);
    assert("beqz"@[0] == 'b');
    assert("beqz"@[1] == 'e');
    assert("beqz"@[2] == 'q');
    reveal_strlit("j");
    assert("j"@.len() == 1);
    assert("j"@[0] == 'j');
    reveal_strlit("jal");
    assert("jal"@.len() == 3);
    assert("jal"@[1] == 'a');
    assert("jal"@[2] == 'l');
    reveal_strlit("jr");
    assert("jr"@.len() == 2);
    assert("jr"@[0] == 'j');
    reveal_strlit("sap");
    assert("sap"@.len() == 3);
    assert("sap"@[1] == 'a');
    assert("sap"@[2] == 'p');
    reveal_strlit("sapz");
    assert("sapz"@.len() == 4);
    assert("sapz"@[0] == 's');
    assert("sapz"@[1] == 'a');
    assert("sapz"@[2] == 'p');
    reveal_strlit("select");
    assert("select"@.len() == 6);
    reveal_strlit("seq");
    assert("seq"@.len() == 3);
    assert("seq"@[1] == 'e');
    assert("seq"@[2] == 'q');
    reveal_strlit("seqz");
    assert("seqz"@.len() == 4);
    assert("seqz"@[0] == 's');
    assert("seqz"@[1] == 'e');
    assert("seqz"@[2] == 'q');
    reveal_strlit("sge");
    assert("sge"@.len() == 3);
    assert("sge"@[1] == 'g');
    assert("sge"@[2] == 'e');
    reveal_strlit("sgez");
    assert("sgez"@.len() == 4);
    assert("sgez"@[0] == 's');
    assert("sgez"@[1] == 'g');
    assert("sgez"@[2] == 'e');
    reveal_strlit("sgt");
    assert("sgt"@.len() == 3);
    assert("sgt"@[1] == 'g');
    assert("sgt"@[2] == 't');
    reveal_strlit("sgtz");
    assert("sgtz"@.len() == 4);
    assert("sgtz"@[0] == 's');
    assert("sgtz"@[1] == 'g');
    assert("sgtz"@[2] == 't');
    reveal_strlit("sle");
    assert("sle"@.len() == 3);
    assert("sle"@[1] == 'l');
    assert("sle"@[2] == 'e');
    reveal_strlit("slez");
    assert("slez"@.len() == 4);
    assert("slez"@[0] == 's');
    assert("slez"@[1] == 'l');
    assert("slez"@[2] == 'e');
    reveal_strlit("slt");
    assert("slt"@.len() == 3);
    assert("slt"@[1] == 'l');
    assert("slt"@[2] == 't');
    reveal_strlit("sltz");
    assert("sltz"@.len() == 4);
    assert("sltz"@[0] == 's');
    assert("sltz"@[1] == 'l');
    assert("sltz"@[2] == 't');
    reveal_strlit("sna");
    assert("sna"@.len() == 3);
    assert("sna"@[1] == 'n');
    assert("sna"@[2] == 'a');
    reveal_strlit("snaz");
    assert("snaz"@.len() == 4);
    assert("snaz"@[0] == 's');
    assert("snaz"@[1] == 'n');
    assert("snaz"@[2] == 'a');
    reveal_strlit("sne");
    assert("sne"@.len() == 3);
    assert("sne"@[1] == 'n');
    assert("sne"@[2] == 'e');
    reveal_strlit("snez");
    assert("snez"@.len() == 4);
    assert("snez"@[0] == 's');
    assert("snez"@[1] == 'n');
    assert("snez"@[2] == 'e');
    reveal_strlit("add");
    assert("add"@.len() == 3);
    assert("add"@[1] == 'd');
    assert("add"@[2] == 'd');
    reveal_strlit("div");
    assert("div"@.len() == 3);
    assert("div"@[1] == 'i');
    assert("div"@[2] == 'v');
    reveal_strlit("mul");
    assert("mul"@.len() == 3);
    assert("mul"@[1] == 'u');
    assert("mul"@[2] == 'l');
    reveal_strlit("sub");
    assert("sub"@.len() == 3);
    assert("sub"@[1] == 'u');
    assert("sub"@[2] == 'b');
    reveal_strlit("and");
    assert("and"@.len() == 3);
    assert("and"@[1] == 'n');
    assert("and"@[2] == 'd');
    reveal_strlit("or");
    assert("or"@.len() == 2);
    assert("or"@[0] == 'o');
    reveal_strlit("push");
    assert("push"@.len() == 4);
    assert("push"@[0] == 'p');
    assert("push"@[1] == 'u');
    assert("push"@[2] == 's');
    reveal_strlit("pop");
    assert("pop"@.len() == 3);
    assert("pop"@[1] == 'o');
    assert("pop"@[2] == 'p');
    reveal_strlit("peek");
    assert("peek"@.len() == 4);
    assert("peek"@[0] == 'p');
    assert("peek"@[1] == 'e');
    assert("peek"@[2] == 'e');
    reveal_strlit("hcf");
    assert("hcf"@.len() == 3);
    assert("hcf"@[1] == 'c');
    assert("hcf"@[2] == 'f');
    reveal_strlit("move");
    assert("move"@.len() == 4);
    assert("move"@[0] == 'm');
    assert("move"@[1] == 'o');
    assert("move"@[2] == 'v');
    reveal_strlit("sleep");
    assert("sleep"@.len() == 5);
    assert("sleep"@[0] == 's');
    reveal_strlit("yield");
    assert("yield"@.len() == 5);
    assert("yield"@[0] == 'y');
}

/// Reading the word of an operand gives the operand.
pub proof fn lemma_operand_word(x: RegisterOrNumber)
    ensures
        read_operand(operand_word(x)) == Some(x),
{
    match x {
        RegisterOrNumber::Register(r) => {
            lemma_register_name(r);
        },
        RegisterOrNumber::Number(_) => {},
    }
}

/// Reading the word of the target of a jump that is no label gives the target.
pub proof fn lemma_target_word(x: JumpDest)
    requires
        !(x is Label),
    ensures
        read_target(target_word(x)) == Some(x),
{
    match x {
        JumpDest::Register(r) => {
            lemma_register_name(r);
        },
        _ => {},
    }
}

/// Reading the line of an instruction of the group gives the instruction.
proof fn lemma_parse_device_io(x: DeviceIo)
    requires
        Instruction::DeviceIo(x).plain(),
    ensures
        parsed(Instruction::DeviceIo(x).line()) == Some(Instruction::DeviceIo(x)),
{
    let i = Instruction::DeviceIo(x);
    let m = i.mnemonic()->Some_0;
    lemma_mnemonic_name(m);
    let line = i.line();
    assert(line[0] == Token::Text(m.text()));
    match x {
        DeviceIo::StoreDeviceVariable { device, variable, register } => {
            lemma_device_name(device);
            lemma_devicevariable_name(variable);
            lemma_operand_word(register);
            assert(line =~= seq![Token::Text(m.text()), device_word(device), variable_word(variable), operand_word(register)]);
            assert(assembled(m, line) == Some(i));
        },
        DeviceIo::LoadDeviceVariable { register, device, variable } => {
            lemma_register_name(register);
            lemma_device_name(device);
            lemma_devicevariable_name(variable);
            assert(line =~= seq![Token::Text(m.text()), register_word(register), device_word(device), variable_word(variable)]);
            assert(assembled(m, line) == Some(i));
        },
    }
}

/// Reading the line of an instruction of the group gives the instruction.
proof fn lemma_parse_flow(x: FlowControl)
    requires
        Instruction::FlowControl(x).plain(),
    ensures
        parsed(Instruction::FlowControl(x).line()) == Some(Instruction::FlowControl(x)),
{
    let i = Instruction::FlowControl(x);
    let m = i.mnemonic()->Some_0;
    lemma_mnemonic_name(m);
    let line = i.line();
    assert(line[0] == Token::Text(m.text()));
    match x {
        FlowControl::BranchEqualZero { a, b } => {
            lemma_operand_word(a);
            lemma_operand_word(b);
            assert(line =~= seq![Token::Text(m.text()), operand_word(a), operand_word(b)]);
            assert(assembled(m, line) == Some(i));
        },
        FlowControl::Jump { a } => {
            lemma_target_word(a);
            assert(line =~= seq![Token::Text(m.text()), target_word(a)]);
            assert(assembled(m, line) == Some(i));
        },
        FlowControl::JumpAndLink { a } => {
            lemma_target_word(a);
            assert(line =~= seq![Token::Text(m.text()), target_word(a)]);
            assert(assembled(m, line) == Some(i));
        },
        FlowControl::JumpRelative { a } => {
            lemma_operand_word(a);
            assert(line =~= seq![Token::Text(m.text()), operand_word(a)]);
            assert(assembled(m, line) == Some(i));
        },
    }
}

proof fn lemma_parse_sap(register: Register, a: RegisterOrNumber, b: RegisterOrNumber, c: RegisterOrNumber)
    ensures
        parsed((Instruction::VariableSelection(VariableSelection::SelectApproximatelyEqual { register, a, b, c })).line()) == Some(Instruction::VariableSelection(VariableSelection::SelectApproximatelyEqual { register, a, b, c })),
{
    let i = Instruction::VariableSelection(VariableSelection::SelectApproximatelyEqual { register, a, b, c });
    lemma_mnemonic_name(Mnemonic::SelectApproximatelyEqual);
    let line = i.line();
    lemma_register_name(register);
    lemma_operand_word(a);
    lemma_operand_word(b);
    lemma_operand_word(c);
    assert(line =~= seq![Token::Text(Mnemonic::SelectApproximatelyEqual.text()), register_word(register), operand_word(a), operand_word(b), operand_word(c)]);
}

proof fn lemma_parse_sapz(register: Register, a: RegisterOrNumber, b: RegisterOrNumber)
    ensures
        parsed((Instruction::VariableSelection(VariableSelection::SelectApproximatelyZero { register, a, b })).line()) == Some(Instruction::VariableSelection(VariableSelection::SelectApproximatelyZero { register, a, b })),
{
    let i = Instruction::VariableSelection(VariableSelection::SelectApproximatelyZero { register, a, b });
    lemma_mnemonic_name(Mnemonic::SelectApproximatelyZero);
    let line = i.line();
    lemma_register_name(register);
    lemma_operand_word(a);
    lemma_operand_word(b);
    assert(line =~= seq![Token::Text(Mnemonic::SelectApproximatelyZero.text()), register_word(register), operand_word(a), operand_word(b)]);
}

proof fn lemma_parse_select(register: Register, a: RegisterOrNumber, b: RegisterOrNumber, c: RegisterOrNumber)
    ensures
        parsed((Instruction::VariableSelection(VariableSelection::Select { register, a, b, c })).line()) == Some(Instruction::VariableSelection(VariableSelection::Select { register, a, b, c })),
{
    let i = Instruction::VariableSelection(VariableSelection::Select { register, a, b, c });
    lemma_mnemonic_name(Mnemonic::Select);
    let line = i.line();
    lemma_register_name(register);
    lemma_operand_word(a);
    lemma_operand_word(b);
    lemma_operand_word(c);
    assert(line =~= seq![Token::Text(Mnemonic::Select.text()), register_word(register), operand_word(a), operand_word(b), operand_word(c)]);
}

proof fn lemma_parse_seq(register: Register, a: RegisterOrNumber, b: RegisterOrNumber)
    ensures
        parsed((Instruction::VariableSelection(VariableSelection::SelectEqual { register, a, b })).line()) == Some(Instruction::VariableSelection(VariableSelection::SelectEqual { register, a, b })),
{
    let i = Instruction::VariableSelection(VariableSelection::SelectEqual { register, a, b });
    lemma_mnemonic_name(Mnemonic::SelectEqual);
    let line = i.line();
    lemma_register_name(register);
    lemma_operand_word(a);
    lemma_operand_word(b);
    assert(line =~= seq![Token::Text(Mnemonic::SelectEqual.text()), register_word(register), operand_word(a), operand_word(b)]);
}

proof fn lemma_parse_seqz(register: Register, a: RegisterOrNumber)
    ensures
        parsed((Instruction::VariableSelection(VariableSelection::SelectEqualZero { register, a })).line()) == Some(Instruction::VariableSelection(VariableSelection::SelectEqualZero { register, a })),
{
    let i = Instruction::VariableSelection(VariableSelection::SelectEqualZero { register, a });
    lemma_mnemonic_name(Mnemonic::SelectEqualZero);
    let line = i.line();
    lemma_register_name(register);
    lemma_operand_word(a);
    assert(line =~= seq![Token::Text(Mnemonic::SelectEqualZero.text()), register_word(register), operand_word(a)]);
}

proof fn lemma_parse_sge(register: Register, a: RegisterOrNumber, b: RegisterOrNumber)
    ensures
        parsed((Instruction::VariableSelection(VariableSelection::SelectGreaterOrEqual { register, a, b })).line()) == Some(Instruction::VariableSelection(VariableSelection::SelectGreaterOrEqual { register, a, b })),
{
    let i = Instruction::VariableSelection(VariableSelection::SelectGreaterOrEqual { register, a, b });
    lemma_mnemonic_name(Mnemonic::SelectGreaterOrEqual);
    let line = i.line();
    lemma_register_name(register);
    lemma_operand_word(a);
    lemma_operand_word(b);
    assert(line =~= seq![Token::Text(Mnemonic::SelectGreaterOrEqual.text()), register_word(register), operand_word(a), operand_word(b)]);
}

proof fn lemma_parse_sgez(register: Register, a: RegisterOrNumber)
    ensures
        parsed((Instruction::VariableSelection(VariableSelection::SelectGreaterOrEqualZero { register, a })).line()) == Some(Instruction::VariableSelection(VariableSelection::SelectGreaterOrEqualZero { register, a })),
{
    let i = Instruction::VariableSelection(VariableSelection::SelectGreaterOrEqualZero { register, a });
    lemma_mnemonic_name(Mnemonic::SelectGreaterOrEqualZero);
    let line = i.line();
    lemma_register_name(register);
    lemma_operand_word(a);
    assert(line =~= seq![Token::Text(Mnemonic::SelectGreaterOrEqualZero.text()), register_word(register), operand_word(a)]);
}

proof fn lemma_parse_sgt(register: Register, a: RegisterOrNumber, b: RegisterOrNumber)
    ensures
        parsed((Instruction::VariableSelection(VariableSelection::SelectGreaterThan { register, a, b })).line()) == Some(Instruction::VariableSelection(VariableSelection::SelectGreaterThan { register, a, b })),
{
    let i = Instruction::VariableSelection(VariableSelection::SelectGreaterThan { register, a, b });
    lemma_mnemonic_name(Mnemonic::SelectGreaterThan);
    let line = i.line();
    lemma_register_name(register);
    lemma_operand_word(a);
    lemma_operand_word(b);
    assert(line =~= seq![Token::Text(Mnemonic::SelectGreaterThan.text()), register_word(register), operand_word(a), operand_word(b)]);
}

proof fn lemma_parse_sgtz(register: Register, a: RegisterOrNumber)
    ensures
        parsed((Instruction::VariableSelection(VariableSelection::SelectGreaterThanZero { register, a })).line()) == Some(Instruction::VariableSelection(VariableSelection::SelectGreaterThanZero { register, a })),
{
    let i = Instruction::VariableSelection(VariableSelection::SelectGreaterThanZero { register, a });
    lemma_mnemonic_name(Mnemonic::SelectGreaterThanZero);
    let line = i.line();
    lemma_register_name(register);
    lemma_operand_word(a);
    assert(line =~= seq![Token::Text(Mnemonic::SelectGreaterThanZero.text()), register_word(register), operand_word(a)]);
}

proof fn lemma_parse_sle(register: Register, a: RegisterOrNumber, b: RegisterOrNumber)
    ensures
        parsed((Instruction::VariableSelection(VariableSelection::SelectLessOrEqual { register, a, b })).line()) == Some(Instruction::VariableSelection(VariableSelection::SelectLessOrEqual { register, a, b })),
{
    let i = Instruction::VariableSelection(VariableSelection::SelectLessOrEqual { register, a, b });
    lemma_mnemonic_name(Mnemonic::SelectLessOrEqual);
    let line = i.line();
    lemma_register_name(register);
    lemma_operand_word(a);
    lemma_operand_word(b);
    assert(line =~= seq![Token::Text(Mnemonic::SelectLessOrEqual.text()), register_word(register), operand_word(a), operand_word(b)]);
}

proof fn lemma_parse_slez(register: Register, a: RegisterOrNumber)
    ensures
        parsed((Instruction::VariableSelection(VariableSelection::SelectLessOrEqualZero { register, a })).line()) == Some(Instruction::VariableSelection(VariableSelection::SelectLessOrEqualZero { register, a })),
{
    let i = Instruction::VariableSelection(VariableSelection::SelectLessOrEqualZero { register, a });
    lemma_mnemonic_name(Mnemonic::SelectLessOrEqualZero);
    let line = i.line();
    lemma_register_name(register);
    lemma_operand_word(a);
    assert(line =~= seq![Token::Text(Mnemonic::SelectLessOrEqualZero.text()), register_word(register), operand_word(a)]);
}

proof fn lemma_parse_slt(register: Register, a: RegisterOrNumber, b: RegisterOrNumber)
    ensures
        parsed((Instruction::VariableSelection(VariableSelection::SelectLessThan { register, a, b })).line()) == Some(Instruction::VariableSelection(VariableSelection::SelectLessThan { register, a, b })),
{
    let i = Instruction::VariableSelection(VariableSelection::SelectLessThan { register, a, b });
    lemma_mnemonic_name(Mnemonic::SelectLessThan);
    let line = i.line();
    lemma_register_name(register);
    lemma_operand_word(a);
    lemma_operand_word(b);
    assert(line =~= seq![Token::Text(Mnemonic::SelectLessThan.text()), register_word(register), operand_word(a), operand_word(b)]);
}

proof fn lemma_parse_sltz(register: Register, a: RegisterOrNumber)
    ensures
        parsed((Instruction::VariableSelection(VariableSelection::SelectLessThanZero { register, a })).line()) == Some(Instruction::VariableSelection(VariableSelection::SelectLessThanZero { register, a })),
{
    let i = Instruction::VariableSelection(VariableSelection::SelectLessThanZero { register, a });
    lemma_mnemonic_name(Mnemonic::SelectLessThanZero);
    let line = i.line();
    lemma_register_name(register);
    lemma_operand_word(a);
    assert(line =~= seq![Token::Text(Mnemonic::SelectLessThanZero.text()), register_word(register), operand_word(a)]);
}

proof fn lemma_parse_sna(register: Register, a: RegisterOrNumber, b: RegisterOrNumber, c: RegisterOrNumber)
    ensures
        parsed((Instruction::VariableSelection(VariableSelection::SelectNotApproximatelyEqual { register, a, b, c })).line()) == Some(Instruction::VariableSelection(VariableSelection::SelectNotApproximatelyEqual { register, a, b, c })),
{
    let i = Instruction::VariableSelection(VariableSelection::SelectNotApproximatelyEqual { register, a, b, c });
    lemma_mnemonic_name(Mnemonic::SelectNotApproximatelyEqual);
    let line = i.line();
    lemma_register_name(register);
    lemma_operand_word(a);
    lemma_operand_word(b);
    lemma_operand_word(c);
    assert(line =~= seq![Token::Text(Mnemonic::SelectNotApproximatelyEqual.text()), register_word(register), operand_word(a), operand_word(b), operand_word(c)]);
}

proof fn lemma_parse_snaz(register: Register, a: RegisterOrNumber, b: RegisterOrNumber)
    ensures
        parsed((Instruction::VariableSelection(VariableSelection::SelectNotApproximatelyZero { register, a, b })).line()) == Some(Instruction::VariableSelection(VariableSelection::SelectNotApproximatelyZero { register, a, b })),
{
    let i = Instruction::VariableSelection(VariableSelection::SelectNotApproximatelyZero { register, a, b });
    lemma_mnemonic_name(Mnemonic::SelectNotApproximatelyZero);
    let line = i.line();
    lemma_register_name(register);
    lemma_operand_word(a);
    lemma_operand_word(b);
    assert(line =~= seq![Token::Text(Mnemonic::SelectNotApproximatelyZero.text()), register_word(register), operand_word(a), operand_word(b)]);
}

proof fn lemma_parse_sne(register: Register, a: RegisterOrNumber, b: RegisterOrNumber)
    ensures
        parsed((Instruction::VariableSelection(VariableSelection::SelectNotEqual { register, a, b })).line()) == Some(Instruction::VariableSelection(VariableSelection::SelectNotEqual { register, a, b })),
{
    let i = Instruction::VariableSelection(VariableSelection::SelectNotEqual { register, a, b });
    lemma_mnemonic_name(Mnemonic::SelectNotEqual);
    let line = i.line();
    lemma_register_name(register);
    lemma_operand_word(a);
    lemma_operand_word(b);
    assert(line =~= seq![Token::Text(Mnemonic::SelectNotEqual.text()), register_word(register), operand_word(a), operand_word(b)]);
}

proof fn lemma_parse_snez(register: Register, a: RegisterOrNumber)
    ensures
        parsed((Instruction::VariableSelection(VariableSelection::SelectNotEqualZero { register, a })).line()) == Some(Instruction::VariableSelection(VariableSelection::SelectNotEqualZero { register, a })),
{
    let i = Instruction::VariableSelection(VariableSelection::SelectNotEqualZero { register, a });
    lemma_mnemonic_name(Mnemonic::SelectNotEqualZero);
    let line = i.line();
    lemma_register_name(register);
    lemma_operand_word(a);
    assert(line =~= seq![Token::Text(Mnemonic::SelectNotEqualZero.text()), register_word(register), operand_word(a)]);
}

/// Reading the line of an instruction of the group gives the instruction.
proof fn lemma_parse_selection(x: VariableSelection)
    ensures
        parsed(Instruction::VariableSelection(x).line()) == Some(Instruction::VariableSelection(x)),
{
    match x {
        VariableSelection::SelectApproximatelyEqual { register, a, b, c } => {
            lemma_parse_sap(register, a, b, c);
        },
        VariableSelection::SelectApproximatelyZero { register, a, b } => {
            lemma_parse_sapz(register, a, b);
        },
        VariableSelection::Select { register, a, b, c } => {
            lemma_parse_select(register, a, b, c);
        },
        VariableSelection::SelectEqual { register, a, b } => {
            lemma_parse_seq(register, a, b);
        },
        VariableSelection::SelectEqualZero { register, a } => {
            lemma_parse_seqz(register, a);
        },
        VariableSelection::SelectGreaterOrEqual { register, a, b } => {
            lemma_parse_sge(register, a, b);
        },
        VariableSelection::SelectGreaterOrEqualZero { register, a } => {
            lemma_parse_sgez(register, a);
        },
        VariableSelection::SelectGreaterThan { register, a, b } => {
            lemma_parse_sgt(register, a, b);
        },
        VariableSelection::SelectGreaterThanZero { register, a } => {
            lemma_parse_sgtz(register, a);
        },
        VariableSelection::SelectLessOrEqual { register, a, b } => {
            lemma_parse_sle(register, a, b);
        },
        VariableSelection::SelectLessOrEqualZero { register, a } => {
            lemma_parse_slez(register, a);
        },
        VariableSelection::SelectLessThan { register, a, b } => {
            lemma_parse_slt(register, a, b);
        },
        VariableSelection::SelectLessThanZero { register, a } => {
            lemma_parse_sltz(register, a);
        },
        VariableSelection::SelectNotApproximatelyEqual { register, a, b, c } => {
            lemma_parse_sna(register, a, b, c);
        },
        VariableSelection::SelectNotApproximatelyZero { register, a, b } => {
            lemma_parse_snaz(register, a, b);
        },
        VariableSelection::SelectNotEqual { register, a, b } => {
            lemma_parse_sne(register, a, b);
        },
        VariableSelection::SelectNotEqualZero { register, a } => {
            lemma_parse_snez(register, a);
        },
    }
}

/// Reading the line of an instruction of the group gives the instruction.
proof fn lemma_parse_arithmetic(x: Arithmetic)
    requires
        Instruction::Arithmetic(x).plain(),
    ensures
        parsed(Instruction::Arithmetic(x).line()) == Some(Instruction::Arithmetic(x)),
{
    let i = Instruction::Arithmetic(x);
    let m = i.mnemonic()->Some_0;
    lemma_mnemonic_name(m);
    let line = i.line();
    assert(line[0] == Token::Text(m.text()));
    match x {
        Arithmetic::Add { register, a, b } => {
            lemma_register_name(register);
            lemma_operand_word(a);
            lemma_operand_word(b);
            assert(line =~= seq![Token::Text(m.text()), register_word(register), operand_word(a), operand_word(b)]);
            assert(assembled(m, line) == Some(i));
        },
        Arithmetic::Divide { register, a, b } => {
            lemma_register_name(register);
            lemma_operand_word(a);
            lemma_operand_word(b);
            assert(line =~= seq![Token::Text(m.text()), register_word(register), operand_word(a), operand_word(b)]);
            assert(assembled(m, line) == Some(i));
        },
        Arithmetic::Multiply { register, a, b } => {
            lemma_register_name(register);
            lemma_operand_word(a);
            lemma_operand_word(b);
            assert(line =~= seq![Token::Text(m.text()), register_word(register), operand_word(a), operand_word(b)]);
            assert(assembled(m, line) == Some(i));
        },
        Arithmetic::Subtract { register, a, b } => {
            lemma_register_name(register);
            lemma_operand_word(a);
            lemma_operand_word(b);
            assert(line =~= seq![Token::Text(m.text()), register_word(register), operand_word(a), operand_word(b)]);
            assert(assembled(m, line) == Some(i));
        },
    }
}

/// Reading the line of an instruction of the group gives the instruction.
proof fn lemma_parse_logic(x: Logic)
    requires
        Instruction::Logic(x).plain(),
    ensures
        parsed(Instruction::Logic(x).line()) == Some(Instruction::Logic(x)),
{
    let i = Instruction::Logic(x);
    let m = i.mnemonic()->Some_0;
    lemma_mnemonic_name(m);
    let line = i.line();
    assert(line[0] == Token::Text(m.text()));
    match x {
        Logic::And { register, a, b } => {
            lemma_register_name(register);
            lemma_operand_word(a);
            lemma_operand_word(b);
            assert(line =~= seq![Token::Text(m.text()), register_word(register), operand_word(a), operand_word(b)]);
            assert(assembled(m, line) == Some(i));
        },
        Logic::Or { register, a, b } => {
            lemma_register_name(register);
            lemma_operand_word(a);
            lemma_operand_word(b);
            assert(line =~= seq![Token::Text(m.text()), register_word(register), operand_word(a), operand_word(b)]);
            assert(assembled(m, line) == Some(i));
        },
    }
}

/// Reading the line of an instruction of the group gives the instruction.
proof fn lemma_parse_stack(x: Stack)
    requires
        Instruction::Stack(x).plain(),
    ensures
        parsed(Instruction::Stack(x).line()) == Some(Instruction::Stack(x)),
{
    let i = Instruction::Stack(x);
    let m = i.mnemonic()->Some_0;
    lemma_mnemonic_name(m);
    let line = i.line();
    assert(line[0] == Token::Text(m.text()));
    match x {
        Stack::Push { a } => {
            lemma_operand_word(a);
            assert(line =~= seq![Token::Text(m.text()), operand_word(a)]);
            assert(assembled(m, line) == Some(i));
        },
        Stack::Pop { register } => {
            lemma_register_name(register);
            assert(line =~= seq![Token::Text(m.text()), register_word(register)]);
            assert(assembled(m, line) == Some(i));
        },
        Stack::Peek { register } => {
            lemma_register_name(register);
            assert(line =~= seq![Token::Text(m.text()), register_word(register)]);
            assert(assembled(m, line) == Some(i));
        },
    }
}

/// Reading the line of an instruction of the group gives the instruction.
proof fn lemma_parse_misc(x: Misc)
    requires
        Instruction::Misc(x).plain(),
    ensures
        parsed(Instruction::Misc(x).line()) == Some(Instruction::Misc(x)),
{
    let i = Instruction::Misc(x);
    let m = i.mnemonic()->Some_0;
    lemma_mnemonic_name(m);
    let line = i.line();
    assert(line[0] == Token::Text(m.text()));
    match x {
        Misc::Halt => {
            assert(line =~= seq![Token::Text(m.text())]);
            assert(assembled(m, line) == Some(i));
        },
        Misc::Move { register, a } => {
            lemma_register_name(register);
            lemma_operand_word(a);
            assert(line =~= seq![Token::Text(m.text()), register_word(register), operand_word(a)]);
            assert(assembled(m, line) == Some(i));
        },
        Misc::Sleep { a } => {
            lemma_operand_word(a);
            assert(line =~= seq![Token::Text(m.text()), operand_word(a)]);
            assert(assembled(m, line) == Some(i));
        },
        Misc::Yield => {
            assert(line =~= seq![Token::Text(m.text())]);
            assert(assembled(m, line) == Some(i));
        },
        _ => {},
    }
}

/// Reading the line of a plain instruction gives the instruction.
pub proof fn lemma_parse_line(i: Instruction)
    requires
        i.plain(),
    ensures
        parsed(i.line()) == Some(i),
{
    match i {
        Instruction::DeviceIo(x) => {
            lemma_parse_device_io(x);
        },
        Instruction::FlowControl(x) => {
            lemma_parse_flow(x);
        },
        Instruction::VariableSelection(x) => {
            lemma_parse_selection(x);
        },
        Instruction::Arithmetic(x) => {
            lemma_parse_arithmetic(x);
        },
        Instruction::Logic(x) => {
            lemma_parse_logic(x);
        },
        Instruction::Stack(x) => {
            lemma_parse_stack(x);
        },
        Instruction::Misc(x) => {
            lemma_parse_misc(x);
        },
    }
}

/// Whether every instruction of a program holds no free text.
pub open spec fn all_plain(code: Seq<Instruction>) -> bool {
    forall|k: int| 0 <= k < code.len() ==> (#[trigger] code[k]).plain()
}

/// The lines of a program.
pub open spec fn lines_of(code: Seq<Instruction>) -> Seq<Seq<Token>> {
    Seq::new(code.len(), |k: int| code[k].line())
}

/// The lines of words of a list, each word as a mathematical value.
pub open spec fn token_lines(lines: Seq<Vec<Word>>) -> Seq<Seq<Token>> {
    Seq::new(lines.len(), |k: int| tokens(lines[k]@))
}

/// The program that lines of words stand for, if each stands for an instruction.
pub open spec fn parsed_all(lines: Seq<Seq<Token>>) -> Option<Seq<Instruction>> {
    if forall|k: int| 0 <= k < lines.len() ==> parsed(#[trigger] lines[k]) is Some {
        Some(Seq::new(lines.len(), |k: int| parsed(lines[k])->Some_0))
    } else {
        None
    }
}

impl Program {
    /// The lines of the program as words, if every instruction holds no free text.
    pub fn lines(&self) -> (r: Option<Vec<Vec<Word>>>)
        ensures
            match r {
                Some(lines) => all_plain(self.instructions@) && token_lines(lines@) == lines_of(
                    self.instructions@,
                ),
                None => !all_plain(self.instructions@),
            },
    {
        let mut lines: Vec<Vec<Word>> = Vec::new();
        let mut k: usize = 0;
        while k < self.instructions.len()
            invariant
                k <= self.instructions.len(),
                lines@.len() == k,
                forall|j: int| 0 <= j < k ==> (#[trigger] self.instructions@[j]).plain(),
                forall|j: int| 0 <= j < k ==> tokens((#[trigger] lines@[j])@) == self.instructions@[j].line(),
            decreases self.instructions.len() - k,
        {
            match self.instructions[k].words() {
                Some(line) => {
                    lines.push(line);
                },
                None => {
                    return None;
                },
            }
            k = k + 1;
        }
        proof {
            assert(token_lines(lines@) =~= lines_of(self.instructions@));
        }
        Some(lines)
    }

    /// Reads a program from its lines. It is an error if a line is not the
    /// line of a plain instruction.
    pub fn from_lines(lines: &Vec<Vec<Word>>) -> (r: Result<Program, Error>)
        ensures
            match parsed_all(token_lines(lines@)) {
                Some(code) => r is Ok && r->Ok_0.instructions@ == code,
                None => r is Err && r->Err_0 is ParseError,
            },
    {
        let mut program = Program::new();
        let mut k: usize = 0;
        while k < lines.len()
            invariant
                k <= lines.len(),
                program.instructions@.len() == k,
                forall|j: int|
                    0 <= j < k ==> parsed(#[trigger] token_lines(lines@)[j]) == Some(program.instructions@[j]),
            decreases lines.len() - k,
        {
            assert(token_lines(lines@)[k as int] == tokens(lines@[k as int]@));
            match Instruction::from_words(&lines[k]) {
                Ok(instruction) => {
                    program.instructions.push(instruction);
                },
                Err(e) => {
                    return Err(e);
                },
            }
            k = k + 1;
        }
        proof {
            assert(program.instructions@ =~= parsed_all(token_lines(lines@))->Some_0);
        }
        Ok(program)
    }
}

/// Reading the lines of a program in which no instruction holds free
/// text gives the program.
pub proof fn lemma_parse_program(code: Seq<Instruction>)
    requires
        all_plain(code),
    ensures
        parsed_all(lines_of(code)) == Some(code),
{
    assert forall|k: int| 0 <= k < code.len() implies parsed(#[trigger] lines_of(code)[k]) == Some(code[k]) by {
        lemma_parse_line(code[k]);
    }
    assert(parsed_all(lines_of(code))->Some_0 =~= code);
}

} // verus!
