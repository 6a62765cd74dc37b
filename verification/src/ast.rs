//! The syntax tree that the compiler consumes.
use vstd::prelude::*;
use crate::number::Number;

verus! {

/// A name as the source wrote it.
#[derive(Debug, Eq, Hash, PartialEq, Clone)]
pub struct Identifier(String);

impl View for Identifier {
    type V = Seq<char>;

    open spec fn view(&self) -> Seq<char> {
        self.text()@
    }
}

impl Identifier {
    /// The name's text.
    pub closed spec fn text(self) -> String {
        self.0
    }

    /// An identifier with the given text.
    pub fn new(name: String) -> (r: Identifier)
        ensures
            r@ == name@,
    {
        Identifier(name)
    }

    /// An identifier with the text of a string slice.
    pub fn from_str(name: &str) -> (r: Identifier)
        ensures
            r@ == name@,
    {
        Identifier(name.to_owned())
    }

    /// The name's text.
    pub fn as_string(&self) -> (r: &String)
        ensures
            r@ == self@,
    {
        &self.0
    }

    /// A copy of the name's text.
    pub fn to_string(&self) -> (r: String)
        ensures
            r@ == self@,
    {
        self.0.clone()
    }

    /// A copy of the identifier.
    pub fn duplicate(&self) -> (r: Identifier)
        ensures
            r@ == self@,
    {
        Identifier(self.0.clone())
    }
}

/// The binary operators of the language.
#[derive(Clone, Copy, Debug, PartialEq, Eq, Structural)]
pub enum BinaryOpcode {
    Add,
    Sub,
    Mul,
    Div,
    Conj,
    Disj,
    Equals,
    NotEquals,
    Greater,
    GreaterEquals,
    Lower,
    LowerEquals,
}

/// The unary operators of the language.
#[derive(Debug, Clone, Copy, PartialEq, Eq, Structural)]
pub enum UnaryOpcode {
    Not,
}

/// A literal.
#[derive(Copy, Clone, Debug, PartialEq, Eq, Structural)]
pub enum Value {
    Integer(i64),
    Float(Number),
    Boolean(bool),
}

impl Value {
    /// The number that the literal stands for: an integer is rounded to the
    /// nearest number, a truth value is 1 or 0.
    pub open spec fn as_number(&self) -> Number {
        match *self {
            Value::Integer(x) => Number::of_int(x),
            Value::Float(x) => x,
            Value::Boolean(x) => Number::of_bool(x),
        }
    }

    /// The number that the literal stands for.
    #[verifier::when_used_as_spec(as_number)]
    pub fn number(&self) -> (r: Number)
        ensures
            r == self.as_number(),
    {
        match self {
            Value::Integer(x) => Number::from_i64(*x),
            Value::Float(x) => *x,
            Value::Boolean(x) => Number::from_bool(*x),
        }
    }
}

/// An expression.
#[derive(Debug)]
pub enum Expr {
    Constant(Value),
    Identifier(Identifier),
    BinaryOp(Box<Expr>, BinaryOpcode, Box<Expr>),
    UnaryOp(UnaryOpcode, Box<Expr>),
    FunctionCall(Identifier, Vec<Box<Expr>>),
    FieldExpr(Identifier, Identifier),
}

/// A sequence of statements between braces.
#[derive(Debug)]
pub enum Block {
    Statements(Vec<Statement>),
}

/// A conditional, with or without an `else`.
#[derive(Debug)]
pub enum IfStatement {
    If { condition: Box<Expr>, body: Block },
    IfElse { condition: Box<Expr>, body: Block, else_body: Block },
}

/// A statement that reads or writes a device.
#[derive(Debug)]
pub enum DeviceStatement {
    Read {
        /// The device to read from
        device: Identifier,
        /// The attribute to read from the device
        device_variable: Identifier,
        /// The local variable to store the read value
        local: Identifier,
    },
    Write {
        /// The value to write to the device
        value: Box<Expr>,
        /// The device to write to
        device: Identifier,
        /// The attribute to write to the device
        device_variable: Identifier,
    },
}

/// A statement.
#[derive(Debug)]
pub enum Statement {
    /// `lhs = rhs;`
    Assignment { lhs: Box<Expr>, rhs: Box<Expr> },
    /// `let identifier = expression;`
    Definition { identifier: Identifier, expression: Box<Expr> },
    Alias {
        /// The identifier to alias to
        identifier: Identifier,
        /// The new alias to the identifier
        alias: Identifier,
    },
    /// Defines a constant value for use in expressions
    Constant(Identifier, Box<Expr>),
    Function { identifier: Identifier, parameters: Vec<Identifier>, body: Block },
    FunctionCall { identifier: Identifier, arguments: Vec<Box<Expr>> },
    Block(Block),
    Loop { body: Block },
    IfStatement(IfStatement),
    DeviceStatement(DeviceStatement),
    Yield,
    Return(Box<Expr>),
}

/// A whole source file.
#[derive(Debug)]
pub struct Program {
    pub statements: Vec<Statement>,
}

impl Program {
    pub fn new(statements: Vec<Statement>) -> (r: Program)
        ensures
            r.statements == statements,
    {
        Program { statements }
    }
}

impl Statement {
    pub fn new_assignment(lhs: Box<Expr>, rhs: Box<Expr>) -> (r: Statement)
        ensures
            r == (Statement::Assignment { lhs, rhs }),
    {
        Statement::Assignment { lhs, rhs }
    }

    pub fn new_definition(identifier: Identifier, expression: Box<Expr>) -> (r: Statement)
        ensures
            r == (Statement::Definition { identifier, expression }),
    {
        Statement::Definition { identifier, expression }
    }

    pub fn new_alias(identifier: Identifier, alias: Identifier) -> (r: Statement)
        ensures
            r == (Statement::Alias { identifier, alias }),
    {
        Statement::Alias { identifier, alias }
    }

    pub fn new_constant(identifier: Identifier, expression: Box<Expr>) -> (r: Statement)
        ensures
            r == Statement::Constant(identifier, expression),
    {
        Statement::Constant(identifier, expression)
    }

    pub fn new_function(identifier: Identifier, parameters: Vec<Identifier>, body: Block) -> (r:
        Statement)
        ensures
            r == (Statement::Function { identifier, parameters, body }),
    {
        Statement::Function { identifier, parameters, body }
    }

    pub fn new_function_call(identifier: Identifier, arguments: Vec<Box<Expr>>) -> (r: Statement)
        ensures
            r == (Statement::FunctionCall { identifier, arguments }),
    {
        Statement::FunctionCall { identifier, arguments }
    }

    pub fn new_block(block: Block) -> (r: Statement)
        ensures
            r == Statement::Block(block),
    {
        Statement::Block(block)
    }

    pub fn new_loop(body: Block) -> (r: Statement)
        ensures
            r == (Statement::Loop { body }),
    {
        Statement::Loop { body }
    }

    pub fn new_if(if_statement: IfStatement) -> (r: Statement)
        ensures
            r == Statement::IfStatement(if_statement),
    {
        Statement::IfStatement(if_statement)
    }

    pub fn new_device(statement: DeviceStatement) -> (r: Statement)
        ensures
            r == Statement::DeviceStatement(statement),
    {
        Statement::DeviceStatement(statement)
    }

    pub fn new_yield() -> (r: Statement)
        ensures
            r == Statement::Yield,
    {
        Statement::Yield
    }

    pub fn new_return(expr: Box<Expr>) -> (r: Statement)
        ensures
            r == Statement::Return(expr),
    {
        Statement::Return(expr)
    }
}

impl Block {
    /// The statements of a block; a missing list is an empty block.
    pub open spec fn statement_list(&self) -> &Vec<Statement> {
        match self {
            Block::Statements(x) => x,
        }
    }

    pub fn new_statements(statements: Option<Vec<Statement>>) -> (r: Block)
        ensures
            statements matches Some(list) ==> r == Block::Statements(list),
            statements is None ==> r.statement_list()@ == Seq::<Statement>::empty(),
    {
        match statements {
            Some(statements) => Block::Statements(statements),
            None => Block::Statements(Vec::new()),
        }
    }

    #[verifier::when_used_as_spec(statement_list)]
    pub fn statements(&self) -> (r: &Vec<Statement>)
        ensures
            r == self.statement_list(),
    {
        match self {
            Block::Statements(x) => x,
        }
    }
}

impl IfStatement {
    pub fn new_if(condition: Box<Expr>, body: Block) -> (r: IfStatement)
        ensures
            r == (IfStatement::If { condition, body }),
    {
        IfStatement::If { condition, body }
    }

    pub fn new_if_else(condition: Box<Expr>, body: Block, else_body: Block) -> (r: IfStatement)
        ensures
            r == (IfStatement::IfElse { condition, body, else_body }),
    {
        IfStatement::IfElse { condition, body, else_body }
    }
}

impl DeviceStatement {
    pub fn new_read(device: Identifier, device_variable: Identifier, local: Identifier) -> (r:
        DeviceStatement)
        ensures
            r == (DeviceStatement::Read { device, device_variable, local }),
    {
        DeviceStatement::Read { device, device_variable, local }
    }

    pub fn new_write(value: Box<Expr>, device: Identifier, device_variable: Identifier) -> (r:
        DeviceStatement)
        ensures
            r == (DeviceStatement::Write { value, device, device_variable }),
    {
        DeviceStatement::Write { value, device, device_variable }
    }
}

/// Marks a type that can lay a syntax tree out as text.
pub trait Formatter {

}

} // verus!
