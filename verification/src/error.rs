//! The ways in which compiling or interpreting a program can fail.
use vstd::prelude::*;

verus! {

/// Why a program was refused.
#[derive(Debug, Clone, PartialEq, Eq)]
pub enum Error {
    /// The construct is known but nothing is implemented for it.
    Todo,
    /// A line of target assembly could not be read.
    ParseError(String),
    /// The syntax tree has a shape that the compiler does not lower.
    UnsupportedSyntax,
    /// An identifier is read that was never defined and is no constant.
    UndefinedName,
    /// More values are alive at once than the machine has registers.
    RegisterPressure,
    /// A call names neither a primitive nor a declared function.
    UnknownCall,
    /// The program needs more values than there are numbers for them.
    TooLarge,
}

/// The kind of an error, without what it carries.
#[derive(Debug, Clone, Copy, PartialEq, Eq, Structural)]
pub enum ErrorKind {
    Todo,
    ParseError,
    UnsupportedSyntax,
    UndefinedName,
    RegisterPressure,
    UnknownCall,
    TooLarge,
}

impl Error {
    /// The kind of this error.
    pub open spec fn kind_of(&self) -> ErrorKind {
        match self {
            Error::Todo => ErrorKind::Todo,
            Error::ParseError(_) => ErrorKind::ParseError,
            Error::UnsupportedSyntax => ErrorKind::UnsupportedSyntax,
            Error::UndefinedName => ErrorKind::UndefinedName,
            Error::RegisterPressure => ErrorKind::RegisterPressure,
            Error::UnknownCall => ErrorKind::UnknownCall,
            Error::TooLarge => ErrorKind::TooLarge,
        }
    }

    /// The kind of this error.
    #[verifier::when_used_as_spec(kind_of)]
    pub fn kind(&self) -> (r: ErrorKind)
        ensures
            r == self.kind_of(),
    {
        match self {
            Error::Todo => ErrorKind::Todo,
            Error::ParseError(_) => ErrorKind::ParseError,
            Error::UnsupportedSyntax => ErrorKind::UnsupportedSyntax,
            Error::UndefinedName => ErrorKind::UndefinedName,
            Error::RegisterPressure => ErrorKind::RegisterPressure,
            Error::UnknownCall => ErrorKind::UnknownCall,
            Error::TooLarge => ErrorKind::TooLarge,
        }
    }
}

} // verus!
