use vstd::prelude::*;
use crate::token::LexError;

verus! {

/// The tag of a value, as an error names it.
#[derive(Debug, PartialEq, Eq, Structural, Clone, Copy)]
pub enum Tag {
    Integer,
    Float,
    String,
    Boolean,
}

/// Why a script stopped.
#[derive(Debug, PartialEq)]
pub enum Error {
    /// The source text does not split into tokens.
    Lex(LexError),
    /// A statement does not have the shape its leading word asks for; the
    /// text describes the expected shape.
    Syntax(String),
    /// A name that no scope binds.
    UndefinedVariable(String),
    /// A variable whose value has another tag than the statement needs.
    TypeMismatch { name: String, expected: Tag },
    /// An update whose result does not fit in 64 signed bits.
    Overflow(String),
    /// A loop that did not end within the iteration limit.
    LoopLimit,
}


/// The model of an error: its kind, and the name it concerns.
pub enum Fault {
    Lex(LexError),
    Syntax,
    UndefinedVariable(Seq<char>),
    TypeMismatch(Seq<char>, Tag),
    Overflow(Seq<char>),
    LoopLimit,
}

impl View for Error {
    type V = Fault;

    open spec fn view(&self) -> Fault {
        match self {
            Error::Lex(e) => Fault::Lex(*e),
            Error::Syntax(_) => Fault::Syntax,
            Error::UndefinedVariable(n) => Fault::UndefinedVariable(n@),
            Error::TypeMismatch { name, expected } => Fault::TypeMismatch(name@, *expected),
            Error::Overflow(n) => Fault::Overflow(n@),
            Error::LoopLimit => Fault::LoopLimit,
        }
    }
}

} // verus!
