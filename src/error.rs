//! The two error kinds: one raised while a document is read, one while it
//! is applied to a parameter tree.
use vstd::prelude::*;

verus! {

/// A structural problem in a document. Reading a document stops at the first one.
#[derive(Debug, Clone, PartialEq, Eq)]
pub enum ParseError {
    /// The document's text could not be read.
    FileReadFail,
    /// The text is not a well-formed node document; the parser's message.
    ParseFail(String),
    IncorrectType,
    /// A `null` literal where a value is required.
    InvalidType,
    NoValue,
    /// A `chance` node without a `percent` property.
    NoPercent,
    /// `chance` nodes mixed with other expressions.
    MixedExprs,
    /// More than one expression where only `chance` nodes may repeat.
    TooManyExprs,
    /// An edit without an expression.
    ExprRequired,
    InvalidReturn(&'static str),
    InvalidValueStmt(&'static str),
    InvalidChance(&'static str),
    /// An expression node with an unknown name.
    InvalidExpr(String),
    InvalidRandlEntry(&'static str),
    /// A child of a `set` that is not a `value` node; its name.
    NonValueInSet(String),
}

/// The error of reading a document, under its shorter name.
pub type Error = ParseError;

/// A problem met while applying an edit list to a parameter tree.
#[derive(Debug, Clone, PartialEq, Eq)]
pub enum EvalError {
    IndexOutOfBounds(usize),
    MissingField(String),
    InvalidField(&'static str),
    /// A value of the first kind cannot be stored in a field of the second.
    InvalidAssignment(&'static str, &'static str),
    /// An integer outside the range of the field it is stored in.
    IntTooBig,
    /// A set that is not defined, or holds no value.
    InvalidSet(String),
}

/// The mathematical form of an `EvalError`: names as character sequences.
pub enum EvalErrorV {
    IndexOutOfBounds(usize),
    MissingField(Seq<char>),
    InvalidField(&'static str),
    InvalidAssignment(&'static str, &'static str),
    IntTooBig,
    InvalidSet(Seq<char>),
}

impl EvalError {
    pub open spec fn view(&self) -> EvalErrorV {
        match self {
            EvalError::IndexOutOfBounds(i) => EvalErrorV::IndexOutOfBounds(*i),
            EvalError::MissingField(s) => EvalErrorV::MissingField(s@),
            EvalError::InvalidField(m) => EvalErrorV::InvalidField(*m),
            EvalError::InvalidAssignment(a, b) => EvalErrorV::InvalidAssignment(*a, *b),
            EvalError::IntTooBig => EvalErrorV::IntTooBig,
            EvalError::InvalidSet(s) => EvalErrorV::InvalidSet(s@),
        }
    }
}

} // verus!
