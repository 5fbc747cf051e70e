//! The errors that evaluating a program can end in.

use vstd::prelude::*;

use crate::{
    functions::DefineError,
    parser,
    source::Span,
    stack::{self, Stack},
    types::Type,
    value::TypeError,
};

verus! {

/// Why the evaluation of a program stopped.
#[derive(Debug)]
pub enum Error {
    /// `caller` was called where no function called the running one.
    Caller,
    /// A definition conflicts with a function defined before.
    DefineFunction(DefineError),
    /// `fail` was called.
    Failure,
    /// No function of the name matches the types on the stack.
    FunctionNotFound { name: String, stack: Stack, candidates: Vec<Vec<Type>>, scope: String },
    /// No module of the name was made available.
    ModuleNotFound(String),
    /// A module could not be parsed.
    Parser(parser::Error),
    /// The stack held too few values.
    Stack(stack::Error),
    /// A value had the wrong type.
    Type(TypeError),
    /// The result of an arithmetic builtin does not fit into a number.
    Overflow,
    /// A number was divided by zero.
    DivisionByZero,
    /// Two scopes were compared; scopes have no equality.
    Incomparable,
    /// Functions were nested deeper than the interpreter's limit.
    RecursionLimit,
    /// A scope value that names no scope of the interpreter.
    InvalidScope,
}

/// The first span of a sequence, if there is one.
pub open spec fn first_span(spans: Seq<Span>) -> Option<Span> {
    if spans.len() > 0 { Some(spans[0]) } else { None }
}

/// An optional span as a sequence of at most one.
pub open spec fn span_seq(span: Option<Span>) -> Seq<Span> {
    match span {
        Some(s) => seq![s],
        None => Seq::empty(),
    }
}

/// The places in the source that an error refers to: the value of a type
/// error, or an unexpected token.
pub open spec fn eval_spans(e: Error) -> Seq<Span> {
    match e {
        Error::Type(t) => span_seq(t.actual.span),
        Error::Stack(stack::Error::TypeError(t)) => span_seq(t.actual.span),
        Error::Parser(parser::Error::UnexpectedToken(t)) => span_seq(t.span),
        _ => Seq::empty(),
    }
}

impl Error {
    /// The places in the source that the error refers to.
    pub fn spans(&self) -> (r: Vec<Span>)
        ensures
            r@ == eval_spans(*self),
            self matches Error::Type(t) ==> (match t.actual.span {
                Some(s) => r@ == seq![s],
                None => r@.len() == 0,
            }),
            self matches Error::Stack(e) ==> (match e {
                stack::Error::TypeError(t) => match t.actual.span {
                    Some(s) => r@ == seq![s],
                    None => r@.len() == 0,
                },
                stack::Error::StackEmpty => r@.len() == 0,
            }),
            self matches Error::Parser(e) ==> (match e {
                parser::Error::UnexpectedToken(t) => match t.span {
                    Some(s) => r@ == seq![s],
                    None => r@.len() == 0,
                },
                _ => r@.len() == 0,
            }),
            !(self is Type || self is Stack || self is Parser) ==> r@.len() == 0,
            r@.len() <= 1,
    {
        match self {
            Error::Type(e) => e.spans(),
            Error::Stack(e) => e.spans(),
            Error::Parser(e) => e.spans(),
            _ => Vec::new(),
        }
    }
}

} // verus!
