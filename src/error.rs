//! Evaluation failures, each with the best-known source line.

use vstd::prelude::*;

verus! {

#[derive(Debug)]
pub enum EvalError {
    UndefinedVariable { message: String, line: usize },
    UnknownFunction { message: String, line: usize },
    InvalidFunctionCall { message: String, line: usize },
    NonLiteralInQuoted { message: String, line: usize },
    InterpolationDepthExceeded { message: String, line: usize },
    TypeError { var: String, value: String, allowed: Vec<String>, line: usize },
    ExecutionError { message: String, line: usize },
    TaskNotFound { message: String, line: usize },
    NoCommand { message: String, line: usize },
    Other { message: String, line: usize },
}

/// The kind of a failure, with what it names.
pub enum FailKind {
    /// The variable's name.
    UndefinedVariable(Seq<char>),
    /// The function's name.
    UnknownFunction(Seq<char>),
    InvalidFunctionCall,
    NonLiteralInQuoted,
    InterpolationDepthExceeded,
    /// The variable, the rejected value and the allowed values.
    TypeError(Seq<char>, Seq<char>, Seq<Seq<char>>),
    ExecutionError,
    /// The missing task's name.
    TaskNotFound(Seq<char>),
    /// The name of the task without a command.
    NoCommand(Seq<char>),
    Other,
}

/// The model of an evaluation failure.
pub struct Fail {
    pub kind: FailKind,
    pub line: nat,
}

pub open spec fn fail(kind: FailKind, line: nat) -> Fail {
    Fail { kind, line }
}

impl View for EvalError {
    type V = Fail;

    open spec fn view(&self) -> Fail {
        match self {
            EvalError::UndefinedVariable { message, line } => fail(
                FailKind::UndefinedVariable(message@),
                *line as nat,
            ),
            EvalError::UnknownFunction { message, line } => fail(
                FailKind::UnknownFunction(message@),
                *line as nat,
            ),
            EvalError::InvalidFunctionCall { line, .. } => fail(
                FailKind::InvalidFunctionCall,
                *line as nat,
            ),
            EvalError::NonLiteralInQuoted { line, .. } => fail(
                FailKind::NonLiteralInQuoted,
                *line as nat,
            ),
            EvalError::InterpolationDepthExceeded { line, .. } => fail(
                FailKind::InterpolationDepthExceeded,
                *line as nat,
            ),
            EvalError::TypeError { var, value, allowed, line } => fail(
                FailKind::TypeError(var@, value@, allowed.deep_view()),
                *line as nat,
            ),
            EvalError::ExecutionError { line, .. } => fail(FailKind::ExecutionError, *line as nat),
            EvalError::TaskNotFound { message, line } => fail(
                FailKind::TaskNotFound(message@),
                *line as nat,
            ),
            EvalError::NoCommand { message, line } => fail(
                FailKind::NoCommand(message@),
                *line as nat,
            ),
            EvalError::Other { line, .. } => fail(FailKind::Other, *line as nat),
        }
    }
}

/// A structural failure with a message.
pub fn other(message: &str, line: usize) -> (r: EvalError)
    ensures
        r@ == fail(FailKind::Other, line as nat),
{
    EvalError::Other { message: String::from_str(message), line }
}

} // verus!
