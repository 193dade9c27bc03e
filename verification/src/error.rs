//! The ways an evaluation can fail.

use vstd::prelude::*;
use crate::number::{digits_of, render_digits};

verus! {

/// Why an evaluation stopped. No failure is recovered from: the first one
/// ends the whole evaluation.
#[derive(Debug, PartialEq, Eq)]
pub enum EvalError {
    /// The scanner marked this lexeme as malformed: its text, row and column.
    InvalidToken(String, usize, usize),
    /// A well-formed token that evaluation has no rule for: its text, row and
    /// column.
    UnsupportedToken(String, usize, usize),
    /// A name was used as a value while nothing was bound to it.
    UndefinedVariable(String),
    /// An operator met an operand that is no 32-bit decimal integer.
    MalformedNumber(String),
    /// A conditional met a condition that is neither `true` nor `false`.
    NonBooleanCondition(String),
    /// A token needed an operand or a block that was not there.
    StackUnderflow,
    /// The result of an operator is no 32-bit signed integer.
    Overflow,
    /// A division by zero.
    DivisionByZero,
}

/// What an [`EvalError`] says, with each text as a sequence of characters.
pub enum Failure {
    InvalidToken(Seq<char>, int, int),
    UnsupportedToken(Seq<char>, int, int),
    UndefinedVariable(Seq<char>),
    MalformedNumber(Seq<char>),
    NonBooleanCondition(Seq<char>),
    StackUnderflow,
    Overflow,
    DivisionByZero,
}

impl View for EvalError {
    type V = Failure;

    open spec fn view(&self) -> Failure {
        match self {
            EvalError::InvalidToken(text, row, column) => Failure::InvalidToken(
                text@,
                *row as int,
                *column as int,
            ),
            EvalError::UnsupportedToken(text, row, column) => Failure::UnsupportedToken(
                text@,
                *row as int,
                *column as int,
            ),
            EvalError::UndefinedVariable(name) => Failure::UndefinedVariable(name@),
            EvalError::MalformedNumber(text) => Failure::MalformedNumber(text@),
            EvalError::NonBooleanCondition(text) => Failure::NonBooleanCondition(text@),
            EvalError::StackUnderflow => Failure::StackUnderflow,
            EvalError::Overflow => Failure::Overflow,
            EvalError::DivisionByZero => Failure::DivisionByZero,
        }
    }
}

/// The message that reports a failure: it names the text that was at fault,
/// and for a token the row and the column where it stood.
pub open spec fn message_of(f: Failure) -> Seq<char> {
    match f {
        Failure::InvalidToken(text, row, column) => "ERROR: Invalid Token "@ + text + " at row:"@
            + digits_of(row as nat) + ",line:"@ + digits_of(column as nat),
        Failure::UnsupportedToken(text, row, column) => "Token not Defined: '"@ + text
            + "' at row:"@ + digits_of(row as nat) + ",line:"@ + digits_of(column as nat),
        Failure::UndefinedVariable(name) => "ERROR: undefined variable: |"@ + name + "|"@,
        Failure::MalformedNumber(text) => "ERROR: not an integer: |"@ + text + "|"@,
        Failure::NonBooleanCondition(text) => "ERROR: expected boolean at |"@ + text + "|"@,
        Failure::StackUnderflow => "ERROR: empty stack"@,
        Failure::Overflow => "ERROR: integer overflow"@,
        Failure::DivisionByZero => "ERROR: division by zero"@,
    }
}

impl EvalError {
    /// The message that reports this failure.
    pub fn message(&self) -> (r: String)
        ensures
            r@ == message_of(self@),
    {
        match self {
            EvalError::InvalidToken(text, row, column) => {
                let mut r = String::from_str("ERROR: Invalid Token ");
                r.append(text.as_str());
                r.append(" at row:");
                r.append(render_digits(*row as u64).as_str());
                r.append(",line:");
                r.append(render_digits(*column as u64).as_str());
                r
            },
            EvalError::UnsupportedToken(text, row, column) => {
                let mut r = String::from_str("Token not Defined: '");
                r.append(text.as_str());
                r.append("' at row:");
                r.append(render_digits(*row as u64).as_str());
                r.append(",line:");
                r.append(render_digits(*column as u64).as_str());
                r
            },
            EvalError::UndefinedVariable(name) => {
                let mut r = String::from_str("ERROR: undefined variable: |");
                r.append(name.as_str());
                r.append("|");
                r
            },
            EvalError::MalformedNumber(text) => {
                let mut r = String::from_str("ERROR: not an integer: |");
                r.append(text.as_str());
                r.append("|");
                r
            },
            EvalError::NonBooleanCondition(text) => {
                let mut r = String::from_str("ERROR: expected boolean at |");
                r.append(text.as_str());
                r.append("|");
                r
            },
            EvalError::StackUnderflow => String::from_str("ERROR: empty stack"),
            EvalError::Overflow => String::from_str("ERROR: integer overflow"),
            EvalError::DivisionByZero => String::from_str("ERROR: division by zero"),
        }
    }
}

/// A text or a failure, as the contracts speak of it.
pub open spec fn text_result(r: Result<String, EvalError>) -> Result<Seq<char>, Failure> {
    match r {
        Ok(text) => Ok(text@),
        Err(e) => Err(e@),
    }
}

} // verus!
