//! An evaluator for a small postfix expression language.
//!
//! A program is a sequence of tokens: numbers, names, arithmetic and
//! comparison operators, assignment, a conditional block and a print
//! statement. Evaluation walks the tokens once, left to right, over an operand
//! stack and a table of variable bindings. Every value is text: an operator
//! reads its operands as decimal integers and writes its result back as text.

pub mod arith;
pub mod bindings;
pub mod error;
pub mod eval;
pub mod laws;
pub mod machine;
pub mod number;
pub mod token;
