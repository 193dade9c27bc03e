//! What evaluation means: a stack machine, one step per instruction.
//!
//! The machine is the mathematical model that the evaluator is held to. It
//! keeps an operand stack, the blocks that wait for their conditional, the
//! bindings, the lines printed so far, and the failure that stopped it, if
//! one did.

use vstd::prelude::*;
use crate::arith::{division, equal, greater, less, negation, plus, power, product, truth_of_text};
use crate::error::Failure;
use crate::token::{nesting, Instr};

verus! {

/// The state of an evaluation.
pub struct Machine {
    /// The operand stack, the top last. It holds values and names alike.
    pub stack: Seq<Seq<char>>,
    /// The blocks seen and not yet consumed by a conditional, the latest last.
    pub pending: Seq<Seq<Instr>>,
    /// What each bound name is bound to.
    pub bindings: Map<Seq<char>, Seq<char>>,
    /// The lines printed so far, in order.
    pub output: Seq<Seq<char>>,
    /// The failure that stopped the evaluation. A stopped machine stays as
    /// it is.
    pub failure: Option<Failure>,
}

/// Whether a text on the stack counts as a number: its first character is one
/// of `1` to `9`. A text that begins with `0`, with a sign or with nothing at
/// all is taken for a name.
pub open spec fn is_literal(text: Seq<char>) -> bool {
    text.len() > 0 && '1' <= text[0] && text[0] <= '9'
}

/// The value that a text on the stack stands for: the text itself where it
/// counts as a number, else what the name is bound to. An unbound name is a
/// failure.
pub open spec fn resolve(text: Seq<char>, bindings: Map<Seq<char>, Seq<char>>) -> Result<
    Seq<char>,
    Failure,
> {
    if is_literal(text) {
        Ok(text)
    } else if bindings.dom().contains(text) {
        Ok(bindings[text])
    } else {
        Err(Failure::UndefinedVariable(text))
    }
}

/// Takes the top of the stack and resolves it: what is left of the stack, and
/// the value.
pub open spec fn pop_value(stack: Seq<Seq<char>>, bindings: Map<Seq<char>, Seq<char>>) -> Result<
    (Seq<Seq<char>>, Seq<char>),
    Failure,
> {
    if stack.len() == 0 {
        Err(Failure::StackUnderflow)
    } else {
        match resolve(stack.last(), bindings) {
            Ok(value) => Ok((stack.drop_last(), value)),
            Err(f) => Err(f),
        }
    }
}

/// Takes and resolves the top of the stack, then the text under it: what is
/// left of the stack, the first value taken and the second.
pub open spec fn pop_pair(stack: Seq<Seq<char>>, bindings: Map<Seq<char>, Seq<char>>) -> Result<
    (Seq<Seq<char>>, Seq<char>, Seq<char>),
    Failure,
> {
    match pop_value(stack, bindings) {
        Err(f) => Err(f),
        Ok((rest, first)) => match pop_value(rest, bindings) {
            Err(f) => Err(f),
            Ok((rest, second)) => Ok((rest, first, second)),
        },
    }
}

/// Whether an instruction is an operator on two operands.
pub open spec fn is_binary(instr: Instr) -> bool {
    instr is Plus || instr is Mult || instr is Div || instr is Pow || instr is Greater
        || instr is Less || instr is Equal
}

/// What an operator makes of its operands, `first` being the one taken from
/// the stack first, that is the one pushed last. Division divides the second
/// by the first, power raises the second to the first, and a comparison asks
/// how the second stands to the first: each reads its operands in the order in
/// which they were pushed.
pub open spec fn apply(op: Instr, first: Seq<char>, second: Seq<char>) -> Result<
    Seq<char>,
    Failure,
>
    recommends
        is_binary(op),
{
    match op {
        Instr::Plus => plus(first, second),
        Instr::Mult => product(first, second),
        Instr::Div => division(first, second),
        Instr::Pow => power(first, second),
        Instr::Greater => greater(second, first),
        Instr::Less => less(second, first),
        _ => equal(second, first),
    }
}

impl Machine {
    /// The machine before the first instruction: nothing on the stack, no
    /// block waiting, not stopped.
    pub open spec fn start(bindings: Map<Seq<char>, Seq<char>>, output: Seq<Seq<char>>) -> Machine {
        Machine { stack: Seq::empty(), pending: Seq::empty(), bindings, output, failure: None }
    }

    /// This machine, stopped by `f`.
    pub open spec fn fail(self, f: Failure) -> Machine {
        Machine { failure: Some(f), ..self }
    }

    /// This machine with `stack` for its stack.
    pub open spec fn with_stack(self, stack: Seq<Seq<char>>) -> Machine {
        Machine { stack, ..self }
    }

    /// An operator on two operands: both are taken and resolved, and the
    /// result is pushed.
    pub open spec fn binary(self, op: Instr) -> Machine {
        match pop_pair(self.stack, self.bindings) {
            Err(f) => self.fail(f),
            Ok((rest, first, second)) => match apply(op, first, second) {
                Err(f) => self.fail(f),
                Ok(value) => self.with_stack(rest.push(value)),
            },
        }
    }

    /// Negation: one operand is taken and resolved, and its negation is
    /// pushed.
    pub open spec fn negate(self) -> Machine {
        match pop_value(self.stack, self.bindings) {
            Err(f) => self.fail(f),
            Ok((rest, value)) => match negation(value) {
                Err(f) => self.fail(f),
                Ok(negated) => self.with_stack(rest.push(negated)),
            },
        }
    }

    /// Assignment: the value is taken and resolved, then the name under it is
    /// taken as it stands, and the name is bound to the value.
    pub open spec fn assign(self) -> Machine {
        match pop_value(self.stack, self.bindings) {
            Err(f) => self.fail(f),
            Ok((rest, value)) => if rest.len() == 0 {
                self.fail(Failure::StackUnderflow)
            } else {
                Machine {
                    stack: rest.drop_last(),
                    bindings: self.bindings.insert(rest.last(), value),
                    ..self
                }
            },
        }
    }

    /// Printing: the value is taken and resolved, and becomes the next line
    /// of output.
    pub open spec fn print(self) -> Machine {
        match pop_value(self.stack, self.bindings) {
            Err(f) => self.fail(f),
            Ok((rest, value)) => Machine { stack: rest, output: self.output.push(value), ..self },
        }
    }
}

/// What a conditional does once its condition and its body are taken: on
/// `false` nothing; on `true` the body runs as a program of its own, on the
/// bindings and the output as they stand now, and every binding it ends with
/// is written back over the bindings here. A failure inside the body stops
/// this machine too. A condition that is neither is a failure.
pub open spec fn conditional(m: Machine, condition: Seq<char>, body: Seq<Instr>) -> Machine
    decreases nesting(body) + 1, 0nat,
{
    match truth_of_text(condition) {
        None => m.fail(Failure::NonBooleanCondition(condition)),
        Some(false) => m,
        Some(true) => {
            let inner = run(body, Machine::start(m.bindings, m.output));
            Machine {
                bindings: m.bindings.union_prefer_right(inner.bindings),
                output: inner.output,
                failure: inner.failure,
                ..m
            }
        },
    }
}

/// The machine after one instruction. A stopped machine does not move.
///
/// `depth` bounds how deep the body of a conditional may nest for it to run;
/// it makes the definition well founded. [`run`] passes the nesting of its
/// own program, and every block that a program makes wait nests less deep than
/// the program.
pub open spec fn step(m: Machine, instr: Instr, depth: nat) -> Machine
    decreases depth, 1nat,
{
    if m.failure is Some {
        m
    } else {
        match instr {
            Instr::Number(text) => m.with_stack(m.stack.push(text)),
            Instr::Identifier(name) => if m.bindings.dom().contains(name) {
                m.with_stack(m.stack.push(m.bindings[name]))
            } else {
                m.with_stack(m.stack.push(name))
            },
            Instr::Block(body) => Machine { pending: m.pending.push(body), ..m },
            Instr::Minus => m.negate(),
            Instr::Assign => m.assign(),
            Instr::Print => m.print(),
            Instr::If => match pop_value(m.stack, m.bindings) {
                Err(f) => m.fail(f),
                Ok((rest, condition)) => if m.pending.len() == 0 {
                    m.fail(Failure::StackUnderflow)
                } else {
                    let body = m.pending.last();
                    let popped = Machine { stack: rest, pending: m.pending.drop_last(), ..m };
                    if nesting(body) < depth {
                        conditional(popped, condition, body)
                    } else {
                        popped
                    }
                },
            },
            Instr::Invalid(text, row, column) => m.fail(Failure::InvalidToken(text, row, column)),
            Instr::Other(text, row, column) => m.fail(
                Failure::UnsupportedToken(text, row, column),
            ),
            _ => m.binary(instr),
        }
    }
}

/// The machine after a whole program, instruction by instruction from the
/// left.
pub open spec fn run(instrs: Seq<Instr>, start: Machine) -> Machine
    decreases nesting(instrs), instrs.len() + 2,
{
    if instrs.len() == 0 {
        start
    } else {
        step(run(instrs.drop_last(), start), instrs.last(), nesting(instrs))
    }
}

/// A stopped machine stays as it is, whatever follows.
pub proof fn lemma_run_stopped(instrs: Seq<Instr>, n: int, start: Machine)
    requires
        0 <= n <= instrs.len(),
        run(instrs.take(n), start).failure is Some,
    ensures
        run(instrs, start) == run(instrs.take(n), start),
    decreases instrs.len() - n,
{
    if n < instrs.len() {
        let longer = instrs.take(n + 1);
        assert(longer.drop_last() =~= instrs.take(n));
        assert(run(longer, start) == step(
            run(instrs.take(n), start),
            longer.last(),
            nesting(longer),
        ));
        lemma_run_stopped(instrs, n + 1, start);
    } else {
        assert(instrs.take(n) =~= instrs);
    }
}

} // verus!
