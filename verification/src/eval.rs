//! The evaluator: it walks a program once, from the left, and is held to the
//! machine step by step.

use vstd::prelude::*;
use crate::arith::{
    op_div, op_equal, op_greater, op_less, op_minus, op_mult, op_plus, op_pow, parse_truth,
    truth_of_text,
};
use crate::bindings::Bindings;
use crate::error::{text_result, EvalError, Failure};
use crate::machine::{
    is_binary, lemma_run_stopped, pop_value, resolve, run, step, Machine,
};
use crate::token::{
    lemma_nesting_bounds, lemma_program_index, nesting, nesting_of, program, Instr, Token,
};

verus! {

/// What each string of a list says.
pub open spec fn texts(strings: Seq<String>) -> Seq<Seq<char>> {
    strings.map_values(|s: String| s@)
}

/// How an evaluation ended.
#[derive(Debug)]
pub struct Outcome {
    /// The lines printed, in order. Where the evaluation failed, these are
    /// the lines printed before it did.
    pub output: Vec<String>,
    /// The bindings at the end, or the failure that stopped the evaluation.
    pub result: Result<Bindings, EvalError>,
}

impl Outcome {
    /// Whether this is how the machine `m` ended: the same lines, and the
    /// same failure or else the same bindings.
    pub open spec fn is_end_of(&self, m: Machine) -> bool {
        &&& texts(self.output@) == m.output
        &&& match m.failure {
            Some(f) => self.result is Err && self.result->Err_0@ == f,
            None => self.result is Ok && self.result->Ok_0.wf() && self.result->Ok_0@
                == m.bindings,
        }
    }
}

/// Resolves a text taken from the stack: a text that begins with one of `1`
/// to `9` is a number and stands for itself; any other is a name and stands
/// for what is bound to it.
pub fn variable(input: String, memory: &Bindings) -> (r: Result<String, EvalError>)
    requires
        memory.wf(),
    ensures
        text_result(r) == resolve(input@, memory@),
{
    let n: usize = input.as_str().unicode_len();
    if n > 0 {
        let c = input.as_str().get_char(0);
        if c >= '1' && c <= '9' {
            return Ok(input);
        }
    }
    match memory.get(&input) {
        Some(value) => Ok(value.clone()),
        None => Err(EvalError::UndefinedVariable(input)),
    }
}

/// The evaluator's own state while no failure has stopped it.
struct State<'a> {
    stack: Vec<String>,
    pending: Vec<&'a Vec<Token>>,
    bindings: Bindings,
    output: Vec<String>,
}

/// A stopped evaluation: what it had printed, and why it stopped.
struct Halted {
    output: Vec<String>,
    error: EvalError,
}

impl<'a> State<'a> {
    spec fn wf(&self) -> bool {
        self.bindings.wf()
    }

    /// The machine that this state stands for.
    spec fn model(&self) -> Machine {
        Machine {
            stack: texts(self.stack@),
            pending: self.pending@.map_values(|body: &Vec<Token>| program(body@)),
            bindings: self.bindings@,
            output: texts(self.output@),
            failure: None,
        }
    }

    /// Whether every waiting block nests less deep than `depth`.
    spec fn within(&self, depth: nat) -> bool {
        forall|k: int|
            0 <= k < self.pending@.len() ==> nesting(program((#[trigger] self.pending@[k])@))
                < depth
    }
}

/// Whether `r` is the machine `next`: the state that stands for it, or, where
/// it is stopped, its output and its failure.
spec fn follows<'a>(r: Result<State<'a>, Halted>, next: Machine) -> bool {
    match r {
        Ok(state) => state.wf() && state.model() == next,
        Err(halted) => next.failure == Some(halted.error@) && texts(halted.output@) == next.output,
    }
}

/// Takes the top of the stack and resolves it.
fn take_value(stack: &mut Vec<String>, bindings: &Bindings) -> (r: Result<String, EvalError>)
    requires
        bindings.wf(),
    ensures
        match pop_value(texts(old(stack)@), bindings@) {
            Ok((rest, value)) => r is Ok && r->Ok_0@ == value && texts(final(stack)@) == rest,
            Err(f) => r is Err && r->Err_0@ == f,
        },
{
    let ghost before = stack@;
    match stack.pop() {
        None => Err(EvalError::StackUnderflow),
        Some(top) => {
            assert(texts(stack@) =~= texts(before).drop_last());
            assert(texts(before).last() == top@);
            variable(top, bindings)
        },
    }
}

/// Pushes a text on the stack.
fn push_value(stack: &mut Vec<String>, value: String)
    ensures
        texts(final(stack)@) == texts(old(stack)@).push(value@),
{
    stack.push(value);
    assert(texts(stack@) =~= texts(old(stack)@).push(value@));
}

/// Runs an operator on two operands.
fn binary<'a>(state: State<'a>, token: &Token) -> (r: Result<State<'a>, Halted>)
    requires
        state.wf(),
        is_binary(token@),
    ensures
        follows(r, state.model().binary(token@)),
        r is Ok ==> r->Ok_0.pending == state.pending,
{
    let State { mut stack, pending, bindings, output } = state;
    let first = match take_value(&mut stack, &bindings) {
        Ok(value) => value,
        Err(error) => {
            return Err(Halted { output, error });
        },
    };
    let second = match take_value(&mut stack, &bindings) {
        Ok(value) => value,
        Err(error) => {
            return Err(Halted { output, error });
        },
    };
    let result = match token {
        Token::Plus(_, _) => op_plus(first, second),
        Token::Mult(_, _) => op_mult(first, second),
        Token::Div(_, _) => op_div(first, second),
        Token::Pow(_, _) => op_pow(first, second),
        Token::Greater(_, _) => op_greater(second, first),
        Token::Less(_, _) => op_less(second, first),
        _ => op_equal(second, first),
    };
    match result {
        Ok(value) => {
            push_value(&mut stack, value);
            Ok(State { stack, pending, bindings, output })
        },
        Err(error) => Err(Halted { output, error }),
    }
}

/// Decides a conditional: on `true` the block runs on a copy of the bindings,
/// and the bindings it ends with come back; on `false` nothing runs. The
/// output is handed through.
pub fn op_if(value: String, block: &Vec<Token>, bindings: &Bindings, output: Vec<String>) -> (r: (
    Vec<String>,
    Result<Option<Bindings>, EvalError>,
))
    requires
        bindings.wf(),
    ensures
        match truth_of_text(value@) {
            None => r.0 == output && r.1 is Err && r.1->Err_0@ == Failure::NonBooleanCondition(
                value@,
            ),
            Some(false) => r.0 == output && r.1 is Ok && r.1->Ok_0 is None,
            Some(true) => {
                let inner = run(program(block@), Machine::start(bindings@, texts(output@)));
                &&& texts(r.0@) == inner.output
                &&& match inner.failure {
                    Some(f) => r.1 is Err && r.1->Err_0@ == f,
                    None => r.1 is Ok && r.1->Ok_0 is Some && r.1->Ok_0->Some_0.wf()
                        && r.1->Ok_0->Some_0@ == inner.bindings,
                }
            },
        },
    decreases nesting(program(block@)) + 1, 0nat,
{
    match parse_truth(&value) {
        None => (output, Err(EvalError::NonBooleanCondition(value))),
        Some(false) => (output, Ok(None)),
        Some(true) => {
            let ended = run_tokens(block, bindings.duplicate(), output);
            match ended.result {
                Ok(inner) => (ended.output, Ok(Some(inner))),
                Err(error) => (ended.output, Err(error)),
            }
        },
    }
}

/// Runs one token.
fn run_token<'a>(state: State<'a>, token: &'a Token, Ghost(depth): Ghost<nat>) -> (r: Result<
    State<'a>,
    Halted,
>)
    requires
        state.wf(),
        state.within(depth),
        nesting_of(token@) <= depth,
    ensures
        follows(r, step(state.model(), token@, depth)),
        r is Ok ==> r->Ok_0.within(depth),
    decreases depth, 1nat,
{
    match token {
        Token::Number(text, _, _) => {
            let State { mut stack, pending, bindings, output } = state;
            push_value(&mut stack, text.clone());
            Ok(State { stack, pending, bindings, output })
        },
        Token::Identifier(name, _, _) => {
            let State { mut stack, pending, bindings, output } = state;
            let value = match bindings.get(name) {
                Some(bound) => bound.clone(),
                None => name.clone(),
            };
            push_value(&mut stack, value);
            Ok(State { stack, pending, bindings, output })
        },
        Token::Block(body, _, _) => {
            let State { stack, mut pending, bindings, output } = state;
            let ghost before = pending@;
            pending.push(body);
            proof {
                let model = |b: &Vec<Token>| program(b@);
                assert(pending@.map_values(model) =~= before.map_values(model).push(
                    program(body@),
                ));
                assert forall|k: int| 0 <= k < pending@.len() implies nesting(
                    program((#[trigger] pending@[k])@),
                ) < depth by {
                    if k < before.len() {
                        assert(pending@[k] == before[k]);
                    }
                }
            }
            Ok(State { stack, pending, bindings, output })
        },
        Token::Minus(_, _) => {
            let State { mut stack, pending, bindings, output } = state;
            let value = match take_value(&mut stack, &bindings) {
                Ok(value) => value,
                Err(error) => {
                    return Err(Halted { output, error });
                },
            };
            match op_minus(value) {
                Ok(negated) => {
                    push_value(&mut stack, negated);
                    Ok(State { stack, pending, bindings, output })
                },
                Err(error) => Err(Halted { output, error }),
            }
        },
        Token::Assign(_, _) => {
            let State { mut stack, pending, mut bindings, output } = state;
            let value = match take_value(&mut stack, &bindings) {
                Ok(value) => value,
                Err(error) => {
                    return Err(Halted { output, error });
                },
            };
            let ghost rest = stack@;
            match stack.pop() {
                None => Err(Halted { output, error: EvalError::StackUnderflow }),
                Some(name) => {
                    proof {
                        assert(texts(stack@) =~= texts(rest).drop_last());
                        assert(texts(rest).last() == name@);
                    }
                    bindings.insert(name, value);
                    Ok(State { stack, pending, bindings, output })
                },
            }
        },
        Token::Print(_, _) => {
            let State { mut stack, pending, bindings, mut output } = state;
            let value = match take_value(&mut stack, &bindings) {
                Ok(value) => value,
                Err(error) => {
                    return Err(Halted { output, error });
                },
            };
            push_value(&mut output, value);
            Ok(State { stack, pending, bindings, output })
        },
        Token::If(_, _) => {
            let State { mut stack, mut pending, mut bindings, output } = state;
            let condition = match take_value(&mut stack, &bindings) {
                Ok(value) => value,
                Err(error) => {
                    return Err(Halted { output, error });
                },
            };
            let ghost waiting = pending@;
            let body = match pending.pop() {
                Some(body) => body,
                None => {
                    return Err(Halted { output, error: EvalError::StackUnderflow });
                },
            };
            proof {
                let model = |b: &Vec<Token>| program(b@);
                assert(pending@.map_values(model) =~= waiting.map_values(model).drop_last());
                assert(waiting.map_values(model).last() == program(body@));
                assert(body == waiting[waiting.len() - 1]);
                assert forall|k: int| 0 <= k < pending@.len() implies nesting(
                    program((#[trigger] pending@[k])@),
                ) < depth by {
                    assert(pending@[k] == waiting[k]);
                }
            }
            let (output, result) = op_if(condition, body, &bindings, output);
            match result {
                Err(error) => Err(Halted { output, error }),
                Ok(None) => Ok(State { stack, pending, bindings, output }),
                Ok(Some(inner)) => {
                    bindings.merge(&inner);
                    Ok(State { stack, pending, bindings, output })
                },
            }
        },
        Token::Invalid(text, row, column) => Err(
            Halted {
                output: state.output,
                error: EvalError::InvalidToken(text.clone(), *row, *column),
            },
        ),
        Token::Other(text, row, column) => Err(
            Halted {
                output: state.output,
                error: EvalError::UnsupportedToken(text.clone(), *row, *column),
            },
        ),
        _ => binary(state, token),
    }
}

/// Runs a program on `bindings`, after `output` was printed.
fn run_tokens(tokens: &Vec<Token>, bindings: Bindings, output: Vec<String>) -> (r: Outcome)
    requires
        bindings.wf(),
    ensures
        r.is_end_of(run(program(tokens@), Machine::start(bindings@, texts(output@)))),
    decreases nesting(program(tokens@)), 2nat,
{
    let ghost start = Machine::start(bindings@, texts(output@));
    let ghost instrs = program(tokens@);
    let mut state = State { stack: Vec::new(), pending: Vec::new(), bindings, output };
    let mut i: usize = 0;
    proof {
        lemma_program_index(tokens@);
        lemma_nesting_bounds(instrs);
        assert(instrs.take(0) =~= Seq::<Instr>::empty());
        assert(state.model().stack =~= start.stack);
        assert(state.model().pending =~= start.pending);
    }
    while i < tokens.len()
        invariant
            i <= tokens@.len(),
            instrs == program(tokens@),
            start == Machine::start(bindings@, texts(output@)),
            instrs.len() == tokens@.len(),
            forall|k: int| 0 <= k < tokens@.len() ==> (#[trigger] instrs[k]) == tokens@[k]@,
            forall|k: int|
                0 <= k < instrs.len() ==> nesting_of(#[trigger] instrs[k]) <= nesting(instrs),
            forall|n: int|
                0 <= n <= instrs.len() ==> nesting(#[trigger] instrs.take(n)) <= nesting(instrs),
            state.wf(),
            state.within(nesting(instrs.take(i as int))),
            state.model() == run(instrs.take(i as int), start),
        decreases tokens@.len() - i,
    {
        let ghost longer = instrs.take(i + 1);
        proof {
            assert(longer.drop_last() =~= instrs.take(i as int));
            assert(longer.last() == tokens@[i as int]@);
            lemma_nesting_bounds(longer);
            assert(nesting_of(longer[i as int]) <= nesting(longer));
            assert(longer.take(i as int) =~= instrs.take(i as int));
            assert(nesting(longer.take(i as int)) <= nesting(longer));
        }
        match run_token(state, &tokens[i], Ghost(nesting(longer))) {
            Ok(next) => {
                state = next;
            },
            Err(halted) => {
                proof {
                    lemma_run_stopped(instrs, i + 1, start);
                }
                return Outcome { output: halted.output, result: Err(halted.error) };
            },
        }
        i = i + 1;
    }
    proof {
        assert(instrs.take(i as int) =~= instrs);
    }
    Outcome { output: state.output, result: Ok(state.bindings) }
}

/// Evaluates a program on the bindings given. The outcome is that of the
/// machine run on what the tokens say, from an empty stack and with nothing
/// printed.
pub fn evaluate(tokens: &Vec<Token>, bindings: Bindings) -> (r: Outcome)
    requires
        bindings.wf(),
    ensures
        r.is_end_of(run(program(tokens@), Machine::start(bindings@, Seq::empty()))),
{
    let output: Vec<String> = Vec::new();
    assert(texts(output@) =~= Seq::<Seq<char>>::empty());
    run_tokens(tokens, bindings, output)
}

/// Evaluates a program from an empty table of bindings.
pub fn simulate_program(input: Vec<Token>) -> (r: Outcome)
    ensures
        r.is_end_of(run(program(input@), Machine::start(Map::empty(), Seq::empty()))),
{
    evaluate(&input, Bindings::new())
}

} // verus!
