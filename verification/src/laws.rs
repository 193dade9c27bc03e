//! What holds of every evaluation.

use vstd::prelude::*;
use vstd::arithmetic::power::pow;
use crate::arith::{
    division, equal, exponent_of, greater, integer_text, less, negation, plus, power, product,
    quotient, truth_of_text, truth_text,
};
use crate::error::Failure;
use crate::eval::{texts, Outcome};
use crate::machine::{is_literal, resolve, run, step, Machine};
use crate::number::{
    all_digits, decimal, digit_char, digit_value, digits_of, digits_value, fits, int_of_text,
    is_digit, lemma_decimal_leading, lemma_decimal_round_trip,
};
use crate::token::{nesting, nesting_of, program, Instr, Token};

verus! {

/// An arithmetic expression, as one would write it with brackets.
pub enum Expr {
    Literal(int),
    Neg(Box<Expr>),
    Add(Box<Expr>, Box<Expr>),
    Mul(Box<Expr>, Box<Expr>),
    Div(Box<Expr>, Box<Expr>),
    Pow(Box<Expr>, Box<Expr>),
}

impl Expr {
    /// The integer that the expression stands for: division rounds towards
    /// zero, and the left operand is divided by the right one and raised to
    /// the right one.
    pub open spec fn value(self) -> int
        decreases self,
    {
        match self {
            Expr::Literal(n) => n,
            Expr::Neg(a) => -a.value(),
            Expr::Add(a, b) => a.value() + b.value(),
            Expr::Mul(a, b) => a.value() * b.value(),
            Expr::Div(a, b) => quotient(a.value(), b.value()),
            Expr::Pow(a, b) => pow(a.value(), b.value() as nat),
        }
    }

    /// The expression in postfix: the operands from left to right, then the
    /// operator. A literal is written in decimal.
    pub open spec fn postfix(self) -> Seq<Instr>
        decreases self,
    {
        match self {
            Expr::Literal(n) => seq![Instr::Number(decimal(n))],
            Expr::Neg(a) => a.postfix().push(Instr::Minus),
            Expr::Add(a, b) => (a.postfix() + b.postfix()).push(Instr::Plus),
            Expr::Mul(a, b) => (a.postfix() + b.postfix()).push(Instr::Mult),
            Expr::Div(a, b) => (a.postfix() + b.postfix()).push(Instr::Div),
            Expr::Pow(a, b) => (a.postfix() + b.postfix()).push(Instr::Pow),
        }
    }

    /// Whether the evaluator can compute the expression: its value and that
    /// of every part is a 32-bit integer, and every literal and every operand
    /// is positive. An operand that is zero or negative is written with a
    /// leading `0` or `-`, and such a text is taken for a name.
    pub open spec fn computable(self) -> bool
        decreases self,
    {
        &&& fits(self.value())
        &&& match self {
            Expr::Literal(n) => n > 0,
            Expr::Neg(a) => a.computable() && a.value() > 0,
            Expr::Add(a, b) => a.computable() && a.value() > 0 && b.computable() && b.value() > 0,
            Expr::Mul(a, b) => a.computable() && a.value() > 0 && b.computable() && b.value() > 0,
            Expr::Div(a, b) => a.computable() && a.value() > 0 && b.computable() && b.value() > 0,
            Expr::Pow(a, b) => a.computable() && a.value() > 0 && b.computable() && b.value() > 0,
        }
    }
}

/// A run of digits that does not begin with `0` is the way its number is
/// written.
proof fn lemma_digits_are_canonical(s: Seq<char>)
    requires
        s.len() > 0,
        all_digits(s),
        s[0] != '0',
    ensures
        digits_value(s) > 0,
        digits_of(digits_value(s) as nat) == s,
    decreases s.len(),
{
    let c = s.last();
    assert(is_digit(c));
    assert(digit_char(digit_value(c)) == c);
    let before = s.drop_last();
    if before.len() == 0 {
        assert(digits_value(before) == 0);
        assert(is_digit(s[0]));
        assert(s =~= seq![c]);
    } else {
        assert(before[0] == s[0]);
        assert forall|i: int| 0 <= i < before.len() implies is_digit(#[trigger] before[i]) by {
            assert(before[i] == s[i]);
        }
        lemma_digits_are_canonical(before);
        let q = digits_value(before);
        let n = 10 * q + digit_value(c);
        assert(n / 10 == q && n % 10 == digit_value(c));
        assert(digits_of(n as nat) == digits_of(q as nat).push(c));
        assert(before.push(c) =~= s);
    }
}

/// A text that counts as a number and is one is written the one way in which
/// its value is written: as a literal, every positive 32-bit integer has one
/// text.
pub proof fn law_literals_are_canonical(text: Seq<char>)
    requires
        is_literal(text),
        int_of_text(text) is Some,
    ensures
        int_of_text(text)->Some_0 > 0,
        text == decimal(int_of_text(text)->Some_0),
{
    lemma_digits_are_canonical(text);
}

/// Whether a program holds no conditional.
pub open spec fn free_of_conditionals(instrs: Seq<Instr>) -> bool {
    forall|i: int| 0 <= i < instrs.len() ==> !((#[trigger] instrs[i]) is If)
}

/// Running two programs one after the other is running the first, then the
/// second from where the first ended, where the second holds no conditional.
pub proof fn lemma_run_concat(first: Seq<Instr>, second: Seq<Instr>, start: Machine)
    requires
        free_of_conditionals(second),
    ensures
        run(first + second, start) == run(second, run(first, start)),
    decreases second.len(),
{
    let whole = first + second;
    if second.len() == 0 {
        assert(whole =~= first);
    } else {
        assert(whole.drop_last() =~= first + second.drop_last());
        assert(whole.last() == second.last());
        assert(!(second[second.len() - 1] is If));
        assert forall|i: int| 0 <= i < second.drop_last().len() implies !((
        #[trigger] second.drop_last()[i]) is If) by {
            assert(second.drop_last()[i] == second[i]);
        }
        lemma_run_concat(first, second.drop_last(), start);
        let before = run(second.drop_last(), run(first, start));
        assert(run(whole, start) == step(before, whole.last(), nesting(whole)));
        assert(run(second, run(first, start)) == step(before, second.last(), nesting(second)));
    }
}

/// The postfix form of an expression holds no conditional.
pub proof fn lemma_postfix_free_of_conditionals(e: Expr)
    ensures
        free_of_conditionals(e.postfix()),
    decreases e,
{
    match e {
        Expr::Literal(n) => {},
        Expr::Neg(a) => {
            lemma_postfix_free_of_conditionals(*a);
        },
        Expr::Add(a, b) => {
            lemma_postfix_free_of_conditionals(*a);
            lemma_postfix_free_of_conditionals(*b);
        },
        Expr::Mul(a, b) => {
            lemma_postfix_free_of_conditionals(*a);
            lemma_postfix_free_of_conditionals(*b);
        },
        Expr::Div(a, b) => {
            lemma_postfix_free_of_conditionals(*a);
            lemma_postfix_free_of_conditionals(*b);
        },
        Expr::Pow(a, b) => {
            lemma_postfix_free_of_conditionals(*a);
            lemma_postfix_free_of_conditionals(*b);
        },
    }
}

/// The machine after the two operands of an operator: both values on top of
/// the stack, the left one under the right one.
proof fn lemma_operands_pushed(a: Expr, b: Expr, m: Machine)
    requires
        a.computable(),
        b.computable(),
        m.failure is None,
        run(a.postfix(), m) == m.with_stack(m.stack.push(decimal(a.value()))),
        forall|n: Machine|
            n.failure is None ==> #[trigger] run(b.postfix(), n) == n.with_stack(
                n.stack.push(decimal(b.value())),
            ),
    ensures
        run(a.postfix() + b.postfix(), m) == m.with_stack(
            m.stack.push(decimal(a.value())).push(decimal(b.value())),
        ),
{
    lemma_postfix_free_of_conditionals(b);
    lemma_run_concat(a.postfix(), b.postfix(), m);
}

/// A positive 32-bit integer, written in decimal, resolves to itself and
/// reads back as itself.
proof fn lemma_operand_text(v: int, bindings: Map<Seq<char>, Seq<char>>)
    requires
        fits(v),
        v > 0,
    ensures
        resolve(decimal(v), bindings) == Ok::<Seq<char>, Failure>(decimal(v)),
        int_of_text(decimal(v)) == Some(v),
{
    lemma_decimal_leading(v);
    lemma_decimal_round_trip(v);
}

/// The value of a computable expression is a 32-bit integer.
proof fn lemma_computable_fits(e: Expr)
    requires
        e.computable(),
    ensures
        fits(e.value()),
{
}

/// Negation on a machine whose top is the decimal text of a positive integer.
proof fn lemma_negation_step(m: Machine, v: int, depth: nat)
    requires
        m.failure is None,
        fits(v),
        v > 0,
    ensures
        step(m.with_stack(m.stack.push(decimal(v))), Instr::Minus, depth) == m.with_stack(
            m.stack.push(decimal(-v)),
        ),
{
    lemma_operand_text(v, m.bindings);
    let pushed = m.stack.push(decimal(v));
    assert(pushed.drop_last() =~= m.stack);
}

/// What an arithmetic operator makes of a left and a right operand.
spec fn arithmetic(op: Instr, left: int, right: int) -> int {
    match op {
        Instr::Plus => left + right,
        Instr::Mult => left * right,
        Instr::Div => quotient(left, right),
        _ => pow(left, right as nat),
    }
}

/// An arithmetic operator on a machine whose top two texts are the decimal
/// texts of two positive integers, the left operand under the right one.
proof fn lemma_arithmetic_step(m: Machine, op: Instr, left: int, right: int, depth: nat)
    requires
        m.failure is None,
        op is Plus || op is Mult || op is Div || op is Pow,
        fits(left),
        left > 0,
        fits(right),
        right > 0,
        fits(arithmetic(op, left, right)),
    ensures
        step(
            m.with_stack(m.stack.push(decimal(left)).push(decimal(right))),
            op,
            depth,
        ) == m.with_stack(m.stack.push(decimal(arithmetic(op, left, right)))),
{
    lemma_operand_text(left, m.bindings);
    lemma_operand_text(right, m.bindings);
    let under = m.stack.push(decimal(left));
    let pushed = under.push(decimal(right));
    assert(pushed.drop_last() =~= under);
    assert(under.drop_last() =~= m.stack);
    assert(right * left == left * right) by (nonlinear_arith);
}

/// Postfix arithmetic computes what the expression stands for: running the
/// postfix form of a computable expression pushes the decimal text of its
/// value and changes nothing else, whatever the machine held before.
pub proof fn law_postfix_arithmetic(e: Expr, m: Machine)
    requires
        e.computable(),
        m.failure is None,
    ensures
        run(e.postfix(), m) == m.with_stack(m.stack.push(decimal(e.value()))),
    decreases e,
{
    let program = e.postfix();
    let before = run(program.drop_last(), m);
    assert(run(program, m) == step(before, program.last(), nesting(program)));
    match e {
        Expr::Literal(n) => {
            assert(program.drop_last() =~= Seq::<Instr>::empty());
        },
        Expr::Neg(a) => {
            law_postfix_arithmetic(*a, m);
            lemma_computable_fits(*a);
            assert(program.drop_last() =~= a.postfix());
            lemma_negation_step(m, a.value(), nesting(program));
        },
        Expr::Add(a, b) | Expr::Mul(a, b) | Expr::Div(a, b) | Expr::Pow(a, b) => {
            law_postfix_arithmetic(*a, m);
            assert forall|n: Machine| n.failure is None implies #[trigger] run(b.postfix(), n)
                == n.with_stack(n.stack.push(decimal(b.value()))) by {
                law_postfix_arithmetic(*b, n);
            }
            lemma_operands_pushed(*a, *b, m);
            lemma_computable_fits(*a);
            lemma_computable_fits(*b);
            assert(program.drop_last() =~= a.postfix() + b.postfix());
            lemma_arithmetic_step(m, program.last(), a.value(), b.value(), nesting(program));
        },
    }
}

/// Printing what postfix arithmetic computed prints its value: where the
/// value of a computable expression is positive, its postfix form followed by
/// a print adds the decimal text of the value to the output and changes
/// nothing else.
pub proof fn law_postfix_arithmetic_prints(e: Expr, m: Machine)
    requires
        e.computable(),
        e.value() > 0,
        m.failure is None,
    ensures
        run(e.postfix().push(Instr::Print), m) == (Machine {
            output: m.output.push(decimal(e.value())),
            ..m
        }),
{
    let program = e.postfix().push(Instr::Print);
    law_postfix_arithmetic(e, m);
    lemma_computable_fits(e);
    lemma_operand_text(e.value(), m.bindings);
    assert(program.drop_last() =~= e.postfix());
    assert(run(program, m) == step(run(e.postfix(), m), Instr::Print, nesting(program)));
    assert(m.stack.push(decimal(e.value())).drop_last() =~= m.stack);
}

/// Evaluation is a function of the program and the bindings it starts from:
/// two outcomes of the same evaluation print the same lines and end alike, in
/// the same failure or with the same bindings.
pub proof fn law_evaluation_is_deterministic(
    tokens: Seq<Token>,
    bindings: Map<Seq<char>, Seq<char>>,
    first: Outcome,
    second: Outcome,
)
    requires
        first.is_end_of(run(program(tokens), Machine::start(bindings, Seq::empty()))),
        second.is_end_of(run(program(tokens), Machine::start(bindings, Seq::empty()))),
    ensures
        texts(first.output@) == texts(second.output@),
        first.result is Ok <==> second.result is Ok,
        first.result is Ok ==> first.result->Ok_0@ == second.result->Ok_0@,
        first.result is Err ==> first.result->Err_0@ == second.result->Err_0@,
{
}

/// A conditional whose condition resolves to `false` takes its condition and
/// its block and changes nothing else: not the bindings, not the output.
pub proof fn law_false_condition_changes_nothing(m: Machine, depth: nat)
    requires
        m.failure is None,
        m.stack.len() > 0,
        m.pending.len() > 0,
        resolve(m.stack.last(), m.bindings) == Ok::<Seq<char>, Failure>(truth_text(false)),
    ensures
        step(m, Instr::If, depth) == (Machine {
            stack: m.stack.drop_last(),
            pending: m.pending.drop_last(),
            ..m
        }),
{
    assert(truth_text(false) != truth_text(true)) by {
        assert(truth_text(false).len() != truth_text(true).len());
    }
}

/// A conditional whose condition resolves to `true` runs its block on the
/// bindings and the output as they stand, and writes every binding that the
/// block ends with over the bindings here.
pub proof fn law_true_condition_merges(m: Machine, depth: nat)
    requires
        m.failure is None,
        m.stack.len() > 0,
        m.pending.len() > 0,
        resolve(m.stack.last(), m.bindings) == Ok::<Seq<char>, Failure>(truth_text(true)),
        nesting(m.pending.last()) < depth,
    ensures
        ({
            let inner = run(m.pending.last(), Machine::start(m.bindings, m.output));
            let after = step(m, Instr::If, depth);
            &&& after.failure == inner.failure
            &&& after.output == inner.output
            &&& after.bindings == m.bindings.union_prefer_right(inner.bindings)
            &&& forall|name: Seq<char>| #[trigger]
                inner.bindings.dom().contains(name) ==> after.bindings.dom().contains(name)
                    && after.bindings[name] == inner.bindings[name]
            &&& forall|name: Seq<char>|
                m.bindings.dom().contains(name) && !inner.bindings.dom().contains(name)
                    ==> after.bindings.dom().contains(name) && #[trigger] after.bindings[name]
                    == m.bindings[name]
        }),
{
}

/// A name that is bound to nothing is never printed as if it were a value:
/// pushing it and printing stops the machine, and prints nothing.
pub proof fn law_unbound_name_is_not_printed(m: Machine, name: Seq<char>, depth: nat)
    requires
        m.failure is None,
        !is_literal(name),
        !m.bindings.dom().contains(name),
    ensures
        ({
            let after = step(step(m, Instr::Identifier(name), depth), Instr::Print, depth);
            &&& after.failure == Some(Failure::UndefinedVariable(name))
            &&& after.output == m.output
        }),
{
    let pushed = step(m, Instr::Identifier(name), depth);
    assert(pushed.stack.last() == name);
}

/// Assigning a number to an unbound name binds it, and the name then stands
/// for the number: pushed again and printed, it prints the number.
pub proof fn law_assignment_binds(m: Machine, name: Seq<char>, number: Seq<char>, depth: nat)
    requires
        m.failure is None,
        !m.bindings.dom().contains(name),
        is_literal(number),
    ensures
        ({
            let bound = step(
                step(step(m, Instr::Identifier(name), depth), Instr::Number(number), depth),
                Instr::Assign,
                depth,
            );
            let printed = step(step(bound, Instr::Identifier(name), depth), Instr::Print, depth);
            &&& bound == (Machine { bindings: m.bindings.insert(name, number), ..m })
            &&& printed == (Machine { output: m.output.push(number), ..bound })
        }),
{
    let named = step(m, Instr::Identifier(name), depth);
    let valued = step(named, Instr::Number(number), depth);
    let bound = step(valued, Instr::Assign, depth);
    assert(valued.stack.last() == number);
    assert(valued.stack.drop_last() =~= named.stack);
    assert(named.stack.last() == name);
    assert(named.stack.drop_last() =~= m.stack);
    assert(bound.stack =~= m.stack);
    let again = step(bound, Instr::Identifier(name), depth);
    assert(again.stack.last() == number);
    assert(again.stack.drop_last() =~= m.stack);
}

/// Every block that a program makes wait nests less deep than the program:
/// no conditional of a program that starts with no block waiting is ever
/// held back by the bound on nesting.
pub proof fn law_waiting_blocks_nest_less(instrs: Seq<Instr>, start: Machine, bound: nat)
    requires
        nesting(instrs) <= bound,
        forall|k: int| 0 <= k < start.pending.len() ==> nesting(#[trigger] start.pending[k]) < bound,
    ensures
        forall|k: int|
            0 <= k < run(instrs, start).pending.len() ==> nesting(
                #[trigger] run(instrs, start).pending[k],
            ) < bound,
    decreases instrs.len(),
{
    if instrs.len() > 0 {
        let before = run(instrs.drop_last(), start);
        let last = instrs.last();
        law_waiting_blocks_nest_less(instrs.drop_last(), start, bound);
        let after = step(before, last, nesting(instrs));
        assert(run(instrs, start) == after);
        assert(nesting_of(last) <= nesting(instrs));
            assert forall|k: int| 0 <= k < after.pending.len() implies nesting(
            #[trigger] after.pending[k],
        ) < bound by {
            if before.failure is None {
                match last {
                    Instr::Block(body) => {
                        if k < before.pending.len() {
                            assert(after.pending[k] == before.pending[k]);
                        }
                    },
                    Instr::If => {
                        if after.pending.len() < before.pending.len() {
                            assert(after.pending[k] == before.pending[k]);
                        }
                    },
                    _ => {},
                }
            }
        }
    }
}

/// An integer result, once written, reads back as an integer.
proof fn lemma_integer_text_reads_back(v: int)
    ensures
        integer_text(v) is Ok ==> int_of_text(integer_text(v)->Ok_0) == Some(v),
{
    if fits(v) {
        lemma_decimal_round_trip(v);
    }
}

/// What an arithmetic operator writes is the decimal text of a 32-bit
/// integer: the next operator can read it.
pub proof fn law_arithmetic_writes_integers(x: Seq<char>, y: Seq<char>)
    ensures
        plus(x, y) is Ok ==> int_of_text(plus(x, y)->Ok_0) is Some,
        negation(x) is Ok ==> int_of_text(negation(x)->Ok_0) is Some,
        product(x, y) is Ok ==> int_of_text(product(x, y)->Ok_0) is Some,
        division(x, y) is Ok ==> int_of_text(division(x, y)->Ok_0) is Some,
        power(x, y) is Ok ==> int_of_text(power(x, y)->Ok_0) is Some,
{
    match (int_of_text(x), int_of_text(y)) {
        (Some(a), Some(b)) => {
            lemma_integer_text_reads_back(a + b);
            lemma_integer_text_reads_back(a * b);
            lemma_integer_text_reads_back(quotient(b, a));
            lemma_integer_text_reads_back(pow(b, exponent_of(a)));
        },
        _ => {},
    }
    match int_of_text(x) {
        Some(a) => {
            lemma_integer_text_reads_back(-a);
        },
        None => {},
    }
}

/// What a comparison writes is `true` or `false`, never a number.
pub proof fn law_comparison_writes_truth(x: Seq<char>, y: Seq<char>)
    ensures
        greater(x, y) is Ok ==> truth_of_text(greater(x, y)->Ok_0) is Some,
        less(x, y) is Ok ==> truth_of_text(less(x, y)->Ok_0) is Some,
        equal(x, y) is Ok ==> truth_of_text(equal(x, y)->Ok_0) is Some,
        greater(x, y) is Ok ==> int_of_text(greater(x, y)->Ok_0) is None,
        less(x, y) is Ok ==> int_of_text(less(x, y)->Ok_0) is None,
        equal(x, y) is Ok ==> int_of_text(equal(x, y)->Ok_0) is None,
{
    assert(truth_text(true)[0] == 't');
    assert(truth_text(false)[0] == 'f');
}

} // verus!
