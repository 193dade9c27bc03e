//! The arithmetic and comparison operators, from text to text.
//!
//! Each operator reads its operands as 32-bit signed decimal integers and
//! writes its result as text. An operand that is no such integer, a result
//! that is none, and a division by zero are failures.

use vstd::prelude::*;
use vstd::arithmetic::power::pow;
use crate::error::{text_result, EvalError, Failure};
use crate::number::{decimal, fits, int_of_text, parse_int, render_int};

verus! {

/// The text of an integer result, or the failure when it is no 32-bit integer.
pub open spec fn integer_text(v: int) -> Result<Seq<char>, Failure> {
    if fits(v) {
        Ok(decimal(v))
    } else {
        Err(Failure::Overflow)
    }
}

/// The text of a truth value: `true` or `false`.
pub open spec fn truth_text(b: bool) -> Seq<char> {
    if b {
        seq!['t', 'r', 'u', 'e']
    } else {
        seq!['f', 'a', 'l', 's', 'e']
    }
}

/// The truth value that a text stands for, if it is `true` or `false`.
pub open spec fn truth_of_text(s: Seq<char>) -> Option<bool> {
    if s == truth_text(true) {
        Some(true)
    } else if s == truth_text(false) {
        Some(false)
    } else {
        None
    }
}

/// The quotient of `a` by `b`, rounded towards zero.
pub open spec fn quotient(a: int, b: int) -> int
    recommends
        b != 0,
{
    if a >= 0 && b > 0 {
        a / b
    } else if a >= 0 {
        -(a / (-b))
    } else if b > 0 {
        -((-a) / b)
    } else {
        (-a) / (-b)
    }
}

/// The exponent that `e` stands for. An exponent is an unsigned 32-bit
/// number: a negative `e` stands for the unsigned number with the same bits.
pub open spec fn exponent_of(e: int) -> nat {
    if e >= 0 {
        e as nat
    } else {
        (e + 0x1_0000_0000) as nat
    }
}

/// The sum of `x` and `y`. `x` is read first.
pub open spec fn plus(x: Seq<char>, y: Seq<char>) -> Result<Seq<char>, Failure> {
    match int_of_text(x) {
        None => Err(Failure::MalformedNumber(x)),
        Some(a) => match int_of_text(y) {
            None => Err(Failure::MalformedNumber(y)),
            Some(b) => integer_text(a + b),
        },
    }
}

/// The negation of `x`.
pub open spec fn negation(x: Seq<char>) -> Result<Seq<char>, Failure> {
    match int_of_text(x) {
        None => Err(Failure::MalformedNumber(x)),
        Some(a) => integer_text(-a),
    }
}

/// The product of `x` and `y`. `x` is read first.
pub open spec fn product(x: Seq<char>, y: Seq<char>) -> Result<Seq<char>, Failure> {
    match int_of_text(x) {
        None => Err(Failure::MalformedNumber(x)),
        Some(a) => match int_of_text(y) {
            None => Err(Failure::MalformedNumber(y)),
            Some(b) => integer_text(a * b),
        },
    }
}

/// `dividend` divided by `divisor`, rounded towards zero. The dividend is
/// read first.
pub open spec fn division(divisor: Seq<char>, dividend: Seq<char>) -> Result<Seq<char>, Failure> {
    match int_of_text(dividend) {
        None => Err(Failure::MalformedNumber(dividend)),
        Some(b) => match int_of_text(divisor) {
            None => Err(Failure::MalformedNumber(divisor)),
            Some(a) => if a == 0 {
                Err(Failure::DivisionByZero)
            } else {
                integer_text(quotient(b, a))
            },
        },
    }
}

/// `base` raised to `exponent`. The exponent is read first.
pub open spec fn power(exponent: Seq<char>, base: Seq<char>) -> Result<Seq<char>, Failure> {
    match int_of_text(exponent) {
        None => Err(Failure::MalformedNumber(exponent)),
        Some(e) => match int_of_text(base) {
            None => Err(Failure::MalformedNumber(base)),
            Some(b) => integer_text(pow(b, exponent_of(e))),
        },
    }
}

/// Whether `x` is greater than `y`, as text. `x` is read first.
pub open spec fn greater(x: Seq<char>, y: Seq<char>) -> Result<Seq<char>, Failure> {
    match int_of_text(x) {
        None => Err(Failure::MalformedNumber(x)),
        Some(a) => match int_of_text(y) {
            None => Err(Failure::MalformedNumber(y)),
            Some(b) => Ok(truth_text(a > b)),
        },
    }
}

/// Whether `x` is less than `y`, as text. `x` is read first.
pub open spec fn less(x: Seq<char>, y: Seq<char>) -> Result<Seq<char>, Failure> {
    match int_of_text(x) {
        None => Err(Failure::MalformedNumber(x)),
        Some(a) => match int_of_text(y) {
            None => Err(Failure::MalformedNumber(y)),
            Some(b) => Ok(truth_text(a < b)),
        },
    }
}

/// Whether `x` equals `y` as integers, as text. `x` is read first.
pub open spec fn equal(x: Seq<char>, y: Seq<char>) -> Result<Seq<char>, Failure> {
    match int_of_text(x) {
        None => Err(Failure::MalformedNumber(x)),
        Some(a) => match int_of_text(y) {
            None => Err(Failure::MalformedNumber(y)),
            Some(b) => Ok(truth_text(a == b)),
        },
    }
}

/// Writes an integer result, or fails when it is no 32-bit integer.
fn integer_result(v: i64) -> (r: Result<String, EvalError>)
    ensures
        text_result(r) == integer_text(v as int),
{
    if v < -2147483648 || v > 2147483647 {
        Err(EvalError::Overflow)
    } else {
        Ok(render_int(v as i32))
    }
}

/// Writes a truth value.
pub fn render_truth(b: bool) -> (r: String)
    ensures
        r@ == truth_text(b),
{
    proof {
        reveal_strlit("true");
        reveal_strlit("false");
    }
    let r = if b {
        String::from_str("true")
    } else {
        String::from_str("false")
    };
    assert(r@ =~= truth_text(b));
    r
}

/// Reads a truth value: `true` or `false`, nothing else.
pub fn parse_truth(text: &String) -> (r: Option<bool>)
    ensures
        r == truth_of_text(text@),
{
    proof {
        reveal_strlit("true");
        reveal_strlit("false");
    }
    let yes = String::from_str("true");
    let no = String::from_str("false");
    assert(yes@ =~= truth_text(true));
    assert(no@ =~= truth_text(false));
    if *text == yes {
        Some(true)
    } else if *text == no {
        Some(false)
    } else {
        None
    }
}

/// Adds two integers given as text.
pub fn op_plus(x: String, y: String) -> (r: Result<String, EvalError>)
    ensures
        text_result(r) == plus(x@, y@),
{
    match parse_int(&x) {
        None => Err(EvalError::MalformedNumber(x)),
        Some(a) => match parse_int(&y) {
            None => Err(EvalError::MalformedNumber(y)),
            Some(b) => integer_result(a as i64 + b as i64),
        },
    }
}

/// Negates an integer given as text.
pub fn op_minus(x: String) -> (r: Result<String, EvalError>)
    ensures
        text_result(r) == negation(x@),
{
    match parse_int(&x) {
        None => Err(EvalError::MalformedNumber(x)),
        Some(a) => integer_result(-(a as i64)),
    }
}

/// Multiplies two integers given as text.
pub fn op_mult(x: String, y: String) -> (r: Result<String, EvalError>)
    ensures
        text_result(r) == product(x@, y@),
{
    match parse_int(&x) {
        None => Err(EvalError::MalformedNumber(x)),
        Some(a) => match parse_int(&y) {
            None => Err(EvalError::MalformedNumber(y)),
            Some(b) => {
                assert(-0x8000_0000 * 0x8000_0000 <= (a as int) * (b as int) <= 0x8000_0000
                    * 0x8000_0000) by (nonlinear_arith)
                    requires
                        -0x8000_0000 <= a < 0x8000_0000,
                        -0x8000_0000 <= b < 0x8000_0000,
                ;
                integer_result(a as i64 * b as i64)
            },
        },
    }
}

/// Divides `y` by `x`, both given as text, rounding towards zero.
pub fn op_div(x: String, y: String) -> (r: Result<String, EvalError>)
    ensures
        text_result(r) == division(x@, y@),
{
    match parse_int(&y) {
        None => Err(EvalError::MalformedNumber(y)),
        Some(b) => match parse_int(&x) {
            None => Err(EvalError::MalformedNumber(x)),
            Some(a) => {
                if a == 0 {
                    Err(EvalError::DivisionByZero)
                } else {
                    let dividend: i64 = b as i64;
                    let divisor: i64 = a as i64;
                    let q: i64 = if dividend >= 0 && divisor > 0 {
                        dividend / divisor
                    } else if dividend >= 0 {
                        -(dividend / (-divisor))
                    } else if divisor > 0 {
                        -((-dividend) / divisor)
                    } else {
                        (-dividend) / (-divisor)
                    };
                    integer_result(q)
                }
            },
        },
    }
}

/// Compares two integers given as text: whether `x` is greater than `y`.
pub fn op_greater(x: String, y: String) -> (r: Result<String, EvalError>)
    ensures
        text_result(r) == greater(x@, y@),
{
    match parse_int(&x) {
        None => Err(EvalError::MalformedNumber(x)),
        Some(a) => match parse_int(&y) {
            None => Err(EvalError::MalformedNumber(y)),
            Some(b) => Ok(render_truth(a > b)),
        },
    }
}

/// Compares two integers given as text: whether `x` is less than `y`.
pub fn op_less(x: String, y: String) -> (r: Result<String, EvalError>)
    ensures
        text_result(r) == less(x@, y@),
{
    match parse_int(&x) {
        None => Err(EvalError::MalformedNumber(x)),
        Some(a) => match parse_int(&y) {
            None => Err(EvalError::MalformedNumber(y)),
            Some(b) => Ok(render_truth(a < b)),
        },
    }
}

/// Compares two integers given as text: whether they are the same integer.
pub fn op_equal(x: String, y: String) -> (r: Result<String, EvalError>)
    ensures
        text_result(r) == equal(x@, y@),
{
    match parse_int(&x) {
        None => Err(EvalError::MalformedNumber(x)),
        Some(a) => match parse_int(&y) {
            None => Err(EvalError::MalformedNumber(y)),
            Some(b) => Ok(render_truth(a == b)),
        },
    }
}

/// A power of a base that is at least 2 in magnitude is at least 1 in
/// magnitude, and at least 2 when the exponent is not zero.
proof fn lemma_pow_magnitude(b: int, e: nat)
    requires
        b >= 2 || b <= -2,
    ensures
        pow(b, e) >= 1 || pow(b, e) <= -1,
        e >= 1 ==> pow(b, e) >= 2 || pow(b, e) <= -2,
    decreases e,
{
    reveal(pow);
    if e > 0 {
        lemma_pow_magnitude(b, (e - 1) as nat);
        let p = pow(b, (e - 1) as nat);
        assert(b * p >= 2 || b * p <= -2) by (nonlinear_arith)
            requires
                b >= 2 || b <= -2,
                p >= 1 || p <= -1,
        ;
    }
}

/// Once a power of such a base is no 32-bit integer, no later power is one.
proof fn lemma_pow_stays_beyond(b: int, i: nat, e: nat)
    requires
        b >= 2 || b <= -2,
        i <= e,
        !fits(pow(b, i)),
    ensures
        !fits(pow(b, e)),
{
    if i < e {
        let k = (e - i) as nat;
        vstd::arithmetic::power::lemma_pow_adds(b, i, k);
        lemma_pow_magnitude(b, k);
        let p = pow(b, i);
        let q = pow(b, k);
        assert(p * q > 0x7fff_ffff || p * q < -0x8000_0000) by (nonlinear_arith)
            requires
                p > 0x7fff_ffff || p < -0x8000_0000,
                q >= 2 || q <= -2,
        ;
    }
}

/// The powers of 0, 1 and -1.
proof fn lemma_pow_small_base(b: int, e: nat)
    requires
        -1 <= b <= 1,
    ensures
        b == 0 && e > 0 ==> pow(b, e) == 0,
        b == 1 ==> pow(b, e) == 1,
        b == -1 ==> pow(b, e) == (if e % 2 == 0 {
            1int
        } else {
            -1int
        }),
        e == 0 ==> pow(b, e) == 1,
    decreases e,
{
    reveal(pow);
    if e > 0 {
        lemma_pow_small_base(b, (e - 1) as nat);
    }
}

/// Raises `base` to `exponent`, or fails when the power is no 32-bit integer.
fn int_power(base: i32, exponent: u32) -> (r: Result<String, EvalError>)
    ensures
        text_result(r) == integer_text(pow(base as int, exponent as nat)),
{
    proof {
        if -1 <= base <= 1 {
            lemma_pow_small_base(base as int, exponent as nat);
        }
    }
    if exponent == 0 || base == 1 {
        proof {
            reveal(pow);
        }
        return integer_result(1);
    }
    if base == 0 {
        return integer_result(0);
    }
    if base == -1 {
        return if exponent % 2 == 0 {
            integer_result(1)
        } else {
            integer_result(-1)
        };
    }
    let mut acc: i64 = 1;
    let mut i: u32 = 0;
    proof {
        reveal(pow);
    }
    while i < exponent
        invariant
            i <= exponent,
            base >= 2 || base <= -2,
            acc == pow(base as int, i as nat),
            fits(acc as int),
        decreases exponent - i,
    {
        assert(-0x8000_0000 * 0x8000_0000 <= (acc as int) * (base as int) <= 0x8000_0000
            * 0x8000_0000) by (nonlinear_arith)
            requires
                -0x8000_0000 <= acc < 0x8000_0000,
                -0x8000_0000 <= base < 0x8000_0000,
        ;
        let next: i64 = acc * (base as i64);
        proof {
            reveal(pow);
            assert(pow(base as int, (i + 1) as nat) == base * pow(base as int, i as nat));
            assert(next == pow(base as int, (i + 1) as nat)) by (nonlinear_arith)
                requires
                    next == acc * base,
                    pow(base as int, (i + 1) as nat) == base * acc,
            ;
        }
        if next < -2147483648 || next > 2147483647 {
            proof {
                lemma_pow_stays_beyond(base as int, (i + 1) as nat, exponent as nat);
            }
            return Err(EvalError::Overflow);
        }
        acc = next;
        i = i + 1;
    }
    integer_result(acc)
}

/// Raises `y` to the power `x`, both given as text.
pub fn op_pow(x: String, y: String) -> (r: Result<String, EvalError>)
    ensures
        text_result(r) == power(x@, y@),
{
    match parse_int(&x) {
        None => Err(EvalError::MalformedNumber(x)),
        Some(e) => match parse_int(&y) {
            None => Err(EvalError::MalformedNumber(y)),
            Some(b) => {
                let exponent: u32 = if e >= 0 {
                    e as u32
                } else {
                    (e as i64 + 0x1_0000_0000) as u32
                };
                int_power(b, exponent)
            },
        },
    }
}

} // verus!
