//! Decimal text and the integers it stands for.
//!
//! Values travel through the evaluator as text. This module says which texts
//! are integers, which integer each one is, and how an integer is written.

use vstd::prelude::*;

verus! {

/// Whether `c` is one of the ten decimal digits.
pub open spec fn is_digit(c: char) -> bool {
    '0' <= c && c <= '9'
}

/// The number a decimal digit stands for.
pub open spec fn digit_value(c: char) -> int {
    c as int - '0' as int
}

/// Whether every character of `s` is a decimal digit.
pub open spec fn all_digits(s: Seq<char>) -> bool {
    forall|i: int| 0 <= i < s.len() ==> is_digit(#[trigger] s[i])
}

/// The number that a run of decimal digits stands for, most significant digit
/// first. The empty run stands for zero.
pub open spec fn digits_value(s: Seq<char>) -> int
    decreases s.len(),
{
    if s.len() == 0 {
        0
    } else {
        10 * digits_value(s.drop_last()) + digit_value(s.last())
    }
}

/// The integer that a signed decimal literal stands for: an optional `+` or
/// `-`, then one digit or more. Any number of digits is read, so the result
/// has no bound. `None` for every other text.
pub open spec fn literal_value(s: Seq<char>) -> Option<int> {
    if s.len() > 0 && (s[0] == '-' || s[0] == '+') {
        let digits = s.subrange(1, s.len() as int);
        if digits.len() > 0 && all_digits(digits) {
            if s[0] == '-' {
                Some(-digits_value(digits))
            } else {
                Some(digits_value(digits))
            }
        } else {
            None
        }
    } else if s.len() > 0 && all_digits(s) {
        Some(digits_value(s))
    } else {
        None
    }
}

/// Whether `v` is a 32-bit signed integer.
pub open spec fn fits(v: int) -> bool {
    i32::MIN <= v <= i32::MAX
}

/// The 32-bit signed integer that `s` stands for, if it is a signed decimal
/// literal of one.
pub open spec fn int_of_text(s: Seq<char>) -> Option<int> {
    match literal_value(s) {
        Some(v) => if fits(v) {
            Some(v)
        } else {
            None
        },
        None => None,
    }
}

/// The character that writes the digit `d`.
pub open spec fn digit_char(d: int) -> char {
    if d == 0 {
        '0'
    } else if d == 1 {
        '1'
    } else if d == 2 {
        '2'
    } else if d == 3 {
        '3'
    } else if d == 4 {
        '4'
    } else if d == 5 {
        '5'
    } else if d == 6 {
        '6'
    } else if d == 7 {
        '7'
    } else if d == 8 {
        '8'
    } else {
        '9'
    }
}

/// The digits of a natural number, most significant first, without leading
/// zeros; zero is written `0`.
pub open spec fn digits_of(n: nat) -> Seq<char>
    decreases n,
{
    if n < 10 {
        seq![digit_char(n as int)]
    } else {
        digits_of(n / 10).push(digit_char((n % 10) as int))
    }
}

/// The decimal text of an integer: its digits, behind a `-` when it is
/// negative.
pub open spec fn decimal(v: int) -> Seq<char> {
    if v < 0 {
        seq!['-'] + digits_of((-v) as nat)
    } else {
        digits_of(v as nat)
    }
}

/// Reads `s` as a 32-bit signed decimal literal.
pub fn parse_int(s: &String) -> (r: Option<i32>)
    ensures
        match r {
            Some(v) => int_of_text(s@) == Some(v as int),
            None => int_of_text(s@) is None,
        },
{
    let text = s.as_str();
    let n: usize = text.unicode_len();
    if n == 0 {
        return None;
    }
    let first = text.get_char(0);
    let negative = first == '-';
    let start: usize = if first == '-' || first == '+' {
        1
    } else {
        0
    };
    if start == n {
        return None;
    }
    let ghost digits = s@.subrange(start as int, n as int);
    proof {
        if start == 0 {
            assert(digits =~= s@);
        }
    }
    let mut acc: i64 = 0;
    let mut beyond = false;
    let mut i: usize = start;
    while i < n
        invariant
            start <= i <= n,
            n == s@.len(),
            text@ == s@,
            digits == s@.subrange(start as int, n as int),
            start == 0 ==> digits == s@,
            start == 0 || start == 1,
            (start == 1) == (s@[0] == '-' || s@[0] == '+'),
            all_digits(digits.take(i - start)),
            !beyond ==> acc == digits_value(digits.take(i - start)) && 0 <= acc <= 2147483648,
            beyond ==> digits_value(digits.take(i - start)) > 2147483648,
        decreases n - i,
    {
        let c = text.get_char(i);
        if !(c >= '0' && c <= '9') {
            proof {
                assert(digits[i - start] == c);
                assert(!all_digits(digits));
            }
            return None;
        }
        let d: i64 = (c as u8 - '0' as u8) as i64;
        proof {
            let before = digits.take(i - start);
            let after = digits.take(i + 1 - start);
            assert(after.drop_last() =~= before);
            assert(after.last() == c);
            assert(digits_value(after) == 10 * digits_value(before) + digit_value(c));
            assert forall|k: int| 0 <= k < after.len() implies is_digit(#[trigger] after[k]) by {
                if k < before.len() {
                    assert(before[k] == after[k]);
                }
            }
        }
        if !beyond {
            acc = acc * 10 + d;
            if acc > 2147483648 {
                beyond = true;
            }
        }
        i = i + 1;
    }
    proof {
        assert(digits.take(n - start) =~= digits);
    }
    if beyond {
        None
    } else if negative {
        Some((-acc) as i32)
    } else if acc == 2147483648 {
        None
    } else {
        Some(acc as i32)
    }
}

/// The one-character text of the digit `d`.
fn digit_text(d: u64) -> (r: &'static str)
    requires
        d < 10,
    ensures
        r@ == seq![digit_char(d as int)],
{
    proof {
        reveal_strlit("0");
        reveal_strlit("1");
        reveal_strlit("2");
        reveal_strlit("3");
        reveal_strlit("4");
        reveal_strlit("5");
        reveal_strlit("6");
        reveal_strlit("7");
        reveal_strlit("8");
        reveal_strlit("9");
    }
    let r = if d == 0 {
        "0"
    } else if d == 1 {
        "1"
    } else if d == 2 {
        "2"
    } else if d == 3 {
        "3"
    } else if d == 4 {
        "4"
    } else if d == 5 {
        "5"
    } else if d == 6 {
        "6"
    } else if d == 7 {
        "7"
    } else if d == 8 {
        "8"
    } else {
        "9"
    };
    assert(r@ =~= seq![digit_char(d as int)]);
    r
}

/// Writes a natural number in decimal.
pub fn render_digits(n: u64) -> (r: String)
    ensures
        r@ == digits_of(n as nat),
    decreases n,
{
    if n < 10 {
        String::from_str(digit_text(n))
    } else {
        let mut r = render_digits(n / 10);
        r.append(digit_text(n % 10));
        assert(r@ =~= digits_of((n / 10) as nat).push(digit_char((n % 10) as int)));
        r
    }
}

/// Writes `v` in decimal.
pub fn render_int(v: i32) -> (r: String)
    ensures
        r@ == decimal(v as int),
{
    if v < 0 {
        let magnitude: u64 = (-(v as i64)) as u64;
        proof {
            reveal_strlit("-");
        }
        let mut r = String::from_str("-");
        let digits = render_digits(magnitude);
        r.append(digits.as_str());
        assert(r@ =~= seq!['-'] + digits_of((-v) as nat));
        r
    } else {
        render_digits(v as u64)
    }
}

/// The digits of a number are digits, at least one of them, and stand for
/// that number.
pub proof fn lemma_digits_of_value(n: nat)
    ensures
        digits_of(n).len() > 0,
        all_digits(digits_of(n)),
        digits_value(digits_of(n)) == n,
        n > 0 ==> '1' <= digits_of(n)[0] <= '9',
        n == 0 ==> digits_of(n) == seq!['0'],
    decreases n,
{
    let s = digits_of(n);
    if n < 10 {
        assert(s.drop_last() =~= Seq::<char>::empty());
        assert(digits_value(s.drop_last()) == 0);
        assert(digit_value(digit_char(n as int)) == n);
    } else {
        let q = n / 10;
        let d = n % 10;
        lemma_digits_of_value(q);
        assert(s.drop_last() =~= digits_of(q));
        assert(s.last() == digit_char(d as int));
        assert(digit_value(digit_char(d as int)) == d);
        assert(s[0] == digits_of(q)[0]);
        assert forall|i: int| 0 <= i < s.len() implies is_digit(#[trigger] s[i]) by {
            if i < s.len() - 1 {
                assert(s[i] == digits_of(q)[i]);
            }
        }
    }
}

/// Writing a 32-bit integer and reading the text back gives the integer.
pub proof fn lemma_decimal_round_trip(v: int)
    requires
        fits(v),
    ensures
        int_of_text(decimal(v)) == Some(v),
{
    if v < 0 {
        let n = (-v) as nat;
        lemma_digits_of_value(n);
        let s = decimal(v);
        assert(s[0] == '-');
        assert(s.subrange(1, s.len() as int) =~= digits_of(n));
    } else {
        lemma_digits_of_value(v as nat);
        let s = decimal(v);
        assert(is_digit(s[0]));
    }
}

/// The decimal text of an integer begins with one of `1` to `9` exactly when
/// the integer is positive.
pub proof fn lemma_decimal_leading(v: int)
    ensures
        decimal(v).len() > 0,
        ('1' <= decimal(v)[0] <= '9') == (v > 0),
{
    if v < 0 {
        lemma_digits_of_value((-v) as nat);
        assert(decimal(v)[0] == '-');
    } else {
        lemma_digits_of_value(v as nat);
    }
}

} // verus!
