use postfix_eval::arith::{
    op_div, op_equal, op_greater, op_less, op_minus, op_mult, op_plus, op_pow, parse_truth,
    render_truth,
};
use postfix_eval::error::EvalError;
use postfix_eval::number::{parse_int, render_digits, render_int};

fn s(text: &str) -> String {
    text.to_string()
}

#[test]
fn parse_int_reads_plain_digits() {
    assert_eq!(parse_int(&s("7")), Some(7));
    assert_eq!(parse_int(&s("2147483647")), Some(2147483647));
    assert_eq!(parse_int(&s("00012")), Some(12));
    assert_eq!(parse_int(&s("0")), Some(0));
}

#[test]
fn parse_int_reads_a_sign() {
    assert_eq!(parse_int(&s("-5")), Some(-5));
    assert_eq!(parse_int(&s("+5")), Some(5));
    assert_eq!(parse_int(&s("-0")), Some(0));
    assert_eq!(parse_int(&s("-2147483648")), Some(i32::MIN));
}

#[test]
fn parse_int_refuses_what_is_no_integer() {
    assert_eq!(parse_int(&s("")), None);
    assert_eq!(parse_int(&s("-")), None);
    assert_eq!(parse_int(&s("+")), None);
    assert_eq!(parse_int(&s("12a")), None);
    assert_eq!(parse_int(&s(" 12")), None);
    assert_eq!(parse_int(&s("12 ")), None);
    assert_eq!(parse_int(&s("--1")), None);
    assert_eq!(parse_int(&s("true")), None);
    assert_eq!(parse_int(&s("١٢")), None);
}

#[test]
fn parse_int_refuses_what_does_not_fit() {
    assert_eq!(parse_int(&s("2147483648")), None);
    assert_eq!(parse_int(&s("-2147483649")), None);
    assert_eq!(parse_int(&s("99999999999999999999999999999")), None);
    assert_eq!(parse_int(&s("000000000000000000000000000001")), Some(1));
}

#[test]
fn render_int_writes_decimal() {
    assert_eq!(render_int(0), "0");
    assert_eq!(render_int(7), "7");
    assert_eq!(render_int(-5), "-5");
    assert_eq!(render_int(1200), "1200");
    assert_eq!(render_int(i32::MAX), "2147483647");
    assert_eq!(render_int(i32::MIN), "-2147483648");
}

#[test]
fn render_digits_writes_large_numbers() {
    assert_eq!(render_digits(0), "0");
    assert_eq!(render_digits(4294967296), "4294967296");
    assert_eq!(render_digits(u64::MAX), "18446744073709551615");
}

#[test]
fn render_then_parse_gives_the_integer_back() {
    for v in [0, 1, -1, 9, 10, 11, 99, 100, -100, 12345, i32::MAX, i32::MIN] {
        assert_eq!(parse_int(&render_int(v)), Some(v));
    }
}

#[test]
fn truth_is_written_and_read_as_words() {
    assert_eq!(render_truth(true), "true");
    assert_eq!(render_truth(false), "false");
    assert_eq!(parse_truth(&s("true")), Some(true));
    assert_eq!(parse_truth(&s("false")), Some(false));
    assert_eq!(parse_truth(&s("True")), None);
    assert_eq!(parse_truth(&s("1")), None);
    assert_eq!(parse_truth(&s("")), None);
}

#[test]
fn plus_adds() {
    assert_eq!(op_plus(s("3"), s("4")), Ok(s("7")));
    assert_eq!(op_plus(s("-3"), s("3")), Ok(s("0")));
    assert_eq!(op_plus(s("2147483647"), s("-1")), Ok(s("2147483646")));
}

#[test]
fn plus_fails_beyond_32_bits() {
    assert_eq!(op_plus(s("2147483647"), s("1")), Err(EvalError::Overflow));
    assert_eq!(op_plus(s("-2147483648"), s("-1")), Err(EvalError::Overflow));
}

#[test]
fn plus_names_the_first_operand_that_is_no_number() {
    assert_eq!(op_plus(s("a"), s("b")), Err(EvalError::MalformedNumber(s("a"))));
    assert_eq!(op_plus(s("1"), s("b")), Err(EvalError::MalformedNumber(s("b"))));
    assert_eq!(op_plus(s("true"), s("1")), Err(EvalError::MalformedNumber(s("true"))));
}

#[test]
fn minus_negates_one_operand() {
    assert_eq!(op_minus(s("5")), Ok(s("-5")));
    assert_eq!(op_minus(s("-5")), Ok(s("5")));
    assert_eq!(op_minus(s("0")), Ok(s("0")));
    assert_eq!(op_minus(s("-2147483648")), Err(EvalError::Overflow));
    assert_eq!(op_minus(s("x")), Err(EvalError::MalformedNumber(s("x"))));
}

#[test]
fn mult_multiplies() {
    assert_eq!(op_mult(s("6"), s("7")), Ok(s("42")));
    assert_eq!(op_mult(s("-6"), s("7")), Ok(s("-42")));
    assert_eq!(op_mult(s("65536"), s("32768")), Err(EvalError::Overflow));
    assert_eq!(op_mult(s("65536"), s("-32768")), Ok(s("-2147483648")));
    assert_eq!(op_mult(s("6"), s("")), Err(EvalError::MalformedNumber(s(""))));
}

#[test]
fn div_divides_the_second_by_the_first() {
    assert_eq!(op_div(s("2"), s("10")), Ok(s("5")));
    assert_eq!(op_div(s("10"), s("2")), Ok(s("0")));
}

#[test]
fn div_rounds_towards_zero() {
    assert_eq!(op_div(s("2"), s("7")), Ok(s("3")));
    assert_eq!(op_div(s("2"), s("-7")), Ok(s("-3")));
    assert_eq!(op_div(s("-2"), s("7")), Ok(s("-3")));
    assert_eq!(op_div(s("-2"), s("-7")), Ok(s("3")));
}

#[test]
fn div_fails_on_zero_and_beyond_32_bits() {
    assert_eq!(op_div(s("0"), s("7")), Err(EvalError::DivisionByZero));
    assert_eq!(op_div(s("-1"), s("-2147483648")), Err(EvalError::Overflow));
    assert_eq!(op_div(s("1"), s("-2147483648")), Ok(s("-2147483648")));
}

#[test]
fn div_reads_the_dividend_first() {
    assert_eq!(op_div(s("a"), s("b")), Err(EvalError::MalformedNumber(s("b"))));
    assert_eq!(op_div(s("a"), s("1")), Err(EvalError::MalformedNumber(s("a"))));
}

#[test]
fn pow_raises_the_second_to_the_first() {
    assert_eq!(op_pow(s("3"), s("2")), Ok(s("8")));
    assert_eq!(op_pow(s("2"), s("3")), Ok(s("9")));
    assert_eq!(op_pow(s("0"), s("5")), Ok(s("1")));
    assert_eq!(op_pow(s("0"), s("0")), Ok(s("1")));
    assert_eq!(op_pow(s("5"), s("0")), Ok(s("0")));
    assert_eq!(op_pow(s("3"), s("-2")), Ok(s("-8")));
    assert_eq!(op_pow(s("31"), s("-2")), Ok(s("-2147483648")));
    assert_eq!(op_pow(s("30"), s("2")), Ok(s("1073741824")));
}

#[test]
fn pow_fails_beyond_32_bits() {
    assert_eq!(op_pow(s("31"), s("2")), Err(EvalError::Overflow));
    assert_eq!(op_pow(s("32"), s("-2")), Err(EvalError::Overflow));
    assert_eq!(op_pow(s("2147483647"), s("2")), Err(EvalError::Overflow));
    assert_eq!(op_pow(s("2"), s("65536")), Err(EvalError::Overflow));
}

#[test]
fn pow_reads_a_negative_exponent_as_unsigned() {
    assert_eq!(op_pow(s("-1"), s("1")), Ok(s("1")));
    assert_eq!(op_pow(s("-1"), s("-1")), Ok(s("-1")));
    assert_eq!(op_pow(s("-2"), s("-1")), Ok(s("1")));
    assert_eq!(op_pow(s("-1"), s("0")), Ok(s("0")));
    assert_eq!(op_pow(s("-1"), s("2")), Err(EvalError::Overflow));
}

#[test]
fn pow_reads_the_exponent_first() {
    assert_eq!(op_pow(s("a"), s("b")), Err(EvalError::MalformedNumber(s("a"))));
    assert_eq!(op_pow(s("1"), s("b")), Err(EvalError::MalformedNumber(s("b"))));
}

#[test]
fn comparisons_answer_in_words() {
    assert_eq!(op_greater(s("2"), s("1")), Ok(s("true")));
    assert_eq!(op_greater(s("1"), s("2")), Ok(s("false")));
    assert_eq!(op_greater(s("2"), s("2")), Ok(s("false")));
    assert_eq!(op_less(s("1"), s("2")), Ok(s("true")));
    assert_eq!(op_less(s("2"), s("1")), Ok(s("false")));
    assert_eq!(op_less(s("-3"), s("-2")), Ok(s("true")));
    assert_eq!(op_equal(s("7"), s("7")), Ok(s("true")));
    assert_eq!(op_equal(s("7"), s("8")), Ok(s("false")));
}

#[test]
fn equal_compares_integers_not_texts() {
    assert_eq!(op_equal(s("+7"), s("007")), Ok(s("true")));
    assert_eq!(op_equal(s("-0"), s("0")), Ok(s("true")));
}

#[test]
fn comparisons_name_the_first_operand_that_is_no_number() {
    assert_eq!(op_greater(s("a"), s("b")), Err(EvalError::MalformedNumber(s("a"))));
    assert_eq!(op_less(s("1"), s("b")), Err(EvalError::MalformedNumber(s("b"))));
    assert_eq!(op_equal(s("true"), s("true")), Err(EvalError::MalformedNumber(s("true"))));
}

#[test]
fn messages_name_what_was_at_fault() {
    assert_eq!(
        EvalError::InvalidToken(s("@"), 3, 14).message(),
        "ERROR: Invalid Token @ at row:3,line:14"
    );
    assert_eq!(
        EvalError::UnsupportedToken(s("("), 0, 120).message(),
        "Token not Defined: '(' at row:0,line:120"
    );
    assert_eq!(
        EvalError::UndefinedVariable(s("z")).message(),
        "ERROR: undefined variable: |z|"
    );
    assert_eq!(EvalError::MalformedNumber(s("1x")).message(), "ERROR: not an integer: |1x|");
    assert_eq!(
        EvalError::NonBooleanCondition(s("7")).message(),
        "ERROR: expected boolean at |7|"
    );
    assert_eq!(EvalError::StackUnderflow.message(), "ERROR: empty stack");
    assert_eq!(EvalError::Overflow.message(), "ERROR: integer overflow");
    assert_eq!(EvalError::DivisionByZero.message(), "ERROR: division by zero");
}
