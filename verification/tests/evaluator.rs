use postfix_eval::bindings::Bindings;
use postfix_eval::error::EvalError;
use postfix_eval::eval::{evaluate, op_if, simulate_program, variable, Outcome};
use postfix_eval::token::Token;

fn s(text: &str) -> String {
    text.to_string()
}

fn num(text: &str) -> Token {
    Token::Number(s(text), 0, 0)
}

fn id(name: &str) -> Token {
    Token::Identifier(s(name), 0, 0)
}

fn table(pairs: &[(&str, &str)]) -> Bindings {
    let mut b = Bindings::new();
    for (name, value) in pairs {
        b.insert(s(name), s(value));
    }
    b
}

fn sorted(b: &Bindings) -> Vec<(String, String)> {
    let mut v = b.to_vec();
    v.sort();
    v
}

fn bound(outcome: &Outcome) -> Vec<(String, String)> {
    match &outcome.result {
        Ok(b) => sorted(b),
        Err(e) => panic!("evaluation failed: {:?}", e),
    }
}

fn failure(outcome: Outcome) -> EvalError {
    match outcome.result {
        Ok(_) => panic!("evaluation did not fail"),
        Err(e) => e,
    }
}

#[test]
fn sum_of_two_literals_is_printed() {
    let out = simulate_program(vec![num("3"), num("4"), Token::Plus(0, 0), Token::Print(0, 0)]);
    assert_eq!(out.output, vec![s("7")]);
    assert_eq!(bound(&out), vec![]);
}

#[test]
fn nested_arithmetic_follows_postfix_order() {
    // ((2 + 3) * 4) / 5 = 4, then 4 ^ 2 = 16
    let out = simulate_program(vec![
        num("2"),
        num("3"),
        Token::Plus(0, 0),
        num("4"),
        Token::Mult(0, 0),
        num("5"),
        Token::Div(0, 0),
        num("2"),
        Token::Pow(0, 0),
        Token::Print(0, 0),
    ]);
    assert_eq!(out.output, vec![s("16")]);
}

#[test]
fn minus_takes_one_operand_only() {
    // The name under the operand is still there for the assignment.
    let start = table(&[("-5", "99")]);
    let out = evaluate(
        &vec![id("x"), num("5"), Token::Minus(0, 0), Token::Assign(0, 0)],
        start,
    );
    assert_eq!(bound(&out), vec![(s("-5"), s("99")), (s("x"), s("99"))]);
}

#[test]
fn minus_yields_the_negated_text() {
    let out = simulate_program(vec![num("5"), Token::Minus(0, 0), Token::Print(0, 0)]);
    assert_eq!(out.output, Vec::<String>::new());
    assert_eq!(failure(out), EvalError::UndefinedVariable(s("-5")));
}

#[test]
fn division_divides_the_first_pushed_by_the_second() {
    let out = simulate_program(vec![num("10"), num("2"), Token::Div(0, 0), Token::Print(0, 0)]);
    assert_eq!(out.output, vec![s("5")]);
}

#[test]
fn power_raises_the_first_pushed_to_the_second() {
    let out = simulate_program(vec![num("2"), num("3"), Token::Pow(0, 0), Token::Print(0, 0)]);
    assert_eq!(out.output, vec![s("8")]);
}

#[test]
fn assignment_binds_and_the_name_then_prints_its_value() {
    let out = simulate_program(vec![
        id("x"),
        num("7"),
        Token::Assign(0, 0),
        id("x"),
        Token::Print(0, 0),
    ]);
    assert_eq!(out.output, vec![s("7")]);
    assert_eq!(bound(&out), vec![(s("x"), s("7"))]);
}

#[test]
fn assignment_overwrites() {
    let out = simulate_program(vec![
        id("x"),
        num("7"),
        Token::Assign(0, 0),
        id("y"),
        num("1"),
        Token::Assign(0, 0),
        id("x"),
        num("8"),
        Token::Assign(0, 0),
    ]);
    // The second `x` is pushed as its value, 7, which then names the binding.
    assert_eq!(bound(&out), vec![(s("7"), s("8")), (s("x"), s("7")), (s("y"), s("1"))]);
}

#[test]
fn a_name_bound_after_it_was_pushed_resolves_late() {
    let out = simulate_program(vec![
        id("a"),
        id("a"),
        num("4"),
        Token::Assign(0, 0),
        num("1"),
        Token::Plus(0, 0),
        Token::Print(0, 0),
    ]);
    assert_eq!(out.output, vec![s("5")]);
}

fn assign_y_9() -> Token {
    Token::Block(vec![id("y"), num("9"), Token::Assign(0, 0)], 0, 0)
}

#[test]
fn true_condition_runs_the_block_and_merges() {
    let start = table(&[("true", "true")]);
    let out = evaluate(
        &vec![assign_y_9(), num("1"), num("1"), Token::Equal(0, 0), Token::If(0, 0)],
        start,
    );
    assert_eq!(bound(&out), vec![(s("true"), s("true")), (s("y"), s("9"))]);
}

#[test]
fn false_condition_leaves_the_table_unchanged() {
    let start = table(&[("false", "false"), ("y", "1")]);
    let out = evaluate(
        &vec![assign_y_9(), num("1"), num("2"), Token::Equal(0, 0), Token::If(0, 0)],
        start,
    );
    assert_eq!(bound(&out), vec![(s("false"), s("false")), (s("y"), s("1"))]);
    assert_eq!(out.output, Vec::<String>::new());
}

#[test]
fn a_comparison_result_is_looked_up_like_any_name() {
    let out = simulate_program(vec![
        assign_y_9(),
        num("1"),
        num("1"),
        Token::Equal(0, 0),
        Token::If(0, 0),
    ]);
    assert_eq!(failure(out), EvalError::UndefinedVariable(s("true")));
}

#[test]
fn block_sees_outer_bindings_and_writes_back() {
    let start = table(&[("true", "true"), ("x", "4")]);
    let block = Token::Block(
        vec![
            id("x"),
            Token::Print(0, 0),
            id("z"),
            id("x"),
            num("1"),
            Token::Plus(0, 0),
            Token::Assign(0, 0),
        ],
        0,
        0,
    );
    let out =
        evaluate(&vec![block, id("true"), Token::If(0, 0), id("z"), Token::Print(0, 0)], start);
    assert_eq!(out.output, vec![s("4"), s("5")]);
    assert_eq!(bound(&out), vec![(s("true"), s("true")), (s("x"), s("4")), (s("z"), s("5"))]);
}

#[test]
fn the_latest_block_is_the_one_consumed() {
    let start = table(&[("true", "true")]);
    let first = Token::Block(vec![num("1"), Token::Print(0, 0)], 0, 0);
    let second = Token::Block(vec![num("2"), Token::Print(0, 0)], 0, 0);
    let out = evaluate(
        &vec![first, second, id("true"), Token::If(0, 0), id("true"), Token::If(0, 0)],
        start,
    );
    assert_eq!(out.output, vec![s("2"), s("1")]);
}

#[test]
fn blocks_nest() {
    let start = table(&[("true", "true")]);
    let inner = Token::Block(vec![id("deep"), num("3"), Token::Assign(0, 0)], 0, 0);
    let outer = Token::Block(vec![inner, id("true"), Token::If(0, 0)], 0, 0);
    let out = evaluate(&vec![outer, id("true"), Token::If(0, 0)], start);
    assert_eq!(bound(&out), vec![(s("deep"), s("3")), (s("true"), s("true"))]);
}

#[test]
fn a_failure_inside_a_block_stops_everything() {
    let start = table(&[("true", "true")]);
    let block = Token::Block(vec![num("1"), Token::Print(0, 0), id("q"), Token::Print(0, 0)], 0, 0);
    let out =
        evaluate(&vec![block, id("true"), Token::If(0, 0), num("2"), Token::Print(0, 0)], start);
    assert_eq!(out.output, vec![s("1")]);
    assert_eq!(failure(out), EvalError::UndefinedVariable(s("q")));
}

#[test]
fn undefined_variable_is_a_failure() {
    let out = simulate_program(vec![id("z"), Token::Print(0, 0)]);
    assert_eq!(out.output, Vec::<String>::new());
    assert_eq!(failure(out), EvalError::UndefinedVariable(s("z")));
}

#[test]
fn a_leading_zero_is_no_literal() {
    let out = simulate_program(vec![num("0"), Token::Print(0, 0)]);
    assert_eq!(failure(out), EvalError::UndefinedVariable(s("0")));
    let out = evaluate(&vec![num("0"), Token::Print(0, 0)], table(&[("0", "zero")]));
    assert_eq!(out.output, vec![s("zero")]);
}

#[test]
fn invalid_token_is_a_failure_with_its_place() {
    let out = simulate_program(vec![
        num("1"),
        Token::Print(0, 0),
        Token::Invalid(s("@"), 3, 14),
        num("2"),
        Token::Print(0, 0),
    ]);
    assert_eq!(out.output, vec![s("1")]);
    assert_eq!(failure(out), EvalError::InvalidToken(s("@"), 3, 14));
}

#[test]
fn unsupported_token_is_a_failure() {
    let out = simulate_program(vec![Token::Other(s("("), 1, 2)]);
    assert_eq!(failure(out), EvalError::UnsupportedToken(s("("), 1, 2));
}

#[test]
fn malformed_number_is_a_failure() {
    let out = simulate_program(vec![num("1x"), num("2"), Token::Plus(0, 0)]);
    assert_eq!(failure(out), EvalError::MalformedNumber(s("1x")));
}

#[test]
fn non_boolean_condition_is_a_failure() {
    let out = simulate_program(vec![assign_y_9(), num("1"), Token::If(0, 0)]);
    assert_eq!(failure(out), EvalError::NonBooleanCondition(s("1")));
}

#[test]
fn empty_stack_is_a_failure() {
    assert_eq!(failure(simulate_program(vec![Token::Plus(0, 0)])), EvalError::StackUnderflow);
    assert_eq!(
        failure(simulate_program(vec![num("1"), Token::Plus(0, 0)])),
        EvalError::StackUnderflow
    );
    assert_eq!(failure(simulate_program(vec![Token::Minus(0, 0)])), EvalError::StackUnderflow);
    assert_eq!(failure(simulate_program(vec![Token::Print(0, 0)])), EvalError::StackUnderflow);
    assert_eq!(
        failure(simulate_program(vec![num("1"), Token::Assign(0, 0)])),
        EvalError::StackUnderflow
    );
    assert_eq!(failure(simulate_program(vec![Token::If(0, 0)])), EvalError::StackUnderflow);
}

#[test]
fn a_conditional_without_a_block_is_a_failure() {
    let out = evaluate(&vec![id("true"), Token::If(0, 0)], table(&[("true", "true")]));
    assert_eq!(failure(out), EvalError::StackUnderflow);
}

#[test]
fn the_top_is_resolved_before_the_second_is_taken() {
    let out = simulate_program(vec![id("z"), Token::Plus(0, 0)]);
    assert_eq!(failure(out), EvalError::UndefinedVariable(s("z")));
}

#[test]
fn overflow_and_division_by_zero_are_failures() {
    let out = simulate_program(vec![num("2147483647"), num("1"), Token::Plus(0, 0)]);
    assert_eq!(failure(out), EvalError::Overflow);
    let out = evaluate(&vec![num("1"), num("0"), Token::Div(0, 0)], table(&[("0", "0")]));
    assert_eq!(failure(out), EvalError::DivisionByZero);
}

#[test]
fn comparison_keeps_the_order_of_pushing() {
    let start = table(&[("true", "yes"), ("false", "no")]);
    let out = evaluate(
        &vec![
            num("2"),
            num("1"),
            Token::Greater(0, 0),
            Token::Print(0, 0),
            num("2"),
            num("1"),
            Token::Less(0, 0),
            Token::Print(0, 0),
        ],
        start,
    );
    assert_eq!(out.output, vec![s("yes"), s("no")]);
}

#[test]
fn evaluation_is_repeatable() {
    let program = || {
        vec![
            id("x"),
            num("6"),
            num("7"),
            Token::Mult(0, 0),
            Token::Assign(0, 0),
            id("x"),
            Token::Print(0, 0),
            id("x"),
            num("2"),
            Token::Div(0, 0),
            Token::Print(0, 0),
        ]
    };
    let first = evaluate(&program(), table(&[("k", "1")]));
    let second = evaluate(&program(), table(&[("k", "1")]));
    assert_eq!(first.output, vec![s("42"), s("21")]);
    assert_eq!(first.output, second.output);
    assert_eq!(bound(&first), bound(&second));
    assert_eq!(bound(&first), vec![(s("k"), s("1")), (s("x"), s("42"))]);
}

#[test]
fn an_empty_program_changes_nothing() {
    let out = evaluate(&vec![], table(&[("a", "1")]));
    assert_eq!(out.output, Vec::<String>::new());
    assert_eq!(bound(&out), vec![(s("a"), s("1"))]);
}

#[test]
fn variable_takes_a_literal_as_it_stands() {
    let b = table(&[("12", "other")]);
    assert_eq!(variable(s("12"), &b), Ok(s("12")));
    assert_eq!(variable(s("9lives"), &b), Ok(s("9lives")));
}

#[test]
fn variable_looks_a_name_up() {
    let b = table(&[("x", "5"), ("", "empty"), ("0", "nought")]);
    assert_eq!(variable(s("x"), &b), Ok(s("5")));
    assert_eq!(variable(s(""), &b), Ok(s("empty")));
    assert_eq!(variable(s("0"), &b), Ok(s("nought")));
    assert_eq!(variable(s("y"), &b), Err(EvalError::UndefinedVariable(s("y"))));
    assert_eq!(variable(s(""), &Bindings::new()), Err(EvalError::UndefinedVariable(s(""))));
}

#[test]
fn op_if_decides_on_the_word() {
    let b = table(&[("x", "1")]);
    let block = vec![id("y"), id("x"), Token::Assign(0, 0), id("y"), Token::Print(0, 0)];
    let (output, result) = op_if(s("true"), &block, &b, vec![s("before")]);
    assert_eq!(output, vec![s("before"), s("1")]);
    assert_eq!(sorted(&result.unwrap().unwrap()), vec![(s("x"), s("1")), (s("y"), s("1"))]);
    let (output, result) = op_if(s("false"), &block, &b, vec![s("before")]);
    assert_eq!(output, vec![s("before")]);
    assert!(result.unwrap().is_none());
    let (output, result) = op_if(s("maybe"), &block, &b, vec![]);
    assert_eq!(output, Vec::<String>::new());
    assert_eq!(result.unwrap_err(), EvalError::NonBooleanCondition(s("maybe")));
}

#[test]
fn postfix_arithmetic_computes_the_infix_value() {
    // (7 * 6) / (2 + 1) = 14
    let out = simulate_program(vec![
        num("7"),
        num("6"),
        Token::Mult(0, 0),
        num("2"),
        num("1"),
        Token::Plus(0, 0),
        Token::Div(0, 0),
        Token::Print(0, 0),
    ]);
    assert_eq!(out.output, vec![s("14")]);
    // 2 ^ (3 ^ 2) = 512
    let out = simulate_program(vec![
        num("2"),
        num("3"),
        num("2"),
        Token::Pow(0, 0),
        Token::Pow(0, 0),
        Token::Print(0, 0),
    ]);
    assert_eq!(out.output, vec![s("512")]);
}

#[test]
fn a_negative_operand_is_taken_for_a_name() {
    let out = simulate_program(vec![
        num("3"),
        Token::Minus(0, 0),
        num("4"),
        Token::Plus(0, 0),
        Token::Print(0, 0),
    ]);
    assert_eq!(failure(out), EvalError::UndefinedVariable(s("-3")));
}
