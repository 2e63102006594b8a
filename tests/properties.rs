use shunting_yard::{convert_to_rpn, solve, Expr, ShuntingYardError};

fn value(e: &Expr) -> f64 {
    match e {
        Expr::Number(digits) => digits.iter().collect::<String>().parse::<f64>().unwrap(),
        Expr::Apply(op, a, b) => {
            let (a, b) = (value(a), value(b));
            match op {
                '+' => a + b,
                '-' => a - b,
                '*' => a * b,
                '/' => a / b,
                '^' => a.powf(b),
                _ => panic!("not an operator: {}", op),
            }
        }
    }
}

fn solved(equation: &str) -> Result<String, ShuntingYardError> {
    solve(equation.to_string()).map(|e| value(&e).to_string())
}

fn rpn(equation: &str) -> Result<String, ShuntingYardError> {
    convert_to_rpn(equation.to_string())
}

#[test]
fn token_count_is_operands_plus_operators() {
    let out = rpn("(1+22)*3.5-4^5/6").unwrap();
    assert_eq!(out, "1 22 + 3.5 * 4 5 ^ 6 / -");
    assert_eq!(out.split(' ').count(), 6 + 5);
    assert!(solve("(1+22)*3.5-4^5/6".to_string()).is_ok());
}

#[test]
fn precedence_orders_output() {
    assert_eq!(rpn("1+2*3").unwrap(), "1 2 3 * +");
    assert_eq!(rpn("1+2*3^4").unwrap(), "1 2 3 4 ^ * +");
}

#[test]
fn equal_precedence_groups_left() {
    assert_eq!(rpn("1-2-3").unwrap(), "1 2 - 3 -");
    assert_eq!(solved("1-2-3").unwrap(), "-4");
    assert_eq!(rpn("8/4/2").unwrap(), "8 4 / 2 /");
    assert_eq!(solved("8/4/2").unwrap(), "1");
}

#[test]
fn power_groups_right() {
    assert_eq!(rpn("2^3^2").unwrap(), "2 3 2 ^ ^");
    assert_eq!(solved("2^3^2").unwrap(), "512");
    assert_eq!(
        rpn("3 + 4 * 2 / ( 1 - 5 ) ^ 2 ^ 3").unwrap(),
        "3 4 2 * 1 5 - 2 3 ^ ^ / +"
    );
}

#[test]
fn parentheses_override_precedence() {
    assert_eq!(rpn("1+(2*3)^4").unwrap(), "1 2 3 * 4 ^ +");
    assert_eq!(solved("(1+2)*3").unwrap(), "9");
}

#[test]
fn solve_small_sums() {
    assert_eq!(solved("1+2").unwrap(), "3");
    assert_eq!(solved("1+2*3^4").unwrap(), "163");
    assert_eq!(solved("10/4").unwrap(), "2.5");
}

#[test]
fn division_by_zero_is_infinite() {
    assert_eq!(solved("3-2+22/(33-33)").unwrap(), "inf");
    assert_eq!(solved("0-1/0").unwrap(), "-inf");
    assert_eq!(solved("0/0").unwrap(), "NaN");
}

#[test]
fn comma_separates_decimals() {
    let dot = solved("0.5*(3-2+8*2/(0.123452231-34))/9-.112238912").unwrap();
    let comma = solved("0.5*(3-2+8*2/(0.123452231-34))/9-,112238912").unwrap();
    assert_eq!(dot, comma);
    assert_eq!(rpn("2,5*2").unwrap(), "2.5 2 *");
    assert_eq!(solved("2,5*2").unwrap(), "5");
}

#[test]
fn mismatched_parentheses_fail() {
    assert_eq!(rpn("(1+2"), Err(ShuntingYardError::MismatchedParenthesis));
    assert_eq!(rpn("1+2)"), Err(ShuntingYardError::MismatchedParenthesis));
    assert!(matches!(solve("(1+2".to_string()), Err(ShuntingYardError::MismatchedParenthesis)));
    assert!(matches!(solve("1+2)".to_string()), Err(ShuntingYardError::MismatchedParenthesis)));
    assert_eq!(rpn(")("), Err(ShuntingYardError::MismatchedParenthesis));
}

#[test]
fn solving_twice_gives_the_same() {
    let e = "219*(3-2+2/(33-34))/9";
    assert_eq!(solved(e), solved(e));
    assert_eq!(solved(e).unwrap(), "-24.333333333333332");
}

#[test]
fn malformed_literal_is_a_parse_error() {
    assert_eq!(rpn("1..2+3"), Err(ShuntingYardError::ParseNumberError));
    assert_eq!(rpn("1.2,3"), Err(ShuntingYardError::ParseNumberError));
    assert_eq!(rpn(".+1"), Err(ShuntingYardError::ParseNumberError));
    assert_eq!(rpn("1.+.5").unwrap(), "1. .5 +");
}

#[test]
fn unknown_character_is_reported() {
    assert_eq!(rpn("1+x"), Err(ShuntingYardError::UnknownOperatorError('x')));
    assert_eq!(rpn("2%3"), Err(ShuntingYardError::UnknownOperatorError('%')));
}

#[test]
fn missing_operand_underflows() {
    assert_eq!(rpn("1++2").unwrap(), "1 + 2 +");
    assert!(matches!(solve("1++2".to_string()), Err(ShuntingYardError::StackUnderflow)));
    assert!(matches!(solve("".to_string()), Err(ShuntingYardError::StackUnderflow)));
    assert!(matches!(solve("+".to_string()), Err(ShuntingYardError::StackUnderflow)));
}

#[test]
fn whitespace_is_dropped() {
    assert_eq!(rpn(" 1 +\t2\n").unwrap(), "1 2 +");
    assert_eq!(rpn("1 2+3").unwrap(), "12 3 +");
    assert_eq!(rpn("").unwrap(), "");
}

#[test]
fn multi_digit_literals_render_whole() {
    assert_eq!(rpn("12+345").unwrap(), "12 345 +");
}

#[test]
fn errors_have_messages() {
    assert_eq!(ShuntingYardError::MismatchedParenthesis.message(), "Mismatched Parenthesis");
    assert_eq!(ShuntingYardError::StackUnderflow.message(), "Stack Underflow");
    assert_eq!(ShuntingYardError::UnknownOperatorError('x').message(), "Unknown operator: x");
    assert_eq!(
        ShuntingYardError::ParseNumberError.message(),
        "ParseFloatError: invalid float literal"
    );
}

#[test]
fn well_formed_expressions_evaluate() {
    for e in ["1", "(1)", "((2))^3", "1 + 2 * (3 - 4) / 5 ^ 6", "(1+2)*(3+4)", "7,5-(2)"] {
        assert!(solve(e.to_string()).is_ok(), "{}", e);
    }
    assert_eq!(solved("(1+2)*(3+4)").unwrap(), "21");
    assert_eq!(solved("7,5-(2)").unwrap(), "5.5");
}
