use shunting_yard::{convert_to_rpn, solve, Expr, ShuntingYardError};

fn value(e: &Expr) -> f64 {
    match e {
        Expr::Number(digits) => digits.iter().collect::<String>().parse::<f64>().unwrap(),
        Expr::Apply(op, a, b) => {
            let (a, b) = (value(a), value(b));
            match op {
                '+' => a + b,
                '-' => a - b,
                '*' => a * b,
                '/' => a / b,
                '^' => a.powf(b),
                _ => panic!("not an operator: {}", op),
            }
        }
    }
}

fn solved(equation: &str) -> Result<String, ShuntingYardError> {
    solve(equation.to_string()).map(|e| value(&e).to_string())
}

#[test]
fn test_no_parenthesis() {
    assert_eq!(convert_to_rpn("1+2".to_string()).unwrap(), "1 2 +");
    assert_eq!(convert_to_rpn("1+2*3".to_string()).unwrap(), "1 2 3 * +");
    assert_eq!(convert_to_rpn("1+2*3^4".to_string()).unwrap(), "1 2 3 4 ^ * +");
    assert_eq!(convert_to_rpn("1+2*3^4-5".to_string()).unwrap(), "1 2 3 4 ^ * + 5 -");
    assert_eq!(
        convert_to_rpn("1+2*3^4-5/6".to_string()).unwrap(),
        "1 2 3 4 ^ * + 5 6 / -"
    );
    assert_eq!(
        convert_to_rpn("1+2*3^4-5/6+7".to_string()).unwrap(),
        "1 2 3 4 ^ * + 5 6 / - 7 +"
    );
    assert_eq!(
        convert_to_rpn("1+2*3^4-5/6+7*8".to_string()).unwrap(),
        "1 2 3 4 ^ * + 5 6 / - 7 8 * +"
    );
    assert_eq!(
        convert_to_rpn("1+2*3^4-5/6+7*8-9".to_string()).unwrap(),
        "1 2 3 4 ^ * + 5 6 / - 7 8 * + 9 -"
    );
    assert_eq!(
        convert_to_rpn("1+2*3^4-5/6+7*8-9/10".to_string()).unwrap(),
        "1 2 3 4 ^ * + 5 6 / - 7 8 * + 9 10 / -"
    );
    assert_eq!(
        convert_to_rpn("1+2*3^4-5/6+7*8-9/10+11".to_string()).unwrap(),
        "1 2 3 4 ^ * + 5 6 / - 7 8 * + 9 10 / - 11 +"
    );
}

#[test]
fn test_parenthesis() {
    assert_eq!(convert_to_rpn("1+(2)".to_string()).unwrap(), "1 2 +");
    assert_eq!(convert_to_rpn("1+(2*3)".to_string()).unwrap(), "1 2 3 * +");
    assert_eq!(convert_to_rpn("1+(2*3)^4".to_string()).unwrap(), "1 2 3 * 4 ^ +");
    assert_eq!(convert_to_rpn("1+(2*3)^4-5".to_string()).unwrap(), "1 2 3 * 4 ^ + 5 -");
    assert_eq!(
        convert_to_rpn("1+(2*3)^4-5/6".to_string()).unwrap(),
        "1 2 3 * 4 ^ + 5 6 / -"
    );
    assert_eq!(
        convert_to_rpn("1+(2*3)^4-5/6+7".to_string()).unwrap(),
        "1 2 3 * 4 ^ + 5 6 / - 7 +"
    );
    assert_eq!(
        convert_to_rpn("1+(2*3)^4-5/6+7*8".to_string()).unwrap(),
        "1 2 3 * 4 ^ + 5 6 / - 7 8 * +"
    );
    assert_eq!(
        convert_to_rpn("1+(2*3)^4-5/6+7*8-9".to_string()).unwrap(),
        "1 2 3 * 4 ^ + 5 6 / - 7 8 * + 9 -"
    );
    assert_eq!(
        convert_to_rpn("1+(2*3)^4-5/6+7*8-9/10".to_string()).unwrap(),
        "1 2 3 * 4 ^ + 5 6 / - 7 8 * + 9 10 / -"
    );
    assert_eq!(
        convert_to_rpn("1+(2*3)^4-5/6+7*8-9/10+11".to_string()).unwrap(),
        "1 2 3 * 4 ^ + 5 6 / - 7 8 * + 9 10 / - 11 +"
    );
    assert_eq!(
        convert_to_rpn("3 + 4 * 2 / ( 1 - 5 ) ^ 2 ^ 3".to_string()).unwrap(),
        "3 4 2 * 1 5 - 2 3 ^ ^ / +"
    );
}

#[test]
fn test_solve() {
    assert_eq!(solved("1+2").unwrap(), "3");
    assert_eq!(solved("1+2*3").unwrap(), "7");
    assert_eq!(solved("1+2*3^4").unwrap(), "163");
    assert_eq!(solved("1+2*3^4-5").unwrap(), "158");
    assert_eq!(solved("3-2+22/(33-33)").unwrap(), "inf"); // division by zero
    assert_eq!(solved("219*(3-2+2/(33-34))/9").unwrap(), "-24.333333333333332");
    assert_eq!(solved("0.5*(3-2+2/(33-34))/9").unwrap(), "-0.05555555555555555");
    assert_eq!(
        solved("0.5*(3-2+8*2/(0.123452231-34))/9-0.112238912").unwrap(),
        "-0.08292241996857071"
    );
    assert_eq!(
        solved("0.5*(3-2+8*2/(0.123452231-34))/9-.112238912").unwrap(),
        "-0.08292241996857071"
    );
}
