use rpn_calc::{reduce, CalcError, Expr, ExprParser, Num, Op, Term};

fn literal_values(tokens: &[Expr]) -> Result<Vec<f32>, CalcError> {
    let mut values = Vec::new();
    for token in tokens {
        if let Expr::Num(Num(text)) = token {
            match std::str::from_utf8(text).ok().and_then(|s| s.parse::<f32>().ok()) {
                Some(v) => values.push(v),
                None => return Err(CalcError::MalformedToken),
            }
        }
    }
    Ok(values)
}

fn value(term: &Term, values: &[f32]) -> f32 {
    match term {
        Term::Lit(k) => values[*k],
        Term::Bin(op, lhs, mhs) => {
            let (l, r) = (value(lhs, values), value(mhs, values));
            match op {
                Op::Add => l + r,
                Op::Sub => l - r,
                Op::Mul => l * r,
                Op::Div => l / r,
            }
        }
    }
}

fn calculate(expression: &str) -> Result<f32, CalcError> {
    let tokens = ExprParser { input: expression }.parse();
    let values = literal_values(&tokens)?;
    let term = reduce(tokens)?;
    Ok(value(&term, &values))
}

#[test]
fn test_should_work_for_an_empty_string() {
    assert!((calculate("").unwrap() - 0.0).abs() < 1e-7);
}

#[test]
fn test_should_parse_numbers() {
    assert!((calculate("1 2 3").unwrap() - 3.0).abs() < 1e-7);
}

#[test]
fn test_should_parse_floats() {
    assert!((calculate("1 2 3.5").unwrap() - 3.5).abs() < 1e-7);
}

#[test]
fn test_should_support_addition() {
    assert!((calculate("1 3 +").unwrap() - 4.0).abs() < 1e-7);
}

#[test]
fn test_should_support_multiplication() {
    assert!((calculate("1 3 *").unwrap() - 3.0).abs() < 1e-7);
}

#[test]
fn test_should_support_subtraction() {
    assert!((calculate("1 3 -").unwrap() - -2.0).abs() < 1e-7);
}

#[test]
fn test_should_support_division() {
    assert!((calculate("4 2 /").unwrap() - 2.0).abs() < 1e-7);
}

#[test]
fn division_by_zero_is_infinite() {
    let v = calculate("1 0 /").unwrap();
    assert!(v.is_infinite() && v > 0.0);
}

#[test]
fn two_operators_after_one_number_underflow() {
    assert_eq!(calculate("1 + +"), Err(CalcError::StackUnderflow));
}

#[test]
fn unknown_symbol_is_malformed() {
    assert_eq!(calculate("1 2 %"), Err(CalcError::MalformedToken));
}

#[test]
fn malformed_token_is_reported_before_underflow() {
    assert_eq!(calculate("x +"), Err(CalcError::MalformedToken));
}

#[test]
fn sum_of_many_numbers() {
    assert!((calculate("1 2 3 4 + + +").unwrap() - 10.0).abs() < 1e-7);
    assert!((calculate("1 1 + 1 + 1 + 1 +").unwrap() - 5.0).abs() < 1e-7);
}

#[test]
fn operands_are_taken_left_then_right() {
    assert!((calculate("10 4 -").unwrap() - 6.0).abs() < 1e-7);
    assert!((calculate("1 8 /").unwrap() - 0.125).abs() < 1e-7);
    assert!((calculate("2 3 4 * -").unwrap() - -10.0).abs() < 1e-7);
}
