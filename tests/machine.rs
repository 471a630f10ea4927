use rpn_calc::{compile, reduce, CalcError, Expr, ExprParser, Num, Op, Rpn, Term};

fn num(text: &str) -> Expr {
    Expr::Num(Num(text.as_bytes().to_vec()))
}

fn lit(k: usize) -> Box<Term> {
    Box::new(Term::Lit(k))
}

#[test]
fn parse_splits_on_spaces_and_classifies() {
    let tokens = ExprParser { input: "12 3.5 + - * / %" }.parse();
    assert_eq!(
        tokens,
        vec![
            num("12"),
            num("3.5"),
            Expr::Op(Op::Add),
            Expr::Op(Op::Sub),
            Expr::Op(Op::Mul),
            Expr::Op(Op::Div),
            num("%"),
        ]
    );
}

#[test]
fn parse_of_empty_input_is_zero() {
    assert_eq!(ExprParser { input: "" }.parse(), vec![num("0")]);
}

#[test]
fn parse_of_blank_input_is_zero() {
    assert_eq!(ExprParser { input: "  \t " }.parse(), vec![num("0")]);
}

#[test]
fn parse_skips_empty_pieces() {
    assert_eq!(
        ExprParser { input: " 1  2 + " }.parse(),
        vec![num("1"), num("2"), Expr::Op(Op::Add)]
    );
}

#[test]
fn parse_keeps_longer_symbol_words_as_literals() {
    assert_eq!(ExprParser { input: "++ -1" }.parse(), vec![num("++"), num("-1")]);
}

#[test]
fn op_from_symbol() {
    assert_eq!(Op::from_symbol(b"+"), Some(Op::Add));
    assert_eq!(Op::from_symbol(b"-"), Some(Op::Sub));
    assert_eq!(Op::from_symbol(b"*"), Some(Op::Mul));
    assert_eq!(Op::from_symbol(b"/"), Some(Op::Div));
    assert_eq!(Op::from_symbol(b"%"), None);
    assert_eq!(Op::from_symbol(b""), None);
}

#[test]
fn last_value_wins() {
    assert_eq!(compile("1 2 3"), Ok(Term::Lit(2)));
}

#[test]
fn operator_takes_second_from_top_as_left() {
    assert_eq!(compile("1 3 -"), Ok(Term::Bin(Op::Sub, lit(0), lit(1))));
}

#[test]
fn sum_adds_each_literal_once_in_order() {
    assert_eq!(
        compile("1 2 3 + +"),
        Ok(Term::Bin(
            Op::Add,
            lit(0),
            Box::new(Term::Bin(Op::Add, lit(1), lit(2)))
        ))
    );
    assert_eq!(
        compile("1 1 + 1 +"),
        Ok(Term::Bin(
            Op::Add,
            Box::new(Term::Bin(Op::Add, lit(0), lit(1))),
            lit(2)
        ))
    );
}

#[test]
fn underflow_is_an_error() {
    assert_eq!(compile("1 + +"), Err(CalcError::StackUnderflow));
    assert_eq!(compile("+"), Err(CalcError::StackUnderflow));
}

#[test]
fn no_tokens_is_empty_result() {
    assert_eq!(reduce(Vec::new()), Err(CalcError::EmptyResult));
}

#[test]
fn empty_input_is_the_literal_zero() {
    assert_eq!(compile(""), Ok(Term::Lit(0)));
}

#[test]
fn machine_push_and_finish() {
    let mut rpn = Rpn::new();
    assert_eq!(rpn.push(num("4")), Ok(()));
    assert_eq!(rpn.push(Expr::Op(Op::Div)), Err(CalcError::StackUnderflow));
    assert_eq!(rpn.push(num("2")), Ok(()));
    assert_eq!(rpn.push(Expr::Op(Op::Div)), Ok(()));
    assert_eq!(rpn.finish(), Ok(Term::Bin(Op::Div, lit(0), lit(1))));
}

#[test]
fn empty_machine_has_no_result() {
    assert_eq!(Rpn::new().finish(), Err(CalcError::EmptyResult));
}
