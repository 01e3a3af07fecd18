use poland::expr::eval;
use poland::expr::render;
use poland::parser::parse;
use poland::parser::parse_expr;
use poland::parser::parse_num;
use poland::parser::parse_op;
use poland::Expr;
use poland::ParseError;

#[test]
fn test_parse_num() {
    let c = "3 5";
    let (v, p) = parse_num(c.as_bytes(), 0).unwrap();
    assert_eq!(&c[p..], " 5");
    assert_eq!(v, Expr::Num(3));
}

#[test]
fn test_parse_op() {
    let c = "+ 2 3";
    let (v, p) = parse_op(c.as_bytes(), 0).unwrap();
    assert_eq!(&c[p..], "");
    assert_eq!(v, Expr::Add(Box::new(Expr::Num(2)), Box::new(Expr::Num(3))));
}

#[test]
fn test_parse_expr() {
    let c = "* + 2 3 4";
    let (v, p) = parse_expr(c.as_bytes(), 0).unwrap();
    assert_eq!(&c[p..], "");
    assert_eq!(
        v,
        Expr::Mul(
            Box::new(Expr::Add(Box::new(Expr::Num(2)), Box::new(Expr::Num(3)))),
            Box::new(Expr::Num(4))
        )
    );
}

#[test]
fn scenario_single_number() {
    let e = parse("3".as_bytes()).unwrap();
    assert_eq!(e, Expr::Num(3));
    assert_eq!(eval(&e), 3);
}

#[test]
fn scenario_addition() {
    let e = parse("+ 2 3".as_bytes()).unwrap();
    assert_eq!(e, Expr::Add(Box::new(Expr::Num(2)), Box::new(Expr::Num(3))));
    assert_eq!(eval(&e), 5);
}

#[test]
fn scenario_nested() {
    let e = parse("* + 2 3 4".as_bytes()).unwrap();
    assert_eq!(
        e,
        Expr::Mul(
            Box::new(Expr::Add(Box::new(Expr::Num(2)), Box::new(Expr::Num(3)))),
            Box::new(Expr::Num(4))
        )
    );
    assert_eq!(eval(&e), 20);
}

#[test]
fn scenario_missing_operand() {
    assert_eq!(parse("+ 2".as_bytes()), Err(ParseError::UnexpectedToken));
}

#[test]
fn scenario_unknown_operator() {
    assert_eq!(parse("-".as_bytes()), Err(ParseError::UnexpectedToken));
}

#[test]
fn empty_line_is_rejected() {
    assert_eq!(parse("".as_bytes()), Err(ParseError::UnexpectedToken));
}

#[test]
fn leading_spaces_are_skipped() {
    assert_eq!(parse("   42".as_bytes()), Ok(Expr::Num(42)));
    assert_eq!(
        parse("+   2  3".as_bytes()),
        Ok(Expr::Add(Box::new(Expr::Num(2)), Box::new(Expr::Num(3))))
    );
}

#[test]
fn trailing_text_is_ignored() {
    assert_eq!(parse("3 garbage".as_bytes()), Ok(Expr::Num(3)));
}

#[test]
fn parse_num_needs_a_digit() {
    assert_eq!(parse_num("abc".as_bytes(), 0), Err(ParseError::InvalidNumber));
    assert_eq!(parse_num("".as_bytes(), 0), Err(ParseError::InvalidNumber));
}

#[test]
fn parse_num_largest_value() {
    let c = "18446744073709551615";
    let (v, p) = parse_num(c.as_bytes(), 0).unwrap();
    assert_eq!(v, Expr::Num(u64::MAX));
    assert_eq!(p, c.len());
}

#[test]
fn parse_num_overflow_is_rejected() {
    let c = "18446744073709551616";
    assert_eq!(parse_num(c.as_bytes(), 0), Err(ParseError::InvalidNumber));
    assert_eq!(parse(c.as_bytes()), Err(ParseError::InvalidNumber));
}

#[test]
fn eval_add_exact() {
    let e = Expr::Add(Box::new(Expr::Num(1000)), Box::new(Expr::Num(234)));
    assert_eq!(eval(&e), 1234);
}

#[test]
fn eval_mul_exact() {
    let e = Expr::Mul(Box::new(Expr::Num(6)), Box::new(Expr::Num(7)));
    assert_eq!(eval(&e), 42);
}

#[test]
fn eval_wraps_on_overflow() {
    let e = Expr::Add(Box::new(Expr::Num(u64::MAX)), Box::new(Expr::Num(1)));
    assert_eq!(eval(&e), 0);
    let e = Expr::Mul(Box::new(Expr::Num(1 << 32)), Box::new(Expr::Num(1 << 32)));
    assert_eq!(eval(&e), 0);
}

#[test]
fn render_gives_prefix_text() {
    let e = Expr::Add(Box::new(Expr::Num(10)), Box::new(Expr::Num(7)));
    assert_eq!(render(&e), "+ 10 7".as_bytes());
    assert_eq!(render(&Expr::Num(0)), "0".as_bytes());
}

#[test]
fn render_parse_round_trip() {
    let e = Expr::Mul(
        Box::new(Expr::Add(Box::new(Expr::Num(2)), Box::new(Expr::Num(3)))),
        Box::new(Expr::Num(4)),
    );
    let text = render(&e);
    assert_eq!(text, "* + 2 3 4".as_bytes());
    assert_eq!(parse(&text), Ok(e));
    let e = Expr::Num(18446744073709551615);
    assert_eq!(parse(&render(&e)), Ok(e));
}

#[test]
fn composed_texts_parse_to_operator_nodes() {
    let e = parse("+ * 2 3 4".as_bytes()).unwrap();
    assert_eq!(
        e,
        Expr::Add(
            Box::new(Expr::Mul(Box::new(Expr::Num(2)), Box::new(Expr::Num(3)))),
            Box::new(Expr::Num(4))
        )
    );
    assert_eq!(eval(&e), 10);
}
