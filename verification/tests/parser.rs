use nodice::expr::parser::{ParseError, ParseErrorKind};
use nodice::expr::expr::Expr;

fn parse_ok(s: &str, expected: Expr) {
    match s.parse::<Expr>() {
        Ok(got) => assert_eq!(got, expected, "{}", s),
        Err(err) => panic!("{}: {:?}", s, err),
    }
}

fn d(n: u32) -> Expr {
    Expr::die(n)
}

fn r(e: impl Into<Expr>, n: u32) -> Expr {
    e.into().repeat(n).unwrap()
}

#[test]
fn scalar_ok() {
    parse_ok("6", 6.into());
}

#[test]
fn bare_die_ok() {
    parse_ok("d6", d(6));
}

#[test]
fn repeat_die_ok() {
    parse_ok("1d6", r(d(6), 1));
    parse_ok("2d6", r(d(6), 2));
}

#[test]
fn binop_ok() {
    parse_ok("1d6 + 2d4", r(d(6), 1) + r(d(4), 2));
    parse_ok("2d6 - d2", r(d(6), 2) - d(2));
    parse_ok("2d6 - 2", r(d(6), 2) - 2.into());
}

#[test]
fn binop_left_assoc() {
    parse_ok("d1 - d2 + d3", (d(1) - d(2)) + d(3));
    parse_ok("(d1 - d2) + d3", (d(1) - d(2)) + d(3));
    parse_ok("d1 - (d2 + d3)", d(1) - (d(2) + d(3)));
}

#[test]
fn parens_ok() {
    parse_ok("(d6)", d(6));
    parse_ok("((d6))", d(6));
    parse_ok("(1d6)", r(d(6), 1));
    parse_ok("(1d6 + 2d4)", r(d(6), 1) + r(d(4), 2));
    parse_ok("(1d6 + 2d4) - d8", r(d(6), 1) + r(d(4), 2) - d(8));
    parse_ok("1d6 + (2d4 - d8)", r(d(6), 1) + (r(d(4), 2) - d(8)));
}

#[test]
fn repeat_parens_ok() {
    parse_ok("2(6)", r(6, 2));
    parse_ok("2(d6)", r(d(6), 2));
    parse_ok("2((d6))", r(d(6), 2));
    parse_ok("2(3d6)", r(d(6), 6));
    parse_ok("2(3(4d6))", r(d(6), 24));
    parse_ok("2(1d6 + 2d4)", r(r(d(6), 1) + r(d(4), 2), 2));
    parse_ok("2(1d6 + 2d4) - d8", r(r(d(6), 1) + r(d(4), 2), 2) - d(8));
    parse_ok(
        "2(1d6 + 3(2d4 - d8))",
        r(r(d(6), 1) + r(r(d(4), 2) - d(8), 3), 2),
    );
}

#[test]
fn ws_ok() {
    parse_ok(" \t2d6", r(d(6), 2));
    parse_ok("2d6\n ", r(d(6), 2));
    parse_ok(" \n2d6\t ", r(d(6), 2));
    parse_ok(" \n(  2d6\t) ", r(d(6), 2));
    parse_ok(" \n(  2d6\t-d4)\n+(\nd8 ) ", r(d(6), 2) - d(4) + d(8));
}

#[test]
fn empty_err() {
    assert!("".parse::<Expr>().is_err());
}

#[test]
fn missing_sides_err() {
    assert!("d".parse::<Expr>().is_err());
    assert!("1d".parse::<Expr>().is_err());
}

#[test]
fn space_before_sides_err() {
    assert!("d 6".parse::<Expr>().is_err());
}

#[test]
fn space_after_repeat_err() {
    assert!("1 d6".parse::<Expr>().is_err());
}

#[test]
fn invalid_char() {
    assert!("x".parse::<Expr>().is_err());
}

#[test]
fn signed_constants_ok() {
    parse_ok("-5", (-5).into());
    parse_ok("+5", 5.into());
    parse_ok("d6 - -5", d(6) - (-5).into());
    parse_ok("-2147483648", i32::MIN.into());
    parse_ok("007", 7.into());
}

#[test]
fn space_between_count_and_parens_ok() {
    parse_ok("2 (d6)", r(d(6), 2));
}

#[test]
fn number_limits_err() {
    assert!("2147483648".parse::<Expr>().is_err());
    assert!("-2147483649".parse::<Expr>().is_err());
    assert!("d4294967296".parse::<Expr>().is_err());
    assert!("4294967296d6".parse::<Expr>().is_err());
    assert!("65536(65536(d6))".parse::<Expr>().is_err());
}

#[test]
fn dangling_operator_err() {
    assert!("d6 +".parse::<Expr>().is_err());
    assert!("(d6 +)".parse::<Expr>().is_err());
    assert!("d6 + + d4".parse::<Expr>().is_err());
    assert!("(d6".parse::<Expr>().is_err());
    assert!("d6)".parse::<Expr>().is_err());
}

#[test]
fn parse_errors_say_where() {
    assert_eq!(
        "d6 x".parse::<Expr>(),
        Err(ParseError { position: 3, kind: ParseErrorKind::End })
    );
    assert_eq!(
        "  x".parse::<Expr>(),
        Err(ParseError { position: 2, kind: ParseErrorKind::Operand })
    );
    assert_eq!(
        "".parse::<Expr>(),
        Err(ParseError { position: 0, kind: ParseErrorKind::Operand })
    );
    assert_eq!(
        "d6)".parse::<Expr>(),
        Err(ParseError { position: 2, kind: ParseErrorKind::End })
    );
    assert_eq!(
        "d6 + ".parse::<Expr>(),
        Err(ParseError { position: 5, kind: ParseErrorKind::Operand })
    );
    assert_eq!(
        "d6 + 2 - x".parse::<Expr>(),
        Err(ParseError { position: 9, kind: ParseErrorKind::Operand })
    );
    assert_eq!(
        "(d6 +)".parse::<Expr>(),
        Err(ParseError { position: 0, kind: ParseErrorKind::Operand })
    );
}
