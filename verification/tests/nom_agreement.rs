//! The grammar of the library, written once more with the combinators of
//! `nom` and `nom-language`, must accept the same texts with the same results.

use nodice::expr::binop::Op;
use nodice::expr::expr::Expr;
use nom::branch::alt;
use nom::bytes::complete::tag;
use nom::character::complete::{char, i32, multispace0, u32};
use nom::combinator::{all_consuming, fail, opt};
use nom::error::{FromExternalError, ParseError};
use nom::sequence::{delimited, preceded};
use nom::{IResult, Parser};
use nom_language::precedence::{binary_op, precedence, Assoc, Operation};

fn ws<'a, O, E: ParseError<&'a str>, F>(inner: F) -> impl Parser<&'a str, Output = O, Error = E>
where
    F: Parser<&'a str, Output = O, Error = E>,
{
    delimited(multispace0, inner, multispace0)
}

fn expr(s: &str) -> IResult<&str, Expr> {
    let operand = alt((opt_repeat(alt((die, parens))), scalar));
    precedence(
        fail(),
        fail(),
        binary_op(2, Assoc::Left, op),
        operand,
        |op: Operation<(), (), Op, Expr>| match op {
            Operation::Binary(lhs, op, rhs) => Ok(op.apply(lhs, rhs)),
            Operation::Prefix(..) | Operation::Postfix(..) => Err("No prefix or postfix"),
        },
    )(s)
}

fn opt_repeat<'a, E, F>(inner: F) -> impl Parser<&'a str, Output = Expr, Error = E>
where
    E: ParseError<&'a str> + FromExternalError<&'a str, nodice::expr::Error>,
    F: Parser<&'a str, Output = Expr, Error = E>,
{
    (opt(u32), inner).map_res(|(repeat, expr)| {
        if let Some(repeat) = repeat {
            expr.repeat(repeat)
        } else {
            Ok(expr)
        }
    })
}

fn scalar(s: &str) -> IResult<&str, Expr> {
    i32.map(Expr::scalar).parse(s)
}

fn die(s: &str) -> IResult<&str, Expr> {
    preceded(tag("d"), u32).map(Expr::die).parse(s)
}

fn parens(s: &str) -> IResult<&str, Expr> {
    delimited(ws(char('(')), expr, ws(char(')'))).parse(s)
}

fn op(s: &str) -> IResult<&str, Op> {
    ws(alt((char('+').map(|_| Op::Add), char('-').map(|_| Op::Sub)))).parse(s)
}

fn reference(s: &str) -> Option<Expr> {
    all_consuming(ws(expr)).parse(s).ok().map(|(_, e)| e)
}

/// Where the reference parser stops on a text it refuses, in characters.
fn reference_stop(s: &str) -> Option<usize> {
    match all_consuming(ws(expr)).parse(s) {
        Ok(_) => None,
        Err(nom::Err::Error(e)) | Err(nom::Err::Failure(e)) => {
            let e: nom::error::Error<&str> = e;
            Some(s.chars().count() - e.input.chars().count())
        }
        Err(nom::Err::Incomplete(_)) => None,
    }
}

fn agree(s: &str) {
    assert_eq!(s.parse::<Expr>().ok(), reference(s), "{:?}", s);
    assert_eq!(s.parse::<Expr>().err().map(|e| e.position), reference_stop(s), "{:?}", s);
}

#[test]
fn agrees_on_all_short_texts() {
    let alphabet = ['d', '1', '0', '(', ')', '+', '-', ' '];
    let mut texts: Vec<String> = vec![String::new()];
    let mut frontier: Vec<String> = vec![String::new()];
    for _ in 0..6 {
        let mut next = Vec::new();
        for t in &frontier {
            for c in alphabet {
                let mut u = t.clone();
                u.push(c);
                next.push(u);
            }
        }
        texts.extend(next.iter().cloned());
        frontier = next;
    }
    for t in &texts {
        agree(t);
    }
}

#[test]
fn agrees_on_longer_texts() {
    for t in [
        "2(1d6 + 3(2d4 - d8))",
        " \n(  2d6\t-d4)\n+(\nd8 ) ",
        "4294967295d4294967295",
        "4294967296d6",
        "65536(65536(d6))",
        "65536(65535(d6))",
        "2147483647 - -2147483648",
        "+12 + +d",
        "3 (d6)",
        "3 ( d6 ) + 2\r\n",
        "d6 - (2d6 + d6) + 6",
        "((((1))))",
        "1(((2)))",
        "9d9d9",
        "d6 d6",
        "é",
        "１",
    ] {
        agree(t);
    }
}
