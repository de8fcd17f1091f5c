use nodice::expr::binop::{BinOp, Op};
use nodice::expr::die::Die;
use nodice::expr::expr::Expr;
use nodice::expr::scalar::Scalar;

fn check_display(text: &str, expected: &str) {
    let expr = text.parse::<Expr>().unwrap();
    let got = expr.to_string();
    assert_eq!(got, expected, "{} -> {:?}", text, expr);
}

fn roundtrip(expr: Expr) {
    let s = expr.to_string();
    match s.parse::<Expr>() {
        Ok(got) => assert_eq!(got, expr, "{:?} -> {}", expr, s),
        Err(err) => panic!("{:?} -> {} -> {:?}", expr, s, err),
    }
}

#[test]
fn display_scalar() {
    check_display("6", "6");
    check_display("(6)", "6");
    check_display("1(6)", "6");
}

#[test]
fn display_die() {
    check_display("d6", "d6");
    check_display("1d6", "d6");
    check_display("(1d6)", "d6");
    check_display("1(d6)", "d6");
}

#[test]
fn display_binop() {
    check_display("d6 + d4", "d6 + d4");
    check_display("(d6 + d4)", "d6 + d4");
    check_display("2(d6 + d4)", "2(d6 + d4)");
    check_display("d6 + d2 + d4", "d6 + d2 + d4");
    check_display("d6 + (d2 + d4)", "d6 + (d2 + d4)");
    check_display("d6 + 2(d2 + d4)", "d6 + 2(d2 + d4)");
    check_display("(d6 + d2) + d4", "d6 + d2 + d4");
    check_display("2(d6 + d2) + d4", "2(d6 + d2) + d4");
}

#[test]
fn display_parts() {
    assert_eq!(Die::new(20).to_string(), "d20");
    assert_eq!(Scalar::new(-7).to_string(), "-7");
    assert_eq!(Op::Sub.to_string(), "-");
    let b = BinOp::add(Box::new(Expr::die(6)), Box::new(Expr::scalar(2)));
    assert_eq!(b.to_string(), "d6 + 2");
    assert_eq!(Expr::scalar(-3).repeat(4).unwrap().to_string(), "4(-3)");
    assert_eq!(Expr::die(8).repeat(0).unwrap().to_string(), "0d8");
}

#[test]
fn display_roundtrip_examples() {
    let d = Expr::die;
    let s = Expr::scalar;
    roundtrip(s(i32::MIN));
    roundtrip(s(-1) - s(-2));
    roundtrip(s(5).repeat(3).unwrap() + d(0));
    roundtrip((d(6) - (d(4) + s(2))).repeat(7).unwrap() - s(0).repeat(0).unwrap());
    roundtrip(d(u32::MAX).repeat(u32::MAX).unwrap());
    roundtrip((d(1) + d(2)) + ((d(3) - s(4)) - (s(5) + d(6)).repeat(2).unwrap()));
}
