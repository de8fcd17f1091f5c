use nodice::expr::expr::Expr;
use nodice::expr::Error;

fn check_simplify(text: &str, expected: &str) {
    let expr = text.parse::<Expr>().unwrap();
    let got = expr.simplify().unwrap().to_string();
    assert_eq!(got, expected);
}

#[test]
fn simplify_repeat() {
    check_simplify("2(3)", "6");
    check_simplify("2(3(4))", "24");
    check_simplify("2(3d6)", "6d6");
    check_simplify("2(d6 + 2d8)", "2d6 + 4d8");
    check_simplify("2(1 - 3(d6 + 2d8))", "2 - (6d6 + 12d8)");
}

#[test]
fn simplify_repeat_0() {
    check_simplify("0d6", "0");
    check_simplify("2(0d6)", "0");
    check_simplify("0d6 + 1", "1");
    check_simplify("0(1d6 + 1)", "0");
}

#[test]
fn simplify_constants() {
    check_simplify("6", "6");
    check_simplify("6 + 1", "7");
    check_simplify("6 - 2 + 1", "5");
    check_simplify("6 - (2 + 1)", "3");
    check_simplify("6 - (2 + 1) + d6", "3 + d6");
}

#[test]
fn simplify_dice() {
    check_simplify("6d6", "6d6");
    check_simplify("6d6 + d6", "7d6");
    check_simplify("6d6 - 2d6 + d6", "5d6");
    check_simplify("6d6 - (2d6 + d6)", "3d6");
    check_simplify("6d6 - (2d6 + d6) + 6", "3d6 + 6");
    check_simplify("d6 + d4", "d6 + d4");
    check_simplify("d6 - d6", "d6 - d6");
    check_simplify("d6 - 2d6", "d6 - 2d6");
}

#[test]
fn simplify_twice_is_once() {
    for text in ["2(1 - 3(d6 + 2d8))", "6d6 - (2d6 + d6) + 6", "d6 - 2d6 + d6", "0(d4) + 3(2 - 5)"] {
        let once = text.parse::<Expr>().unwrap().simplify().unwrap();
        let twice = once.clone().simplify().unwrap();
        assert_eq!(once, twice, "{}", text);
    }
}

#[test]
fn simplify_keeps_bounds_without_dice_differences() {
    for text in ["2(1 - 3(d6 + 2d8))", "6d6 + d6 + 3", "2(d4 + 2d4) - 7"] {
        let e = text.parse::<Expr>().unwrap();
        let s = e.clone().simplify().unwrap();
        assert_eq!(e.min(), s.min(), "{}", text);
        assert_eq!(e.max(), s.max(), "{}", text);
    }
}

#[test]
fn simplify_narrows_dice_differences() {
    let e = "2d6 - d6".parse::<Expr>().unwrap();
    let s = e.clone().simplify().unwrap();
    assert_eq!(s.to_string(), "d6");
    assert_eq!(e.min(), Ok(-4));
    assert_eq!(e.max(), Ok(11));
    assert_eq!(s.min(), Ok(1));
    assert_eq!(s.max(), Ok(6));
}

#[test]
fn simplify_overflow_err() {
    let e = "3(2147483647)".parse::<Expr>().unwrap();
    assert_eq!(e.simplify(), Err(Error::Overflow));
    let e = "4294967295d6 + d6".parse::<Expr>().unwrap();
    assert_eq!(e.simplify(), Err(Error::Overflow));
    let e = "2147483648(0)".parse::<Expr>().unwrap();
    assert_eq!(e.simplify(), Err(Error::Overflow));
}

#[test]
fn simplify_keeps_min_and_max_results() {
    for text in ["2(d6 + 3) - d4", "3(2d4 - d8) + 2d4", "2(1d6 + 3(2d4 - d8))", "d6 - 2d6", "5 - 3 + 0(d4)"] {
        let e = text.parse::<Expr>().unwrap();
        let s = e.clone().simplify().unwrap();
        assert_eq!(s.min(), e.min(), "{}", text);
        assert_eq!(s.max(), e.max(), "{}", text);
    }
    let e = "2d6 - d6".parse::<Expr>().unwrap();
    let s = e.clone().simplify().unwrap();
    assert_eq!((s.min(), s.max()), (Ok(1), Ok(6)));
    assert_eq!((e.min(), e.max()), (Ok(-4), Ok(11)));
}
