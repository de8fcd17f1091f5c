use nodice::expr::binop::BinOp;
use nodice::expr::die::Die;
use nodice::expr::expr::Expr;
use nodice::expr::scalar::Scalar;
use nodice::expr::Error;
use nodice::stats::Distribution;

fn sorted_values(d: Distribution) -> Vec<i128> {
    let mut v = d.into_iter();
    v.sort();
    v
}

fn sorted_tallies(d: &Distribution) -> Vec<(i128, usize)> {
    let mut v = d.iter();
    v.sort();
    v
}

/// The mean of the equally likely outcomes.
fn mean(d: &Distribution) -> f64 {
    let v = d.clone().into_iter();
    v.iter().map(|x| *x as f64).sum::<f64>() / v.len() as f64
}

/// The variance of the equally likely outcomes.
fn variance(d: &Distribution) -> f64 {
    let m = mean(d);
    let v = d.clone().into_iter();
    v.iter().map(|x| (*x as f64 - m) * (*x as f64 - m)).sum::<f64>() / v.len() as f64
}

fn std_deviation(d: &Distribution) -> f64 {
    variance(d).sqrt()
}

fn assert_close(a: f64, b: f64) {
    assert!((a - b).abs() <= 1e-9 * b.abs().max(1.0), "{} != {}", a, b);
}

#[test]
fn d6_add_d4() {
    let d1 = Die::new(6);
    let d2 = Die::new(4);
    let e = BinOp::add(Box::new(d1.into()), Box::new(d2.into()));
    assert_eq!(e.min().unwrap(), 2);
    assert_eq!(e.max().unwrap(), 10);
    let d = e.distribution().unwrap();
    assert_close(mean(&d), 6.0);
    assert_close(variance(&d), 50.0f64 / 12.0);
    assert_close(std_deviation(&d), (50.0f64 / 12.0).sqrt());
    assert_eq!(
        sorted_values(e.distribution().unwrap()),
        vec![2, 3, 3, 4, 4, 4, 5, 5, 5, 5, 6, 6, 6, 6, 7, 7, 7, 7, 8, 8, 8, 9, 9, 10]
    );
}

#[test]
fn d6_sub_d4() {
    let d1 = Die::new(6);
    let d2 = Die::new(4);
    let e = BinOp::sub(Box::new(d1.into()), Box::new(d2.into()));
    assert_eq!(e.min().unwrap(), -3);
    assert_eq!(e.max().unwrap(), 5);
    let d = e.distribution().unwrap();
    assert_close(mean(&d), 1.0);
    assert_close(variance(&d), 50.0f64 / 12.0);
    assert_close(std_deviation(&d), (50.0f64 / 12.0).sqrt());
    assert_eq!(
        sorted_values(e.distribution().unwrap()),
        vec![-3, -2, -2, -1, -1, -1, 0, 0, 0, 0, 1, 1, 1, 1, 2, 2, 2, 2, 3, 3, 3, 4, 4, 5]
    );
}

#[test]
fn zero() {
    let d = Die::new(0);
    assert_eq!(d.min().unwrap(), 0);
    assert_eq!(d.max().unwrap(), 0);
    let dist = d.distribution().unwrap();
    assert_close(mean(&dist), 0.0);
    assert_close(variance(&dist), 0.0);
    assert_close(std_deviation(&dist), 0.0);
    assert_eq!(sorted_tallies(&d.distribution().unwrap()), vec![(0, 1)]);
}

#[test]
fn d6() {
    let d = Die::new(6);
    assert_eq!(d.min().unwrap(), 1);
    assert_eq!(d.max().unwrap(), 6);
    let dist = d.distribution().unwrap();
    assert_close(mean(&dist), 3.5);
    assert_close(variance(&dist), 35.0f64 / 12.0);
    assert_close(std_deviation(&dist), (35.0f64 / 12.0).sqrt());
    assert_eq!(
        sorted_tallies(&d.distribution().unwrap()),
        vec![(1, 1), (2, 1), (3, 1), (4, 1), (5, 1), (6, 1)]
    );
}

#[test]
fn two() {
    let v = Scalar::new(2);
    assert_eq!(v.min().unwrap(), 2);
    assert_eq!(v.max().unwrap(), 2);
    let dist = v.distribution().unwrap();
    assert_close(mean(&dist), 2.0);
    assert_close(variance(&dist), 0.0);
    assert_close(std_deviation(&dist), 0.0);
    assert_eq!(sorted_values(v.distribution().unwrap()), vec![2]);
}

#[test]
fn two_d6() {
    let d = Expr::die(6).repeat(2).unwrap();
    assert_eq!(d.min().unwrap(), 2);
    assert_eq!(d.max().unwrap(), 12);
    let dist = d.distribution().unwrap();
    assert_close(mean(&dist), 7.0);
    assert_close(variance(&dist), 70.0f64 / 12.0);
    assert_close(std_deviation(&dist), (70.0f64 / 12.0).sqrt());
    assert_eq!(
        sorted_tallies(&d.distribution().unwrap()),
        vec![
            (2, 1),
            (3, 2),
            (4, 3),
            (5, 4),
            (6, 5),
            (7, 6),
            (8, 5),
            (9, 4),
            (10, 3),
            (11, 2),
            (12, 1)
        ]
    );
}

#[test]
fn distribution_min_max() {
    let d = Distribution(vec![3, -1, 7, -1]);
    assert_eq!(d.min(), Ok(-1));
    assert_eq!(d.max(), Ok(7));
    assert_eq!(sorted_tallies(&d), vec![(-1, 2), (3, 1), (7, 1)]);
    let empty = Distribution(vec![]);
    assert_eq!(empty.min(), Err(Error::EmptyDistribution));
    assert_eq!(empty.max(), Err(Error::EmptyDistribution));
}

#[test]
fn distribution_overflow() {
    let a = Distribution(vec![i128::MAX]);
    let b = Distribution(vec![0, 1]);
    assert_eq!(a.add(b).map(|d| d.into_iter()), Err(Error::Overflow));
    let a = Distribution(vec![i128::MIN]);
    let b = Distribution(vec![1]);
    assert_eq!(a.sub(b).map(|d| d.into_iter()), Err(Error::Overflow));
}

#[test]
fn combine_order() {
    let a = Distribution(vec![10, 20]);
    let b = Distribution(vec![1, 2, 3]);
    assert_eq!(a.add(b).unwrap().into_iter(), vec![11, 12, 13, 21, 22, 23]);
}

#[test]
fn roll_in_bounds() {
    for text in ["3d6 + 2", "d20 - 2d4", "0d6", "d0", "2(d4 - 3) + 5d2", "-7"] {
        let e = text.parse::<Expr>().unwrap();
        let lo = e.min().unwrap();
        let hi = e.max().unwrap();
        for _ in 0..200 {
            let v = e.roll().unwrap();
            assert!(lo <= v && v <= hi, "{}: {} <= {} <= {}", text, lo, v, hi);
        }
    }
}

#[test]
fn min_max_overflow() {
    let big = Expr::die(u32::MAX).repeat(u32::MAX).unwrap();
    let e = (big.clone() + big).repeat(u32::MAX).unwrap();
    let e = (e.clone() + e).repeat(u32::MAX).unwrap();
    assert_eq!(e.max(), Err(Error::Overflow));
    assert!(e.min().is_ok());
}

#[test]
fn repeat_overflow() {
    let e = Expr::die(6).repeat(65536).unwrap();
    assert_eq!(e.repeat(65536), Err(Error::Overflow));
}

#[test]
fn distribution_matches_bounds() {
    for text in ["2(d6 - d4)", "d8 + 2d3 - 5", "2(2d2 + 1)", "3d6", "0d6", "3(d4 - 2) + 0(d3)"] {
        let e = text.parse::<Expr>().unwrap();
        let d = e.distribution().unwrap();
        assert_eq!(d.min(), e.min(), "{}", text);
        assert_eq!(d.max(), e.max(), "{}", text);
    }
}

#[test]
fn distribution_sums_each_roll() {
    let d = Expr::die(2).repeat(3).unwrap().distribution().unwrap();
    assert_eq!(sorted_values(d), vec![3, 4, 4, 4, 5, 5, 5, 6]);
    let d = Expr::die(6).repeat(0).unwrap().distribution().unwrap();
    assert_eq!(sorted_values(d), vec![0]);
    let d = Expr::die(6).repeat(3).unwrap().distribution().unwrap();
    let v = sorted_values(d);
    assert_eq!(v.len(), 216);
    assert_eq!(v[0], 3);
    assert_eq!(v[215], 18);
}

#[test]
fn die_rolls_vary() {
    let d = Die::new(6);
    let mut seen = [false; 7];
    for _ in 0..1000 {
        let v = d.roll();
        assert!((1..=6).contains(&v));
        seen[v as usize] = true;
    }
    assert!(seen[1..].iter().filter(|s| **s).count() > 1);
    assert_eq!(Die::new(0).roll(), 0);
}

#[test]
fn accessors() {
    let e = Expr::die(6);
    assert_eq!(e.as_die().map(|d| d.sides()), Some(6));
    assert!(e.as_scalar().is_none());
    assert!(e.as_binop().is_none());
    assert_eq!(e.clone().into_die(), Ok(Die::new(6)));
    assert_eq!(e.clone().into_scalar(), Err(e.clone()));
    let s = Expr::scalar(4);
    assert_eq!(s.as_scalar().map(|v| v.value()), Some(4));
    assert_eq!(s.clone().into_scalar(), Ok(Scalar::new(4)));
    let b = Expr::die(4) - Expr::scalar(1);
    assert!(b.as_binop().is_some());
    assert_eq!(b.clone().into_binop().map(|x| x.to_string()), Ok("d4 - 1".to_string()));
    assert_eq!(Scalar::new(9).roll(), 9);
}

#[test]
fn roll_with_sums_the_draws() {
    let e = Expr::die(6).repeat(2).unwrap();
    assert_eq!(e.roll_with(&[3, 4], 0), Ok((7, 2)));
    assert_eq!(e.roll_with(&[9, 6, 6, 1], 1), Ok((12, 3)));
    let e = "d6 + 2d4 - 3".parse::<Expr>().unwrap();
    assert_eq!(e.roll_with(&[5, 1, 4], 0), Ok((7, 3)));
    let e = "2(d6 - d4)".parse::<Expr>().unwrap();
    assert_eq!(e.roll_with(&[6, 1, 2, 3], 0), Ok((4, 4)));
    let e = "0d6 + 5".parse::<Expr>().unwrap();
    assert_eq!(e.roll_with(&[], 0), Ok((5, 0)));
}

#[test]
fn roll_with_parts() {
    assert_eq!(Die::new(6).roll_with(&[2, 5], 1), (5, 2));
    assert_eq!(Die::new(0).roll_with(&[], 0), (0, 0));
    let b = BinOp::sub(Box::new(Expr::die(8)), Box::new(Expr::scalar(10)));
    assert_eq!(b.roll_with(&[3], 0), Ok((-7, 1)));
}

#[test]
fn roll_matches_some_draws() {
    let e = "3d6 - d4".parse::<Expr>().unwrap();
    let mut seen = std::collections::BTreeSet::new();
    for _ in 0..2000 {
        let v = e.roll().unwrap();
        assert!((-1..=17).contains(&v));
        seen.insert(v);
    }
    assert!(seen.len() > 5);
}

#[test]
fn rolls_are_outcomes() {
    for text in ["2d3 - d2", "3(d4 - 2) + 1", "d0 + 4"] {
        let e = text.parse::<Expr>().unwrap();
        let outcomes = e.distribution().unwrap().into_iter();
        for _ in 0..300 {
            let v = e.roll().unwrap();
            assert!(outcomes.contains(&v), "{}: {}", text, v);
        }
        let faces = vec![1u32; 16];
        let (v, _) = e.roll_with(&faces, 0).unwrap();
        assert!(outcomes.contains(&v), "{}: {}", text, v);
    }
}

#[test]
fn outcomes_are_exactly_the_rolls() {
    let e = "2d3 - d2".parse::<Expr>().unwrap();
    let mut rolled = std::collections::BTreeSet::new();
    for a in 1..=3u32 {
        for b in 1..=3u32 {
            for c in 1..=2u32 {
                let (v, next) = e.roll_with(&[a, b, c], 0).unwrap();
                assert_eq!(next, 3);
                rolled.insert(v);
            }
        }
    }
    let outcomes: std::collections::BTreeSet<i128> =
        e.distribution().unwrap().into_iter().into_iter().collect();
    assert_eq!(rolled, outcomes);
    assert_eq!(outcomes.into_iter().collect::<Vec<_>>(), vec![0, 1, 2, 3, 4, 5]);
}
