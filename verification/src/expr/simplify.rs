use vstd::prelude::*;

use crate::expr::binop::{BinOp, Op};
use crate::expr::die::Die;
use crate::expr::error::{Error, Result};
use crate::expr::expr::Expr;
use crate::expr::inner::Inner;
use crate::expr::modifier::Modifier;
use crate::expr::scalar::Scalar;

verus! {

/// `e` with the repeat count pushed down to the leaves: `R(X op Y)` becomes
/// `R(X) op R(Y)`, `R(N)` becomes the constant `R * N`, and anything repeated
/// 0 times becomes the constant 0. `None` when a count or a constant leaves
/// its integer type.
pub open spec fn distributed(e: Expr) -> Option<Expr>
    decreases e.inner,
{
    let r = e.mods.repeat;
    if r == 0 {
        Some(Expr::scalar_spec(0))
    } else {
        match e.inner {
            Inner::BinOp(b) => {
                let lr = r * (*b.lhs).mods.repeat;
                let rr = r * (*b.rhs).mods.repeat;
                if lr > u32::MAX {
                    None
                } else {
                    match distributed(Expr { inner: (*b.lhs).inner, mods: Modifier { repeat: lr as u32 } }) {
                        None => None,
                        Some(l) => if rr > u32::MAX {
                            None
                        } else {
                            match distributed(Expr { inner: (*b.rhs).inner, mods: Modifier { repeat: rr as u32 } }) {
                                None => None,
                                Some(rhs) => Some(Expr::bin(b.op, l, rhs)),
                            }
                        },
                    }
                }
            },
            Inner::Die(_) => Some(e),
            Inner::Scalar(v) => {
                let p = v.0 * r;
                if r <= i32::MAX && i32::MIN <= p <= i32::MAX {
                    Some(Expr::scalar_spec(p as i32))
                } else {
                    None
                }
            },
        }
    }
}

/// The result of folding an operation whose operands are already folded:
/// two constants with the same repeat count become one constant, two
/// repeated dice with the same number of sides become one repeated die
/// (for a subtraction only when more dice are added than taken away), and
/// anything else stays an operation. `None` on overflow.
pub open spec fn fold_node(op: Op, l: Expr, r: Expr, mods: Modifier) -> Option<Expr> {
    match (l.inner, r.inner) {
        (Inner::Scalar(a), Inner::Scalar(b)) if l.mods == r.mods => {
            let rep = mods.repeat * l.mods.repeat;
            let v = op.eval(a.0 as int, b.0 as int);
            if rep > u32::MAX || !(i32::MIN <= v <= i32::MAX) {
                None
            } else {
                Some(Expr { inner: Inner::Scalar(Scalar(v as i32)), mods: Modifier { repeat: rep as u32 } })
            }
        },
        (Inner::Die(a), Inner::Die(b)) if a.sides == b.sides => {
            if op == Op::Sub && l.mods.repeat <= r.mods.repeat {
                Some(Expr { inner: Inner::BinOp(BinOp { lhs: Box::new(l), rhs: Box::new(r), op }), mods })
            } else {
                let n = op.eval(l.mods.repeat as int, r.mods.repeat as int);
                let rep = mods.repeat * n;
                if n > u32::MAX || rep > u32::MAX {
                    None
                } else {
                    Some(Expr { inner: l.inner, mods: Modifier { repeat: rep as u32 } })
                }
            }
        },
        _ => Some(Expr { inner: Inner::BinOp(BinOp { lhs: Box::new(l), rhs: Box::new(r), op }), mods }),
    }
}

/// `e` with every operation folded bottom-up by `fold_node`.
pub open spec fn folded(e: Expr) -> Option<Expr>
    decreases e.inner,
{
    match e.inner {
        Inner::BinOp(b) => match folded(*b.lhs) {
            None => None,
            Some(l) => match folded(*b.rhs) {
                None => None,
                Some(r) => fold_node(b.op, l, r, e.mods),
            },
        },
        _ => Some(e),
    }
}

/// The simplified form of `e`: repeats distributed, then constants and like dice folded.
pub open spec fn simplified(e: Expr) -> Option<Expr> {
    match distributed(e) {
        Some(d) => folded(d),
        None => None,
    }
}

impl Expr {
    /// Distributes repeats over operations and folds constants and like dice.
    pub fn simplify(self) -> (r: Result<Self>)
        ensures
            r is Ok <==> simplified(self) is Some,
            r matches Ok(s) ==> simplified(self) == Some(s),
            r matches Err(e) ==> e == Error::Overflow,
    {
        let d = self.distribute_repeats()?;
        d.fold_constants()
    }

    fn distribute_repeats(self) -> (r: Result<Self>)
        ensures
            r is Ok <==> distributed(self) is Some,
            r matches Ok(d) ==> distributed(self) == Some(d),
            r matches Err(e) ==> e == Error::Overflow,
        decreases self.inner,
    {
        let rep = self.mods.repeat;
        if rep == 0 {
            return Ok(Self::scalar(0));
        }
        match self.inner {
            Inner::BinOp(BinOp { lhs, rhs, op }) => {
                let lhs = (*lhs).repeat(rep)?.distribute_repeats()?;
                let rhs = (*rhs).repeat(rep)?.distribute_repeats()?;
                Ok(op.apply(lhs, rhs))
            },
            Inner::Die(d) => Ok(Expr { inner: Inner::Die(d), mods: self.mods }),
            Inner::Scalar(scalar) => {
                if rep > 2147483647 {
                    return Err(Error::Overflow);
                }
                match scalar.value().checked_mul(rep as i32) {
                    Some(v) => Ok(Self::scalar(v)),
                    None => Err(Error::Overflow),
                }
            },
        }
    }

    fn fold_constants(self) -> (r: Result<Self>)
        ensures
            r is Ok <==> folded(self) is Some,
            r matches Ok(f) ==> folded(self) == Some(f),
            r matches Err(e) ==> e == Error::Overflow,
        decreases self.inner,
    {
        let mods = self.mods;
        match self.inner.into_binop() {
            Ok(BinOp { lhs, rhs, op }) => {
                let lhs = (*lhs).fold_constants()?;
                let rhs = (*rhs).fold_constants()?;
                fold_pair(op, lhs, rhs, mods)
            },
            Err(inner) => Ok(Self { inner, mods }),
        }
    }
}

/// Folds one operation whose operands are already folded.
fn fold_pair(op: Op, lhs: Expr, rhs: Expr, mods: Modifier) -> (r: Result<Expr>)
    ensures
        r is Ok <==> fold_node(op, lhs, rhs, mods) is Some,
        r matches Ok(f) ==> fold_node(op, lhs, rhs, mods) == Some(f),
        r matches Err(e) ==> e == Error::Overflow,
{
    if let (Some(l), Some(r)) = (lhs.as_scalar(), rhs.as_scalar()) {
        if lhs.mods == rhs.mods {
            let merged = lhs.mods.merge(mods)?;
            let a = l.value();
            let b = r.value();
            let v = match op {
                Op::Add => a.checked_add(b),
                Op::Sub => a.checked_sub(b),
            };
            return match v {
                Some(v) => Ok(Expr { inner: Inner::Scalar(Scalar::new(v)), mods: merged }),
                None => Err(Error::Overflow),
            };
        }
    }
    if let (Some(l), Some(r)) = (lhs.as_die(), rhs.as_die()) {
        if l.sides() == r.sides() {
            let lr = lhs.mods.repeat;
            let rr = rhs.mods.repeat;
            let n = match op {
                Op::Add => lr.checked_add(rr),
                Op::Sub => {
                    if lr > rr {
                        Some(lr - rr)
                    } else {
                        return Ok(op.apply_with(lhs, rhs, mods));
                    }
                },
            };
            return match n {
                Some(n) => {
                    let merged = Modifier::repeat(n).merge(mods)?;
                    Ok(Expr { inner: lhs.inner, mods: merged })
                },
                None => Err(Error::Overflow),
            };
        }
    }
    Ok(op.apply_with(lhs, rhs, mods))
}

impl Op {
    /// Joins two expressions with this operator under the given repeat count.
    fn apply_with(self, lhs: Expr, rhs: Expr, mods: Modifier) -> (e: Expr)
        ensures
            e == (Expr { inner: Inner::BinOp(BinOp { lhs: Box::new(lhs), rhs: Box::new(rhs), op: self }), mods }),
    {
        Expr { inner: Inner::BinOp(BinOp { lhs: Box::new(lhs), rhs: Box::new(rhs), op: self }), mods }
    }
}


/// The shape `distributed` leaves: repeat counts only on dice, at least 1.
pub open spec fn distributed_form(e: Expr) -> bool
    decreases e,
{
    match e.inner {
        Inner::BinOp(b) => e.mods.repeat == 1 && distributed_form(*b.lhs) && distributed_form(*b.rhs),
        Inner::Die(_) => e.mods.repeat >= 1,
        Inner::Scalar(_) => e.mods.repeat == 1,
    }
}

/// A simplified expression: repeat counts only on dice, and no operation
/// that folding would change.
pub open spec fn normal(e: Expr) -> bool
    decreases e,
{
    match e.inner {
        Inner::BinOp(b) => {
            &&& e.mods.repeat == 1
            &&& normal(*b.lhs)
            &&& normal(*b.rhs)
            &&& fold_node(b.op, *b.lhs, *b.rhs, e.mods) == Some(e)
        },
        Inner::Die(_) => e.mods.repeat >= 1,
        Inner::Scalar(_) => e.mods.repeat == 1,
    }
}

/// Only dice and constants carry a repeat count other than 1.
pub open spec fn repeats_only_at_leaves(e: Expr) -> bool
    decreases e,
{
    match e.inner {
        Inner::BinOp(b) => e.mods.repeat == 1 && repeats_only_at_leaves(*b.lhs)
            && repeats_only_at_leaves(*b.rhs),
        _ => true,
    }
}

proof fn lemma_distributed_form(e: Expr)
    requires
        distributed(e) is Some,
    ensures
        distributed_form(distributed(e)->0),
    decreases e.inner,
{
    let r = e.mods.repeat;
    if r != 0 {
        if let Inner::BinOp(b) = e.inner {
            let lr = r * (*b.lhs).mods.repeat;
            let rr = r * (*b.rhs).mods.repeat;
            lemma_distributed_form(Expr { inner: (*b.lhs).inner, mods: Modifier { repeat: lr as u32 } });
            lemma_distributed_form(Expr { inner: (*b.rhs).inner, mods: Modifier { repeat: rr as u32 } });
        }
    }
}

proof fn lemma_folded_normal(e: Expr)
    requires
        distributed_form(e),
        folded(e) is Some,
    ensures
        normal(folded(e)->0),
    decreases e.inner,
{
    if let Inner::BinOp(b) = e.inner {
        lemma_folded_normal(*b.lhs);
        lemma_folded_normal(*b.rhs);
        let l = folded(*b.lhs)->0;
        let r = folded(*b.rhs)->0;
        let f = folded(e)->0;
        assert(f == fold_node(b.op, l, r, e.mods)->0);
        match (l.inner, r.inner) {
            (Inner::Scalar(x), Inner::Scalar(y)) => {},
            (Inner::Die(x), Inner::Die(y)) => {
                if x.sides == y.sides && !(b.op == Op::Sub && l.mods.repeat <= r.mods.repeat) {
                    assert(f.inner == l.inner);
                } else {
                    assert(fold_node(b.op, l, r, f.mods) == Some(f));
                }
            },
            _ => {
                assert(fold_node(b.op, l, r, f.mods) == Some(f));
            },
        }
    }
}

proof fn lemma_normal_fixed(e: Expr)
    requires
        normal(e),
    ensures
        distributed(e) == Some(e),
        folded(e) == Some(e),
    decreases e.inner,
{
    if let Inner::BinOp(b) = e.inner {
        let l = *b.lhs;
        let r = *b.rhs;
        assert(Expr { inner: l.inner, mods: Modifier { repeat: (1 * l.mods.repeat) as u32 } } == l);
        assert(Expr { inner: r.inner, mods: Modifier { repeat: (1 * r.mods.repeat) as u32 } } == r);
        lemma_normal_fixed(l);
        lemma_normal_fixed(r);
        assert(Expr::bin(b.op, l, r) == e);
    } else if let Inner::Scalar(v) = e.inner {
        assert(Expr::scalar_spec(v.0) == e);
    }
}

proof fn lemma_normal_leaves(e: Expr)
    requires
        normal(e),
    ensures
        repeats_only_at_leaves(e),
    decreases e.inner,
{
    if let Inner::BinOp(b) = e.inner {
        lemma_normal_leaves(*b.lhs);
        lemma_normal_leaves(*b.rhs);
    }
}

/// What simplification gives is in normal form.
pub proof fn lemma_simplified_normal(e: Expr)
    requires
        simplified(e) is Some,
    ensures
        normal(simplified(e)->0),
{
    lemma_distributed_form(e);
    lemma_folded_normal(distributed(e)->0);
}

/// Simplifying twice gives what simplifying once gives.
pub proof fn lemma_simplify_idempotent(e: Expr)
    requires
        simplified(e) is Some,
    ensures
        simplified(simplified(e)->0) == simplified(e),
{
    lemma_simplified_normal(e);
    lemma_normal_fixed(simplified(e)->0);
}

/// After simplification, only dice and constants carry a repeat count.
pub proof fn lemma_simplify_leaves_repeat(e: Expr)
    requires
        simplified(e) is Some,
    ensures
        repeats_only_at_leaves(simplified(e)->0),
{
    lemma_simplified_normal(e);
    lemma_normal_leaves(simplified(e)->0);
}


proof fn lemma_mul_mono(x: int, y: int, m: int)
    requires
        x <= y,
        m >= 0,
    ensures
        x * m <= y * m,
{
    assert(x * m <= y * m) by (nonlinear_arith)
        requires x <= y, m >= 0;
}

proof fn lemma_mul_regroup(a: int, k: int, r: int)
    ensures
        a * (r * k) == (a * k) * r,
        a * (k * r) == (a * k) * r,
{
    assert(a * (r * k) == (a * k) * r) by (nonlinear_arith);
    assert(a * (k * r) == (a * k) * r) by (nonlinear_arith);
}

proof fn lemma_mul_distrib(x: int, y: int, r: int)
    ensures
        (x + y) * r == x * r + y * r,
        (x - y) * r == x * r - y * r,
{
    assert((x + y) * r == x * r + y * r) by (nonlinear_arith);
    assert((x - y) * r == x * r - y * r) by (nonlinear_arith);
}

/// `e` with its term repeated `k` times.
spec fn with_count(e: Expr, k: int) -> Expr {
    Expr { inner: e.inner, mods: Modifier { repeat: k as u32 } }
}

/// Distributing repeats changes neither the mean nor the bounds.
proof fn lemma_distributed_same(e: Expr)
    requires
        distributed(e) is Some,
    ensures
        distributed(e)->0.mean_twice() == e.mean_twice(),
        distributed(e)->0.min_spec() == e.min_spec(),
        distributed(e)->0.max_spec() == e.max_spec(),
    decreases e.inner,
{
    let r = e.mods.repeat as int;
    let d = distributed(e)->0;
    if r == 0 {
        assert(e.mean_twice() == 0 && e.min_spec() == 0 && e.max_spec() == 0);
        assert(d == Expr::scalar_spec(0));
        assert(d.inner.mean_twice() == 0);
        assert(d.mean_twice() == 0);
        assert(d.inner.max_spec() == 0 && d.inner.min_spec() == 0);
        assert(d.max_spec() == 0 && d.min_spec() == 0);
    } else {
        match e.inner {
            Inner::BinOp(b) => {
                let lhs = *b.lhs;
                let rhs = *b.rhs;
                let l1 = with_count(lhs, r * lhs.mods.repeat);
                let r1 = with_count(rhs, r * rhs.mods.repeat);
                lemma_distributed_same(l1);
                lemma_distributed_same(r1);
                lemma_mul_regroup(lhs.inner.mean_twice(), lhs.mods.repeat as int, r);
                lemma_mul_regroup(rhs.inner.mean_twice(), rhs.mods.repeat as int, r);
                lemma_mul_regroup(lhs.inner.min_spec(), lhs.mods.repeat as int, r);
                lemma_mul_regroup(rhs.inner.min_spec(), rhs.mods.repeat as int, r);
                lemma_mul_regroup(lhs.inner.max_spec(), lhs.mods.repeat as int, r);
                lemma_mul_regroup(rhs.inner.max_spec(), rhs.mods.repeat as int, r);
                lemma_mul_distrib(lhs.mean_twice(), rhs.mean_twice(), r);
                lemma_mul_distrib(lhs.min_spec(), rhs.min_spec(), r);
                lemma_mul_distrib(lhs.min_spec(), rhs.max_spec(), r);
                lemma_mul_distrib(lhs.max_spec(), rhs.max_spec(), r);
                lemma_mul_distrib(lhs.max_spec(), rhs.min_spec(), r);
                let dl = distributed(l1)->0;
                let dr = distributed(r1)->0;
                assert(d == Expr::bin(b.op, dl, dr));
                assert(dl.mean_twice() == lhs.mean_twice() * r);
                assert(dr.mean_twice() == rhs.mean_twice() * r);
                assert(d.mean_twice() == b.op.eval(dl.mean_twice(), dr.mean_twice()) * 1);
                assert(e.mean_twice() == b.op.eval(lhs.mean_twice(), rhs.mean_twice()) * r);
                assert(dl.min_spec() == lhs.min_spec() * r);
                assert(dr.min_spec() == rhs.min_spec() * r);
                assert(dr.max_spec() == rhs.max_spec() * r);
                assert(dl.max_spec() == lhs.max_spec() * r);
                assert(d.min_spec() == e.min_spec());
                assert(d.max_spec() == e.max_spec());
            },
            Inner::Die(_) => {
                assert(d == e);
            },
            Inner::Scalar(v) => {
                assert(d == Expr::scalar_spec((v.0 * r) as i32));
                lemma_mul_regroup(2, v.0 as int, r);
                assert(d.mean_twice() == 2 * (v.0 * r) * 1);
                assert(2 * (v.0 * r) * 1 == (2 * v.0) * r) by (nonlinear_arith);
                assert(d.min_spec() == e.min_spec());
                assert(d.max_spec() == e.max_spec());
            },
        }
    }
}

/// Folding one operation keeps the mean and only narrows the bounds.
proof fn lemma_fold_node_narrows(op: Op, l: Expr, r: Expr, mods: Modifier)
    requires
        fold_node(op, l, r, mods) is Some,
    ensures
        ({
            let f = fold_node(op, l, r, mods)->0;
            let m = mods.repeat as int;
            &&& f.mean_twice() == op.eval(l.mean_twice(), r.mean_twice()) * m
            &&& f.min_spec() >= BinOp { lhs: Box::new(l), rhs: Box::new(r), op }.min_spec() * m
            &&& f.max_spec() <= BinOp { lhs: Box::new(l), rhs: Box::new(r), op }.max_spec() * m
        }),
{
    let f = fold_node(op, l, r, mods)->0;
    let m = mods.repeat as int;
    let lk = l.mods.repeat as int;
    let rk = r.mods.repeat as int;
    match (l.inner, r.inner) {
        (Inner::Scalar(a), Inner::Scalar(b)) if l.mods == r.mods => {
            let v = op.eval(a.0 as int, b.0 as int);
            lemma_mul_regroup(2 * v, lk, m);
            lemma_mul_regroup(v, lk, m);
            assert(2 * v * lk == op.eval(2 * a.0 * lk, 2 * b.0 * lk)) by (nonlinear_arith)
                requires v == op.eval(a.0 as int, b.0 as int), op == Op::Add || op == Op::Sub;
            assert(v * lk == op.eval(a.0 * lk, b.0 * lk)) by (nonlinear_arith)
                requires v == op.eval(a.0 as int, b.0 as int), op == Op::Add || op == Op::Sub;
        },
        (Inner::Die(a), Inner::Die(b)) if a.sides == b.sides => {
            if !(op == Op::Sub && lk <= rk) {
                let n = op.eval(lk, rk);
                let lo = a.min_spec();
                let hi = a.max_spec();
                let me = a.mean_twice();
                lemma_mul_regroup(me, n, m);
                lemma_mul_regroup(lo, n, m);
                lemma_mul_regroup(hi, n, m);
                assert(me * n == op.eval(me * lk, me * rk)) by (nonlinear_arith)
                    requires n == op.eval(lk, rk), op == Op::Add || op == Op::Sub;
                assert(lo * n >= BinOp { lhs: Box::new(l), rhs: Box::new(r), op }.min_spec()) by {
                    assert(lo * n == op.eval(lo * lk, lo * rk)) by (nonlinear_arith)
                        requires n == op.eval(lk, rk), op == Op::Add || op == Op::Sub;
                    assert(lo * rk <= hi * rk) by (nonlinear_arith)
                        requires lo <= hi, rk >= 0;
                }
                assert(hi * n <= BinOp { lhs: Box::new(l), rhs: Box::new(r), op }.max_spec()) by {
                    assert(hi * n == op.eval(hi * lk, hi * rk)) by (nonlinear_arith)
                        requires n == op.eval(lk, rk), op == Op::Add || op == Op::Sub;
                    assert(lo * rk <= hi * rk) by (nonlinear_arith)
                        requires lo <= hi, rk >= 0;
                }
                lemma_mul_mono(BinOp { lhs: Box::new(l), rhs: Box::new(r), op }.min_spec(), lo * n, m);
                lemma_mul_mono(hi * n, BinOp { lhs: Box::new(l), rhs: Box::new(r), op }.max_spec(), m);
            }
        },
        _ => {},
    }
}

/// Folding keeps the mean and only narrows the bounds.
proof fn lemma_folded_narrows(e: Expr)
    requires
        folded(e) is Some,
    ensures
        folded(e)->0.mean_twice() == e.mean_twice(),
        e.min_spec() <= folded(e)->0.min_spec(),
        folded(e)->0.max_spec() <= e.max_spec(),
    decreases e.inner,
{
    if let Inner::BinOp(b) = e.inner {
        let lhs = *b.lhs;
        let rhs = *b.rhs;
        lemma_folded_narrows(lhs);
        lemma_folded_narrows(rhs);
        let l = folded(lhs)->0;
        let r = folded(rhs)->0;
        let m = e.mods.repeat as int;
        lemma_fold_node_narrows(b.op, l, r, e.mods);
        let folded_min = BinOp { lhs: Box::new(l), rhs: Box::new(r), op: b.op }.min_spec();
        let folded_max = BinOp { lhs: Box::new(l), rhs: Box::new(r), op: b.op }.max_spec();
        assert(b.min_spec() <= folded_min);
        assert(folded_max <= b.max_spec());
        lemma_mul_mono(b.min_spec(), folded_min, m);
        lemma_mul_mono(folded_max, b.max_spec(), m);
    }
}

/// Simplification keeps the expected value of a roll.
pub proof fn lemma_simplify_keeps_mean(e: Expr)
    requires
        simplified(e) is Some,
    ensures
        simplified(e)->0.mean_twice() == e.mean_twice(),
{
    lemma_distributed_same(e);
    lemma_folded_narrows(distributed(e)->0);
}

/// Simplification never widens the range of possible rolls. It narrows it
/// where a difference of like dice is folded, as in `2d6 - d6` to `d6`.
pub proof fn lemma_simplify_narrows(e: Expr)
    requires
        simplified(e) is Some,
    ensures
        e.min_spec() <= simplified(e)->0.min_spec(),
        simplified(e)->0.max_spec() <= e.max_spec(),
{
    lemma_distributed_same(e);
    lemma_folded_narrows(distributed(e)->0);
}


/// Folding `l op r` turns a difference of like dice with at least two faces
/// into one repeated die, which narrows the range of rolls.
pub open spec fn narrowing_fold(op: Op, l: Expr, r: Expr) -> bool {
    &&& op == Op::Sub
    &&& l.inner is Die
    &&& r.inner is Die
    &&& l.inner->Die_0.sides == r.inner->Die_0.sides
    &&& l.inner->Die_0.sides >= 2
    &&& l.mods.repeat > r.mods.repeat
}

/// Folding `e` somewhere folds a difference of like dice with at least two faces.
pub open spec fn folds_narrowing(e: Expr) -> bool
    decreases e.inner,
{
    match e.inner {
        Inner::BinOp(b) => {
            ||| folds_narrowing(*b.lhs)
            ||| folds_narrowing(*b.rhs)
            ||| match (folded(*b.lhs), folded(*b.rhs)) {
                (Some(l), Some(r)) => narrowing_fold(b.op, l, r),
                _ => false,
            }
        },
        _ => false,
    }
}

/// Folding one operation that is not a narrowing fold keeps the bounds.
proof fn lemma_fold_node_exact(op: Op, l: Expr, r: Expr, mods: Modifier)
    requires
        fold_node(op, l, r, mods) is Some,
        !narrowing_fold(op, l, r),
    ensures
        ({
            let f = fold_node(op, l, r, mods)->0;
            let m = mods.repeat as int;
            &&& f.min_spec() == BinOp { lhs: Box::new(l), rhs: Box::new(r), op }.min_spec() * m
            &&& f.max_spec() == BinOp { lhs: Box::new(l), rhs: Box::new(r), op }.max_spec() * m
        }),
{
    let m = mods.repeat as int;
    let lk = l.mods.repeat as int;
    let rk = r.mods.repeat as int;
    match (l.inner, r.inner) {
        (Inner::Scalar(a), Inner::Scalar(b)) if l.mods == r.mods => {
            let v = op.eval(a.0 as int, b.0 as int);
            lemma_mul_regroup(v, lk, m);
            assert(v * lk == op.eval(a.0 * lk, b.0 * lk)) by (nonlinear_arith)
                requires v == op.eval(a.0 as int, b.0 as int), op == Op::Add || op == Op::Sub;
        },
        (Inner::Die(a), Inner::Die(b)) if a.sides == b.sides => {
            if !(op == Op::Sub && lk <= rk) {
                let n = op.eval(lk, rk);
                let lo = a.min_spec();
                let hi = a.max_spec();
                assert(op == Op::Sub ==> lo == hi);
                lemma_mul_regroup(lo, n, m);
                lemma_mul_regroup(hi, n, m);
                assert(lo * n == BinOp { lhs: Box::new(l), rhs: Box::new(r), op }.min_spec()) by {
                    assert(lo * n == op.eval(lo * lk, lo * rk)) by (nonlinear_arith)
                        requires n == op.eval(lk, rk), op == Op::Add || op == Op::Sub;
                }
                assert(hi * n == BinOp { lhs: Box::new(l), rhs: Box::new(r), op }.max_spec()) by {
                    assert(hi * n == op.eval(hi * lk, hi * rk)) by (nonlinear_arith)
                        requires n == op.eval(lk, rk), op == Op::Add || op == Op::Sub;
                }
            }
        },
        _ => {},
    }
}

/// Folding keeps the bounds when it folds no difference of like dice with
/// at least two faces.
proof fn lemma_folded_exact(e: Expr)
    requires
        folded(e) is Some,
        !folds_narrowing(e),
    ensures
        folded(e)->0.min_spec() == e.min_spec(),
        folded(e)->0.max_spec() == e.max_spec(),
    decreases e.inner,
{
    if let Inner::BinOp(b) = e.inner {
        lemma_folded_exact(*b.lhs);
        lemma_folded_exact(*b.rhs);
        let l = folded(*b.lhs)->0;
        let r = folded(*b.rhs)->0;
        lemma_fold_node_exact(b.op, l, r, e.mods);
    }
}

/// A narrowing fold raises the minimum and lowers the maximum.
proof fn lemma_narrowing_fold_strict(op: Op, l: Expr, r: Expr, mods: Modifier)
    requires
        narrowing_fold(op, l, r),
        fold_node(op, l, r, mods) is Some,
        mods.repeat == 1,
        r.mods.repeat >= 1,
    ensures
        ({
            let f = fold_node(op, l, r, mods)->0;
            &&& f.min_spec() > BinOp { lhs: Box::new(l), rhs: Box::new(r), op }.min_spec()
            &&& f.max_spec() < BinOp { lhs: Box::new(l), rhs: Box::new(r), op }.max_spec()
        }),
{
    let n = l.inner->Die_0.sides as int;
    let a = l.mods.repeat as int;
    let b = r.mods.repeat as int;
    let f = fold_node(op, l, r, mods)->0;
    assert(f.inner == l.inner);
    assert(f.mods.repeat == 1 * (a - b));
    assert(f.min_spec() == 1 * (a - b));
    assert(f.max_spec() == n * (a - b));
    assert(l.min_spec() == 1 * a);
    assert(r.max_spec() == n * b);
    assert(l.max_spec() == n * a);
    assert(r.min_spec() == 1 * b);
    assert(a * 1 - b * n < a - b) by (nonlinear_arith)
        requires n >= 2, b >= 1;
    assert(n * (a - b) < n * a - 1 * b) by (nonlinear_arith)
        requires n >= 2, b >= 1, a > b;
}

/// In the shape `distributed` leaves, folding strictly narrows the range
/// whenever it folds a difference of like dice with at least two faces.
proof fn lemma_folded_strict(e: Expr)
    requires
        distributed_form(e),
        folded(e) is Some,
        folds_narrowing(e),
    ensures
        folded(e)->0.min_spec() > e.min_spec(),
        folded(e)->0.max_spec() < e.max_spec(),
    decreases e.inner,
{
    if let Inner::BinOp(b) = e.inner {
        let lhs = *b.lhs;
        let rhs = *b.rhs;
        let l = folded(lhs)->0;
        let r = folded(rhs)->0;
        lemma_folded_narrows(lhs);
        lemma_folded_narrows(rhs);
        if folds_narrowing(lhs) {
            lemma_folded_strict(lhs);
        }
        if folds_narrowing(rhs) {
            lemma_folded_strict(rhs);
        }
        lemma_fold_node_narrows(b.op, l, r, e.mods);
        if narrowing_fold(b.op, l, r) {
            lemma_folded_normal(rhs);
            lemma_narrowing_fold_strict(b.op, l, r, e.mods);
        }
    }
}

/// Simplification keeps the smallest and the largest roll, unless it folds
/// a difference of like dice with at least two faces.
pub proof fn lemma_simplify_keeps_bounds(e: Expr)
    requires
        simplified(e) is Some,
        !folds_narrowing(distributed(e)->0),
    ensures
        simplified(e)->0.min_spec() == e.min_spec(),
        simplified(e)->0.max_spec() == e.max_spec(),
{
    lemma_distributed_same(e);
    lemma_folded_exact(distributed(e)->0);
}

/// When simplification folds a difference of like dice with at least two
/// faces, the range of rolls strictly narrows: the exception above is exact.
pub proof fn lemma_simplify_narrows_strictly(e: Expr)
    requires
        simplified(e) is Some,
        folds_narrowing(distributed(e)->0),
    ensures
        simplified(e)->0.min_spec() > e.min_spec(),
        simplified(e)->0.max_spec() < e.max_spec(),
{
    lemma_distributed_same(e);
    lemma_distributed_form(e);
    lemma_folded_strict(distributed(e)->0);
}

/// How many operations, dice and constants the expression is made of.
pub open spec fn node_count(e: Expr) -> nat
    decreases e.inner,
{
    match e.inner {
        Inner::BinOp(b) => 1 + node_count(*b.lhs) + node_count(*b.rhs),
        _ => 1,
    }
}

/// A bound on what one die or constant, repeated at most `u32::MAX` times,
/// can roll.
pub open spec fn leaf_bound() -> int {
    0x1_0000_0000_0000_0000
}

/// Distributing repeats adds no operation, die or constant.
proof fn lemma_distributed_count(e: Expr)
    requires
        distributed(e) is Some,
    ensures
        node_count(distributed(e)->0) <= node_count(e),
    decreases e.inner,
{
    let r = e.mods.repeat;
    assert(node_count(e) >= 1);
    if r != 0 {
        if let Inner::BinOp(b) = e.inner {
            let lr = r * (*b.lhs).mods.repeat;
            let rr = r * (*b.rhs).mods.repeat;
            let l = Expr { inner: (*b.lhs).inner, mods: Modifier { repeat: lr as u32 } };
            let rh = Expr { inner: (*b.rhs).inner, mods: Modifier { repeat: rr as u32 } };
            assert(node_count(l) == node_count(*b.lhs));
            assert(node_count(rh) == node_count(*b.rhs));
            lemma_distributed_count(l);
            lemma_distributed_count(rh);
        }
    }
}

/// Folding adds no operation, die or constant.
proof fn lemma_folded_count(e: Expr)
    requires
        folded(e) is Some,
    ensures
        node_count(folded(e)->0) <= node_count(e),
    decreases e.inner,
{
    if let Inner::BinOp(b) = e.inner {
        lemma_folded_count(*b.lhs);
        lemma_folded_count(*b.rhs);
    }
}

/// With repeat counts only on dice and constants, the bounds of every part
/// lie within `node_count` times `leaf_bound`; so when there are at most
/// 2^62 parts, `min()` and `max()` succeed.
proof fn lemma_count_bounds(e: Expr)
    requires
        repeats_only_at_leaves(e),
    ensures
        -(node_count(e) * leaf_bound()) <= e.min_spec() <= node_count(e) * leaf_bound(),
        -(node_count(e) * leaf_bound()) <= e.max_spec() <= node_count(e) * leaf_bound(),
        node_count(e) <= 0x4000_0000_0000_0000 ==> e.min_fits() && e.max_fits(),
    decreases e.inner,
{
    let r = e.mods.repeat as int;
    match e.inner {
        Inner::BinOp(b) => {
            lemma_count_bounds(*b.lhs);
            lemma_count_bounds(*b.rhs);
            let nl = node_count(*b.lhs);
            let nr = node_count(*b.rhs);
            assert(nl * leaf_bound() + nr * leaf_bound() <= node_count(e) * leaf_bound()) by (nonlinear_arith)
                requires
                    node_count(e) == 1 + nl + nr,
            ;
            assert(e.min_spec() == e.inner.min_spec());
            assert(e.max_spec() == e.inner.max_spec());
            if node_count(e) <= 0x4000_0000_0000_0000 {
                assert(node_count(e) * leaf_bound() <= 0x4000_0000_0000_0000 * leaf_bound()) by (nonlinear_arith)
                    requires
                        node_count(e) <= 0x4000_0000_0000_0000,
                ;
            }
        },
        Inner::Die(d) => {
            let sides = d.sides as int;
            assert(0 <= d.min_spec() * r <= sides * r <= leaf_bound()) by (nonlinear_arith)
                requires
                    0 <= d.min_spec() <= 1,
                    d.min_spec() <= sides,
                    0 <= sides <= u32::MAX,
                    0 <= r <= u32::MAX,
            ;
            assert(1 * leaf_bound() <= node_count(e) * leaf_bound());
        },
        Inner::Scalar(v) => {
            let x = v.0 as int;
            assert(-leaf_bound() <= x * r <= leaf_bound()) by (nonlinear_arith)
                requires
                    i32::MIN <= x <= i32::MAX,
                    0 <= r <= u32::MAX,
            ;
        },
    }
}

/// Simplification keeps what `min()` and `max()` return: when both succeed
/// on `e` and simplification folds no difference of like dice with at least
/// two faces, both succeed on the simplified expression with the same values.
/// An expression held in memory has fewer than 2^62 parts, each taking more
/// than four bytes.
pub proof fn lemma_simplify_keeps_bound_results(e: Expr)
    requires
        simplified(e) is Some,
        !folds_narrowing(distributed(e)->0),
        e.min_fits(),
        e.max_fits(),
        node_count(e) <= 0x4000_0000_0000_0000,
    ensures
        simplified(e)->0.min_fits(),
        simplified(e)->0.max_fits(),
        simplified(e)->0.min_spec() == e.min_spec(),
        simplified(e)->0.max_spec() == e.max_spec(),
{
    let s = simplified(e)->0;
    lemma_simplify_keeps_bounds(e);
    lemma_simplify_leaves_repeat(e);
    lemma_distributed_count(e);
    lemma_folded_count(distributed(e)->0);
    lemma_count_bounds(s);
}

/// `k` dice with `sides` faces, rolled together.
pub open spec fn dice(sides: u32, k: u32) -> Expr {
    Expr { inner: Inner::Die(Die { sides }), mods: Modifier { repeat: k } }
}

/// Simplifying `l op r` works on the simplified operands: the operation
/// with repeat count 1 distributes to the operation of the distributed
/// operands, which then fold.
proof fn lemma_simplified_bin(op: Op, l: Expr, r: Expr)
    requires
        simplified(l) is Some,
        simplified(r) is Some,
    ensures
        simplified(Expr::bin(op, l, r)) == fold_node(op, simplified(l)->0, simplified(r)->0, Modifier { repeat: 1 }),
{
    let e = Expr::bin(op, l, r);
    assert(Expr { inner: l.inner, mods: Modifier { repeat: (1 * l.mods.repeat) as u32 } } == l);
    assert(Expr { inner: r.inner, mods: Modifier { repeat: (1 * r.mods.repeat) as u32 } } == r);
    assert(distributed(e) == Some(Expr::bin(op, distributed(l)->0, distributed(r)->0)));
}

/// Adding two parts that simplify to dice with the same number of sides
/// gives those dice together: `a dS + b dS` simplifies to `(a + b) dS`,
/// and fails only when `a + b` does not fit in `u32`.
pub proof fn lemma_simplify_adds_like_dice(l: Expr, r: Expr, sides: u32, a: u32, b: u32)
    requires
        simplified(l) == Some(dice(sides, a)),
        simplified(r) == Some(dice(sides, b)),
    ensures
        simplified(Expr::bin(Op::Add, l, r)) == if a + b <= u32::MAX {
            Some(dice(sides, (a + b) as u32))
        } else {
            None::<Expr>
        },
{
    lemma_simplified_bin(Op::Add, l, r);
}

/// Taking dice away from more dice with the same number of sides leaves the
/// difference: `a dS - b dS` simplifies to `(a - b) dS` when `a > b`, and
/// stays as it is otherwise.
pub proof fn lemma_simplify_subtracts_like_dice(l: Expr, r: Expr, sides: u32, a: u32, b: u32)
    requires
        simplified(l) == Some(dice(sides, a)),
        simplified(r) == Some(dice(sides, b)),
    ensures
        simplified(Expr::bin(Op::Sub, l, r)) == if a > b {
            Some(dice(sides, (a - b) as u32))
        } else {
            Some(Expr::bin(Op::Sub, dice(sides, a), dice(sides, b)))
        },
{
    lemma_simplified_bin(Op::Sub, l, r);
}

/// Two parts that simplify to constants become one constant: `x op y`,
/// and simplification fails only when that does not fit in `i32`.
pub proof fn lemma_simplify_joins_constants(op: Op, l: Expr, r: Expr, x: i32, y: i32)
    requires
        simplified(l) == Some(Expr::scalar_spec(x)),
        simplified(r) == Some(Expr::scalar_spec(y)),
    ensures
        simplified(Expr::bin(op, l, r)) == if i32::MIN <= op.eval(x as int, y as int) <= i32::MAX {
            Some(Expr::scalar_spec(op.eval(x as int, y as int) as i32))
        } else {
            None::<Expr>
        },
{
    lemma_simplified_bin(op, l, r);
}

/// Parts that simplify to anything but two constants or two lots of dice
/// with the same number of sides stay joined by the operation.
pub proof fn lemma_simplify_keeps_other_joins(op: Op, l: Expr, r: Expr)
    requires
        simplified(l) is Some,
        simplified(r) is Some,
        !(simplified(l)->0.inner is Scalar && simplified(r)->0.inner is Scalar),
        !(simplified(l)->0.inner is Die && simplified(r)->0.inner is Die
            && simplified(l)->0.inner->Die_0.sides == simplified(r)->0.inner->Die_0.sides),
    ensures
        simplified(Expr::bin(op, l, r)) == Some(Expr::bin(op, simplified(l)->0, simplified(r)->0)),
{
    lemma_simplified_bin(op, l, r);
}

/// Dice rolled together at least once are already simple.
pub proof fn lemma_simplify_keeps_dice(sides: u32, k: u32)
    requires
        k >= 1,
    ensures
        simplified(dice(sides, k)) == Some(dice(sides, k)),
{
}

/// A constant rolled `k` times becomes the constant `k * v`; nothing rolled
/// no times becomes 0. Simplification fails only when `k` or `k * v` does
/// not fit in `i32`.
pub proof fn lemma_simplify_repeated_constant(v: i32, k: u32)
    ensures
        simplified(Expr { inner: Inner::Scalar(Scalar(v)), mods: Modifier { repeat: k } }) == if k == 0 {
            Some(Expr::scalar_spec(0))
        } else if k <= i32::MAX && i32::MIN <= v * k <= i32::MAX {
            Some(Expr::scalar_spec((v * k) as i32))
        } else {
            None::<Expr>
        },
{
}

/// A repeated operation simplifies as the operation of its repeated sides:
/// `R(X op Y)` as `R X op R Y`, for `R >= 1`, failing when a side's count
/// times `R` does not fit in `u32`.
pub proof fn lemma_simplify_distributes_repeat(op: Op, l: Expr, r: Expr, k: u32)
    requires
        k >= 1,
    ensures
        simplified(Expr { inner: Inner::BinOp(BinOp { lhs: Box::new(l), rhs: Box::new(r), op }), mods: Modifier { repeat: k } })
            == if k * l.mods.repeat <= u32::MAX && k * r.mods.repeat <= u32::MAX {
            simplified(
                Expr::bin(
                    op,
                    Expr { inner: l.inner, mods: Modifier { repeat: (k * l.mods.repeat) as u32 } },
                    Expr { inner: r.inner, mods: Modifier { repeat: (k * r.mods.repeat) as u32 } },
                ),
            )
        } else {
            None::<Expr>
        },
{
    let lk = Expr { inner: l.inner, mods: Modifier { repeat: (k * l.mods.repeat) as u32 } };
    let rk = Expr { inner: r.inner, mods: Modifier { repeat: (k * r.mods.repeat) as u32 } };
    assert(Expr { inner: lk.inner, mods: Modifier { repeat: (1 * lk.mods.repeat) as u32 } } == lk);
    assert(Expr { inner: rk.inner, mods: Modifier { repeat: (1 * rk.mods.repeat) as u32 } } == rk);
}

} // verus!
