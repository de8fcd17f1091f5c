use vstd::prelude::*;

use crate::expr::binop::{BinOp, Op};
use crate::expr::error::{in_i128, Error};
use crate::expr::die::{faces_of, sides_of, Die};
use crate::expr::expr::{lemma_outcomes_all_fit, lemma_sum_rolls_none, repeated_sides, rolls_valid, sum_rolls, Expr};
use crate::stats::{all_in_i128, combine, lemma_combine_contains, lemma_combine_member, lemma_n_fold_none, n_fold};
use crate::expr::inner::Inner;

verus! {

/// The `c` draws of `f` from `a` on are the `c` draws of `g` from `b` on.
pub open spec fn same_draws(f: Seq<u32>, a: int, g: Seq<u32>, b: int, c: int) -> bool {
    &&& 0 <= c
    &&& 0 <= a && a + c <= f.len()
    &&& 0 <= b && b + c <= g.len()
    &&& f.subrange(a, a + c) == g.subrange(b, b + c)
}

/// `c` draws that all show 1, a face of every die.
pub open spec fn ones(c: nat) -> Seq<u32> {
    Seq::new(c, |i: int| 1u32)
}

/// The `c` draws of `f` from `a` on all show 1.
pub open spec fn all_ones(f: Seq<u32>, a: int, c: int) -> bool {
    &&& 0 <= c
    &&& 0 <= a && a + c <= f.len()
    &&& forall|i: int| a <= i < a + c ==> f[i] == 1
}

/// A part of a window on which two sequences agree is one too.
proof fn lemma_same_draws_part(f: Seq<u32>, a: int, g: Seq<u32>, b: int, c: int, x: int, y: int)
    requires
        same_draws(f, a, g, b, c),
        0 <= x,
        0 <= y,
        x + y <= c,
    ensures
        same_draws(f, a + x, g, b + x, y),
{
    assert forall|i: int| 0 <= i < y implies #[trigger] f.subrange(a + x, a + x + y)[i] == g.subrange(
        b + x,
        b + x + y,
    )[i] by {
        assert(f.subrange(a, a + c)[x + i] == g.subrange(b, b + c)[x + i]);
    }
    assert(f.subrange(a + x, a + x + y) =~= g.subrange(b + x, b + x + y));
}

/// `k * c` splits as `(k - 1) * c + c`, in the forms the definitions use.
pub proof fn lemma_split_product(c: int, k: int)
    requires
        0 <= c,
        1 <= k,
    ensures
        c * k == c * (k - 1) + c,
        (k - 1) * c == c * (k - 1),
        0 <= c * (k - 1) <= c * k,
{
    assert(c * k == c * (k - 1) + c) by (nonlinear_arith);
    assert((k - 1) * c == c * (k - 1)) by (nonlinear_arith);
    assert(0 <= c * (k - 1) <= c * k) by (nonlinear_arith)
        requires
            0 <= c,
            1 <= k,
    ;
}

/// A roll reads its own draws and nothing else: two sequences that agree on
/// them give the same validity and the same value.
pub proof fn lemma_expr_frame(e: Expr, f: Seq<u32>, a: int, g: Seq<u32>, b: int)
    requires
        same_draws(f, a, g, b, e.draw_count() as int),
    ensures
        e.draws_valid(f, a) == e.draws_valid(g, b),
        e.roll_value(f, a) == e.roll_value(g, b),
    decreases e, 0nat,
{
    lemma_rolls_frame(e.inner, f, a, g, b, e.mods.repeat as nat);
}

/// `k` rolls in a row read their own draws and nothing else.
pub proof fn lemma_rolls_frame(inner: Inner, f: Seq<u32>, a: int, g: Seq<u32>, b: int, k: nat)
    requires
        same_draws(f, a, g, b, (inner.draw_count() * k) as int),
    ensures
        rolls_valid(inner, f, a, k) == rolls_valid(inner, g, b, k),
        sum_rolls(inner, f, a, k) == sum_rolls(inner, g, b, k),
    decreases inner, k + 1,
{
    if k > 0 {
        let c = inner.draw_count() as int;
        let j = (k - 1) as nat;
        lemma_split_product(c, k as int);
        lemma_same_draws_part(f, a, g, b, c * k, 0, c * j);
        lemma_same_draws_part(f, a, g, b, c * k, c * j, c);
        lemma_rolls_frame(inner, f, a, g, b, j);
        lemma_inner_frame(inner, f, a + c * j, g, b + c * j);
    }
}

/// A roll of a term reads its own draws and nothing else.
pub proof fn lemma_inner_frame(inner: Inner, f: Seq<u32>, a: int, g: Seq<u32>, b: int)
    requires
        same_draws(f, a, g, b, inner.draw_count() as int),
    ensures
        inner.draws_valid(f, a) == inner.draws_valid(g, b),
        inner.roll_value(f, a) == inner.roll_value(g, b),
    decreases inner, 0nat,
{
    match inner {
        Inner::BinOp(op) => lemma_binop_frame(op, f, a, g, b),
        Inner::Die(d) => {
            if d.sides != 0 {
                assert(f.subrange(a, a + 1)[0] == g.subrange(b, b + 1)[0]);
            }
        },
        Inner::Scalar(_) => {},
    }
}

/// A roll of an operation reads its own draws and nothing else.
pub proof fn lemma_binop_frame(op: BinOp, f: Seq<u32>, a: int, g: Seq<u32>, b: int)
    requires
        same_draws(f, a, g, b, op.draw_count() as int),
    ensures
        op.draws_valid(f, a) == op.draws_valid(g, b),
        op.roll_value(f, a) == op.roll_value(g, b),
    decreases op, 0nat,
{
    let cl = (*op.lhs).draw_count() as int;
    let cr = (*op.rhs).draw_count() as int;
    lemma_same_draws_part(f, a, g, b, cl + cr, 0, cl);
    lemma_same_draws_part(f, a, g, b, cl + cr, cl, cr);
    lemma_expr_frame(*op.lhs, f, a, g, b);
    lemma_expr_frame(*op.rhs, f, a + cl, g, b + cl);
}

/// Draws that all show 1 are valid for any expression.
pub proof fn lemma_expr_ones(e: Expr, f: Seq<u32>, a: int)
    requires
        all_ones(f, a, e.draw_count() as int),
    ensures
        e.draws_valid(f, a),
    decreases e, 0nat,
{
    lemma_rolls_extend(e.inner, f, a, 0, e.mods.repeat as nat);
}

/// Valid draws for `k` rolls in a row, followed by ones, are valid for `n`
/// rolls in a row.
pub proof fn lemma_rolls_extend(inner: Inner, f: Seq<u32>, a: int, k: nat, n: nat)
    requires
        k <= n,
        rolls_valid(inner, f, a, k),
        all_ones(f, a + inner.draw_count() * k, inner.draw_count() * (n - k)),
    ensures
        rolls_valid(inner, f, a, n),
    decreases inner, n + 1,
{
    if k < n {
        let c = inner.draw_count() as int;
        let j = (n - 1) as nat;
        lemma_split_product(c, n as int);
        assert(c * k + c * (j - k) == c * j && c * (n - k) == c * (j - k) + c && 0 <= c * (j - k))
            by (nonlinear_arith)
            requires
                n == j + 1,
                k <= j,
                0 <= c,
        ;
        lemma_rolls_extend(inner, f, a, k, j);
        lemma_inner_ones(inner, f, a + c * j);
    }
}

/// Draws that all show 1 are valid for any term.
pub proof fn lemma_inner_ones(inner: Inner, f: Seq<u32>, a: int)
    requires
        all_ones(f, a, inner.draw_count() as int),
    ensures
        inner.draws_valid(f, a),
    decreases inner, 0nat,
{
    match inner {
        Inner::BinOp(op) => {
            let cl = (*op.lhs).draw_count() as int;
            lemma_expr_ones(*op.lhs, f, a);
            lemma_expr_ones(*op.rhs, f, a + cl);
        },
        Inner::Die(d) => {
            if d.sides != 0 {
                assert(f[a] == 1);
            }
        },
        Inner::Scalar(_) => {},
    }
}

/// Once `k` rolls of the term have no sum, the expression has no value
/// whatever the remaining rolls draw: filled up with ones, the draws are a
/// valid roll of the whole expression that gives `Overflow`.
pub proof fn lemma_expr_fail(e: Expr, g: Seq<u32>, k: nat) -> (fs: Seq<u32>)
    requires
        k <= e.mods.repeat,
        g.len() == e.inner.draw_count() * k,
        rolls_valid(e.inner, g, 0, k),
        sum_rolls(e.inner, g, 0, k) is None,
    ensures
        e.rolled_by(Err(Error::Overflow), fs),
{
    let c = e.inner.draw_count() as int;
    let n = e.mods.repeat as nat;
    let rest = (c * (n - k)) as nat;
    assert(c * k + c * (n - k) == c * n && 0 <= c * (n - k)) by (nonlinear_arith)
        requires
            k <= n,
            0 <= c,
    ;
    let fs = g + ones(rest);
    assert(fs.subrange(0, c * k) =~= g.subrange(0, c * k));
    lemma_rolls_frame(e.inner, fs, 0, g, 0, k);
    assert(all_ones(fs, c * k, c * (n - k)));
    lemma_rolls_extend(e.inner, fs, 0, k, n);
    lemma_sum_rolls_none(e.inner, fs, 0, k, n);
    fs
}

/// `x * k` lies between `0` and `x * n` when `0 <= k <= n`.
pub proof fn lemma_between_products(x: int, k: int, n: int)
    requires
        0 <= k <= n,
    ensures
        x >= 0 ==> 0 <= x * k <= x * n,
        x < 0 ==> x * n <= x * k <= 0,
{
    assert(x >= 0 ==> 0 <= x * k <= x * n) by (nonlinear_arith)
        requires
            0 <= k <= n,
    ;
    assert(x < 0 ==> x * n <= x * k <= 0) by (nonlinear_arith)
        requires
            0 <= k <= n,
    ;
}

/// What an expression rolls with valid draws lies between its smallest and
/// its largest value, and it has a value whenever both bounds fit in `i128`.
pub proof fn lemma_expr_roll_bounds(e: Expr, f: Seq<u32>, a: int)
    requires
        e.draws_valid(f, a),
    ensures
        e.roll_value(f, a) matches Some(v) ==> e.min_spec() <= v <= e.max_spec(),
        e.min_fits() && e.max_fits() ==> e.roll_value(f, a) is Some,
    decreases e, 0nat,
{
    let n = e.mods.repeat as nat;
    lemma_rolls_bounds(e.inner, f, a, n, n);
}

/// A sum of `k` rolls with valid draws lies between `k` times the smallest
/// and `k` times the largest roll of the term; it has a value when the term's
/// bounds fit and so do those of `n >= k` rolls.
pub proof fn lemma_rolls_bounds(inner: Inner, f: Seq<u32>, a: int, k: nat, n: nat)
    requires
        k <= n,
        rolls_valid(inner, f, a, k),
    ensures
        sum_rolls(inner, f, a, k) matches Some(s) ==> inner.min_spec() * k <= s <= inner.max_spec() * k,
        inner.min_fits() && inner.max_fits() && in_i128(inner.min_spec() * n) && in_i128(
            inner.max_spec() * n,
        ) ==> sum_rolls(inner, f, a, k) is Some,
    decreases inner, k + 1,
{
    if k > 0 {
        let c = inner.draw_count() as int;
        let j = (k - 1) as nat;
        let lo = inner.min_spec();
        let hi = inner.max_spec();
        lemma_split_product(c, k as int);
        lemma_rolls_bounds(inner, f, a, j, n);
        lemma_inner_roll_bounds(inner, f, a + c * j);
        assert(lo * k == lo * j + lo && hi * k == hi * j + hi) by (nonlinear_arith)
            requires
                k == j + 1,
        ;
        lemma_between_products(lo, k as int, n as int);
        lemma_between_products(hi, k as int, n as int);
    }
}

/// What a term rolls with valid draws lies between its bounds, and it has a
/// value whenever both bounds fit in `i128`.
pub proof fn lemma_inner_roll_bounds(inner: Inner, f: Seq<u32>, a: int)
    requires
        inner.draws_valid(f, a),
    ensures
        inner.roll_value(f, a) matches Some(v) ==> inner.min_spec() <= v <= inner.max_spec(),
        inner.min_fits() && inner.max_fits() ==> inner.roll_value(f, a) is Some,
    decreases inner, 0nat,
{
    if let Inner::BinOp(op) = inner {
        lemma_binop_roll_bounds(op, f, a);
    }
}

/// What an operation rolls with valid draws lies between its bounds, and it
/// has a value whenever both bounds fit in `i128`.
pub proof fn lemma_binop_roll_bounds(op: BinOp, f: Seq<u32>, a: int)
    requires
        op.draws_valid(f, a),
    ensures
        op.roll_value(f, a) matches Some(v) ==> op.min_spec() <= v <= op.max_spec(),
        op.min_fits() && op.max_fits() ==> op.roll_value(f, a) is Some,
    decreases op, 0nat,
{
    let cl = (*op.lhs).draw_count() as int;
    lemma_expr_roll_bounds(*op.lhs, f, a);
    lemma_expr_roll_bounds(*op.rhs, f, a + cl);
}

/// Every value a roll gives with valid draws is one of the outcomes of the
/// expression's distribution.
pub proof fn lemma_roll_is_outcome(e: Expr, f: Seq<u32>, a: int)
    requires
        e.draws_valid(f, a),
        e.roll_value(f, a) is Some,
        e.outcomes() is Some,
    ensures
        e.outcomes()->0.contains(e.roll_value(f, a)->0),
    decreases e, 0nat,
{
    let n = e.mods.repeat as nat;
    lemma_rolls_outcome(e.inner, f, a, n, n);
}

/// A sum of `k` rolls with valid draws is one of the sums of `k` outcomes
/// of the term, when the sums of `n >= k` outcomes all fit in `i128`.
pub proof fn lemma_rolls_outcome(inner: Inner, f: Seq<u32>, a: int, k: nat, n: nat)
    requires
        k <= n,
        rolls_valid(inner, f, a, k),
        sum_rolls(inner, f, a, k) is Some,
        inner.outcomes() is Some,
        n_fold(inner.outcomes()->0, n) is Some,
    ensures
        n_fold(inner.outcomes()->0, k) is Some,
        n_fold(inner.outcomes()->0, k)->0.contains(sum_rolls(inner, f, a, k)->0),
    decreases inner, k + 1,
{
    let d = inner.outcomes()->0;
    if n_fold(d, k) is None {
        lemma_n_fold_none(d, k, n);
    }
    if k == 0 {
        assert(n_fold(d, 0)->0[0] == 0);
    } else {
        let c = inner.draw_count() as int;
        let j = (k - 1) as nat;
        lemma_split_product(c, k as int);
        lemma_rolls_outcome(inner, f, a, j, n);
        lemma_inner_outcome(inner, f, a + c * j);
        let p = n_fold(d, j)->0;
        let s = sum_rolls(inner, f, a, j)->0;
        let v = inner.roll_value(f, a + c * j)->0;
        lemma_combine_contains(p, d, Op::Add, s, v);
    }
}

/// Every value a term rolls with valid draws is one of its outcomes.
pub proof fn lemma_inner_outcome(inner: Inner, f: Seq<u32>, a: int)
    requires
        inner.draws_valid(f, a),
        inner.roll_value(f, a) is Some,
        inner.outcomes() is Some,
    ensures
        inner.outcomes()->0.contains(inner.roll_value(f, a)->0),
    decreases inner, 0nat,
{
    match inner {
        Inner::BinOp(op) => {
            let cl = (*op.lhs).draw_count() as int;
            lemma_roll_is_outcome(*op.lhs, f, a);
            lemma_roll_is_outcome(*op.rhs, f, a + cl);
            lemma_combine_contains(
                (*op.lhs).outcomes()->0,
                (*op.rhs).outcomes()->0,
                op.op,
                (*op.lhs).roll_value(f, a)->0,
                (*op.rhs).roll_value(f, a + cl)->0,
            );
        },
        Inner::Die(d) => {
            let o = inner.outcomes()->0;
            if d.sides == 0 {
                assert(o[0] == 0);
            } else {
                assert(o[f[a] - 1] == f[a]);
            }
        },
        Inner::Scalar(v) => {
            assert(inner.outcomes()->0[0] == v.0);
        },
    }
}

/// Every outcome of the expression's distribution is what some valid draws
/// roll; with the law above, the outcomes are exactly the values of rolls.
pub proof fn lemma_outcome_is_roll(e: Expr, x: int) -> (fs: Seq<u32>)
    requires
        e.outcomes() is Some,
        e.outcomes()->0.contains(x),
    ensures
        fs.len() == e.draw_count(),
        e.draws_valid(fs, 0),
        e.roll_value(fs, 0) == Some(x),
    decreases e, 0nat,
{
    lemma_sum_is_rolls(e.inner, e.mods.repeat as nat, x)
}

/// Every sum of `k` outcomes of the term is what some valid draws for `k`
/// rolls in a row give.
pub proof fn lemma_sum_is_rolls(inner: Inner, k: nat, x: int) -> (g: Seq<u32>)
    requires
        inner.outcomes() is Some,
        n_fold(inner.outcomes()->0, k) is Some,
        n_fold(inner.outcomes()->0, k)->0.contains(x),
    ensures
        g.len() == inner.draw_count() * k,
        rolls_valid(inner, g, 0, k),
        sum_rolls(inner, g, 0, k) == Some(x),
    decreases inner, k + 1,
{
    let d = inner.outcomes()->0;
    if k == 0 {
        let i = choose|i: int| 0 <= i < n_fold(d, 0)->0.len() && n_fold(d, 0)->0[i] == x;
        assert(x == 0);
        Seq::empty()
    } else {
        let c = inner.draw_count() as int;
        let j = (k - 1) as nat;
        lemma_split_product(c, k as int);
        let p = n_fold(d, j)->0;
        let (s, v) = lemma_combine_member(p, d, Op::Add, x);
        let g = lemma_sum_is_rolls(inner, j, s);
        let gv = lemma_inner_outcome_is_roll(inner, v);
        let g2 = g + gv;
        assert(g2.subrange(0, c * j) =~= g.subrange(0, c * j));
        assert(g2.subrange(c * j, c * j + c) =~= gv.subrange(0, c));
        lemma_rolls_frame(inner, g2, 0, g, 0, j);
        lemma_inner_frame(inner, g2, c * j, gv, 0);
        let i = choose|i: int| 0 <= i < n_fold(d, k)->0.len() && n_fold(d, k)->0[i] == x;
        assert(all_in_i128(n_fold(d, k)->0));
        assert(in_i128(n_fold(d, k)->0[i]));
        g2
    }
}

/// Every outcome of a term is what some valid draws roll.
pub proof fn lemma_inner_outcome_is_roll(inner: Inner, x: int) -> (fs: Seq<u32>)
    requires
        inner.outcomes() is Some,
        inner.outcomes()->0.contains(x),
    ensures
        fs.len() == inner.draw_count(),
        inner.draws_valid(fs, 0),
        inner.roll_value(fs, 0) == Some(x),
    decreases inner, 0nat,
{
    let o = inner.outcomes()->0;
    let i = choose|i: int| 0 <= i < o.len() && o[i] == x;
    match inner {
        Inner::BinOp(op) => {
            let l = *op.lhs;
            let r = *op.rhs;
            let cl = l.draw_count() as int;
            let cr = r.draw_count() as int;
            let (a, b) = lemma_combine_member(l.outcomes()->0, r.outcomes()->0, op.op, x);
            let fl = lemma_outcome_is_roll(l, a);
            let fr = lemma_outcome_is_roll(r, b);
            let fs = fl + fr;
            assert(fs.subrange(0, cl) =~= fl.subrange(0, cl));
            assert(fs.subrange(cl, cl + cr) =~= fr.subrange(0, cr));
            lemma_expr_frame(l, fs, 0, fl, 0);
            lemma_expr_frame(r, fs, cl, fr, 0);
            assert(all_in_i128(o));
            assert(in_i128(o[i]));
            fs
        },
        Inner::Die(d) => {
            if d.sides == 0 {
                Seq::empty()
            } else {
                let fs = seq![x as u32];
                assert(fs[0] == x);
                fs
            }
        },
        Inner::Scalar(_) => Seq::empty(),
    }
}

/// Each draw gives one of the faces of the die it asks for.
pub open spec fn fair(h: Seq<(u32, u32)>) -> bool {
    forall|i: int| 0 <= i < h.len() ==> 1 <= (#[trigger] h[i]).1 <= h[i].0
}

/// Two lots of draws that each give faces of the dice asked for do so together.
pub proof fn lemma_fair_concat(g: Seq<(u32, u32)>, h: Seq<(u32, u32)>)
    requires
        fair(g),
        fair(h),
    ensures
        fair(g + h),
        sides_of(g + h) == sides_of(g) + sides_of(h),
        faces_of(g + h) == faces_of(g) + faces_of(h),
{
    assert forall|i: int| 0 <= i < (g + h).len() implies 1 <= (#[trigger] (g + h)[i]).1 <= (g + h)[i].0 by {
        if i >= g.len() {
            assert((g + h)[i] == h[i - g.len()]);
        }
    }
    assert(sides_of(g + h) =~= sides_of(g) + sides_of(h));
    assert(faces_of(g + h) =~= faces_of(g) + faces_of(h));
}

/// Every outcome of the distribution can come out of a roll: some draws that
/// ask, in order, for each die the expression rolls (the term's dice afresh
/// for each repeat), each giving one of that die's faces, roll it. With the
/// contract of `roll_from`, which asks for exactly these dice and returns the
/// value of what they give, every outcome is a possible result.
pub proof fn lemma_every_outcome_can_be_rolled(e: Expr, x: int) -> (h: Seq<(u32, u32)>)
    requires
        e.outcomes() is Some,
        e.outcomes()->0.contains(x),
    ensures
        sides_of(h) == e.dice_sides(),
        fair(h),
        e.rolled_by(Ok(x as i128), faces_of(h)),
{
    lemma_outcomes_all_fit(e);
    let o = e.outcomes()->0;
    let i = choose|i: int| 0 <= i < o.len() && o[i] == x;
    assert(in_i128(o[i]));
    lemma_outcome_draws(e, x)
}

/// Draws for an outcome of an expression, asking for its dice in order.
proof fn lemma_outcome_draws(e: Expr, x: int) -> (h: Seq<(u32, u32)>)
    requires
        e.outcomes() is Some,
        e.outcomes()->0.contains(x),
    ensures
        sides_of(h) == e.dice_sides(),
        fair(h),
        faces_of(h).len() == e.draw_count(),
        e.draws_valid(faces_of(h), 0),
        e.roll_value(faces_of(h), 0) == Some(x),
    decreases e, 0nat,
{
    lemma_sum_draws(e.inner, e.mods.repeat as nat, x)
}

/// Draws for a sum of `k` outcomes of a term, asking for its dice once for
/// each of the `k` rolls.
proof fn lemma_sum_draws(inner: Inner, k: nat, x: int) -> (g: Seq<(u32, u32)>)
    requires
        inner.outcomes() is Some,
        n_fold(inner.outcomes()->0, k) is Some,
        n_fold(inner.outcomes()->0, k)->0.contains(x),
    ensures
        sides_of(g) == repeated_sides(inner.dice_sides(), k),
        fair(g),
        faces_of(g).len() == inner.draw_count() * k,
        rolls_valid(inner, faces_of(g), 0, k),
        sum_rolls(inner, faces_of(g), 0, k) == Some(x),
    decreases inner, k + 1,
{
    let d = inner.outcomes()->0;
    if k == 0 {
        let i = choose|i: int| 0 <= i < n_fold(d, 0)->0.len() && n_fold(d, 0)->0[i] == x;
        assert(x == 0);
        let g = Seq::<(u32, u32)>::empty();
        assert(sides_of(g) =~= repeated_sides(inner.dice_sides(), 0));
        assert(faces_of(g) =~= Seq::<u32>::empty());
        g
    } else {
        let c = inner.draw_count() as int;
        let j = (k - 1) as nat;
        lemma_split_product(c, k as int);
        let p = n_fold(d, j)->0;
        let (s, v) = lemma_combine_member(p, d, Op::Add, x);
        let g = lemma_sum_draws(inner, j, s);
        let gv = lemma_inner_outcome_draws(inner, v);
        let g2 = g + gv;
        lemma_fair_concat(g, gv);
        let f = faces_of(g);
        let fv = faces_of(gv);
        let f2 = faces_of(g2);
        assert(f2.subrange(0, c * j) =~= f.subrange(0, c * j));
        assert(f2.subrange(c * j, c * j + c) =~= fv.subrange(0, c));
        lemma_rolls_frame(inner, f2, 0, f, 0, j);
        lemma_inner_frame(inner, f2, c * j, fv, 0);
        let i = choose|i: int| 0 <= i < n_fold(d, k)->0.len() && n_fold(d, k)->0[i] == x;
        assert(all_in_i128(n_fold(d, k)->0));
        assert(in_i128(n_fold(d, k)->0[i]));
        g2
    }
}

/// Draws for an outcome of a term, asking for its dice in order.
proof fn lemma_inner_outcome_draws(inner: Inner, x: int) -> (h: Seq<(u32, u32)>)
    requires
        inner.outcomes() is Some,
        inner.outcomes()->0.contains(x),
    ensures
        sides_of(h) == inner.dice_sides(),
        fair(h),
        faces_of(h).len() == inner.draw_count(),
        inner.draws_valid(faces_of(h), 0),
        inner.roll_value(faces_of(h), 0) == Some(x),
    decreases inner, 0nat,
{
    let o = inner.outcomes()->0;
    let i = choose|i: int| 0 <= i < o.len() && o[i] == x;
    match inner {
        Inner::BinOp(op) => {
            let l = *op.lhs;
            let r = *op.rhs;
            let cl = l.draw_count() as int;
            let cr = r.draw_count() as int;
            let (a, b) = lemma_combine_member(l.outcomes()->0, r.outcomes()->0, op.op, x);
            let hl = lemma_outcome_draws(l, a);
            let hr = lemma_outcome_draws(r, b);
            let h = hl + hr;
            lemma_fair_concat(hl, hr);
            let fs = faces_of(h);
            assert(fs.subrange(0, cl) =~= faces_of(hl).subrange(0, cl));
            assert(fs.subrange(cl, cl + cr) =~= faces_of(hr).subrange(0, cr));
            lemma_expr_frame(l, fs, 0, faces_of(hl), 0);
            lemma_expr_frame(r, fs, cl, faces_of(hr), 0);
            assert(all_in_i128(o));
            assert(in_i128(o[i]));
            h
        },
        Inner::Die(d) => {
            if d.sides == 0 {
                let h = Seq::<(u32, u32)>::empty();
                assert(sides_of(h) =~= inner.dice_sides());
                assert(faces_of(h) =~= Seq::<u32>::empty());
                h
            } else {
                let h = seq![(d.sides, x as u32)];
                assert(h[0] == (d.sides, x as u32));
                assert(sides_of(h) =~= inner.dice_sides());
                assert(faces_of(h) =~= seq![x as u32]);
                h
            }
        },
        Inner::Scalar(_) => {
            let h = Seq::<(u32, u32)>::empty();
            assert(sides_of(h) =~= inner.dice_sides());
            assert(faces_of(h) =~= Seq::<u32>::empty());
            h
        },
    }
}

/// Every face of a die can come up: for each face `f`, the one draw that
/// asks for the die's number of sides and gives `f` is the draw `roll_from`
/// makes for the die, and the die then shows `f`.
pub proof fn lemma_every_face_can_come_up(d: Die, f: u32) -> (h: Seq<(u32, u32)>)
    requires
        1 <= f <= d.sides,
    ensures
        sides_of(h) == d.dice_sides(),
        fair(h),
        faces_of(h).len() == d.draw_count(),
        d.draws_valid(faces_of(h), 0),
        d.roll_value(faces_of(h), 0) == f,
{
    let h = seq![(d.sides, f)];
    assert(h[0] == (d.sides, f));
    assert(sides_of(h) =~= d.dice_sides());
    assert(faces_of(h) =~= seq![f]);
    h
}

} // verus!
