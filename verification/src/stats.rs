use vstd::prelude::*;

use crate::expr::binop::Op;
use crate::expr::error::{in_i128, Error, Result};

verus! {

/// The outcomes of a roll, one entry per equally likely way of rolling,
/// values repeated as often as they can come up.
#[derive(Debug)]
pub struct Distribution(pub Vec<i128>);

impl Clone for Distribution {
    fn clone(&self) -> (d: Self)
        ensures
            d@ == self@,
    {
        let v = self.0.clone();
        assert(v@ =~= self@);
        Distribution(v)
    }
}

impl View for Distribution {
    type V = Seq<i128>;

    open spec fn view(&self) -> Seq<i128> {
        self.0@
    }
}

/// The outcomes as mathematical integers.
pub open spec fn ints(s: Seq<i128>) -> Seq<int> {
    s.map_values(|x: i128| x as int)
}

/// Every outcome of `s` fits in `i128`.
pub open spec fn all_in_i128(s: Seq<int>) -> bool {
    forall|k: int| 0 <= k < s.len() ==> in_i128(#[trigger] s[k])
}

/// Every way of combining an outcome of `a` with one of `b` by `op`:
/// for each outcome of `a` in order, each outcome of `b` in order.
pub open spec fn combine(a: Seq<int>, b: Seq<int>, op: Op) -> Seq<int>
    decreases a.len(),
{
    if a.len() == 0 {
        Seq::empty()
    } else {
        combine(a.drop_last(), b, op) + row(a.last(), b, op)
    }
}

/// `x` combined by `op` with each outcome of `b`.
pub open spec fn row(x: int, b: Seq<int>, op: Op) -> Seq<int> {
    b.map_values(|y: int| op.eval(x, y))
}

/// How often `v` occurs in `s`.
pub open spec fn count(s: Seq<i128>, v: i128) -> nat
    decreases s.len(),
{
    if s.len() == 0 {
        0
    } else {
        count(s.drop_last(), v) + if s.last() == v { 1nat } else { 0nat }
    }
}

/// Every sum of one outcome of `d` from each of `n` rolls, in the order of
/// combining the sums of `n - 1` rolls with one more roll; `[0]` for no roll.
/// `None` when a sum leaves `i128`.
pub open spec fn n_fold(d: Seq<int>, n: nat) -> Option<Seq<int>>
    decreases n,
{
    if n == 0 {
        Some(seq![0])
    } else {
        match n_fold(d, (n - 1) as nat) {
            Some(p) => {
                let c = combine(p, d, Op::Add);
                if all_in_i128(c) {
                    Some(c)
                } else {
                    None
                }
            },
            None => None,
        }
    }
}

/// Once a sum of rolls leaves `i128`, sums of more rolls have no outcomes either.
pub proof fn lemma_n_fold_none(d: Seq<int>, k: nat, n: nat)
    requires
        k <= n,
        n_fold(d, k) is None,
    ensures
        n_fold(d, n) is None,
    decreases n - k,
{
    if k < n {
        lemma_n_fold_none(d, k + 1, n);
    }
}

/// The sums of `n` rolls of outcomes in `[lo, hi]` lie in `[n * lo, n * hi]`,
/// and both ends occur when `lo` and `hi` do.
pub proof fn lemma_n_fold_within(d: Seq<int>, lo: int, hi: int, n: nat)
    requires
        within(d, lo, hi),
        d.contains(lo),
        d.contains(hi),
        n_fold(d, n) is Some,
    ensures
        within(n_fold(d, n)->0, lo * n, hi * n),
        n_fold(d, n)->0.contains(lo * n),
        n_fold(d, n)->0.contains(hi * n),
    decreases n,
{
    if n == 0 {
        assert(n_fold(d, n)->0[0] == 0);
    } else {
        let m = (n - 1) as nat;
        lemma_n_fold_within(d, lo, hi, m);
        let p = n_fold(d, m)->0;
        lemma_combine_within(p, d, Op::Add, lo * m, hi * m, lo, hi);
        lemma_combine_contains(p, d, Op::Add, lo * m, lo);
        lemma_combine_contains(p, d, Op::Add, hi * m, hi);
        assert(lo * m + lo == lo * n) by (nonlinear_arith)
            requires m + 1 == n;
        assert(hi * m + hi == hi * n) by (nonlinear_arith)
            requires m + 1 == n;
    }
}

/// `t` lists each value of `s` once, with how often it occurs.
pub open spec fn tallies(s: Seq<i128>, t: Seq<(i128, usize)>) -> bool {
    &&& forall|k: int| 0 <= k < t.len() ==> (#[trigger] t[k]).1 == count(s, t[k].0) && t[k].1 >= 1
    &&& forall|k: int, l: int| 0 <= k < l < t.len() ==> (#[trigger] t[k]).0 != (#[trigger] t[l]).0
    &&& forall|x: i128| #[trigger] s.contains(x) ==> exists|k: int| 0 <= k < t.len() && (#[trigger] t[k]).0 == x
}

proof fn lemma_count_push(s: Seq<i128>, x: i128, v: i128)
    ensures
        count(s.push(x), v) == count(s, v) + if x == v { 1nat } else { 0nat },
{
    assert(s.push(x).drop_last() =~= s);
}

proof fn lemma_count_absent(s: Seq<i128>, v: i128)
    requires
        !s.contains(v),
    ensures
        count(s, v) == 0,
    decreases s.len(),
{
    if s.len() > 0 {
        assert(!s.drop_last().contains(v)) by {
            if s.drop_last().contains(v) {
                let k = choose|k: int| 0 <= k < s.drop_last().len() && s.drop_last()[k] == v;
                assert(s[k] == v);
            }
        }
        lemma_count_absent(s.drop_last(), v);
        assert(s[s.len() - 1] != v);
    }
}

proof fn lemma_combine_len(a: Seq<int>, b: Seq<int>, op: Op)
    ensures
        combine(a, b, op).len() == a.len() * b.len(),
    decreases a.len(),
{
    if a.len() > 0 {
        lemma_combine_len(a.drop_last(), b, op);
        assert(a.len() * b.len() == (a.len() - 1) * b.len() + b.len()) by (nonlinear_arith);
    }
}

/// The outcome at row `i`, column `j` of the combination.
proof fn lemma_combine_at(a: Seq<int>, b: Seq<int>, op: Op, i: int, j: int)
    requires
        0 <= i < a.len(),
        0 <= j < b.len(),
    ensures
        combine(a, b, op).len() == a.len() * b.len(),
        0 <= i * b.len() + j < a.len() * b.len(),
        combine(a, b, op)[i * b.len() + j] == op.eval(a[i], b[j]),
    decreases a.len(),
{
    lemma_combine_len(a, b, op);
    let n = b.len() as int;
    assert(0 <= i * n + j < a.len() * n) by (nonlinear_arith)
        requires 0 <= i < a.len(), 0 <= j < n;
    let front = a.drop_last();
    lemma_combine_len(front, b, op);
    if i == a.len() - 1 {
        assert(front.len() * n == i * n);
    } else {
        lemma_combine_at(front, b, op, i, j);
    }
}

/// Every outcome of `s` lies in `[lo, hi]`.
pub open spec fn within(s: Seq<int>, lo: int, hi: int) -> bool {
    forall|k: int| 0 <= k < s.len() ==> lo <= #[trigger] s[k] <= hi
}

/// Combining outcomes within bounds gives outcomes within the combined bounds.
pub proof fn lemma_combine_within(a: Seq<int>, b: Seq<int>, op: Op, alo: int, ahi: int, blo: int, bhi: int)
    requires
        within(a, alo, ahi),
        within(b, blo, bhi),
    ensures
        op == Op::Add ==> within(combine(a, b, op), alo + blo, ahi + bhi),
        op == Op::Sub ==> within(combine(a, b, op), alo - bhi, ahi - blo),
    decreases a.len(),
{
    if a.len() > 0 {
        lemma_combine_within(a.drop_last(), b, op, alo, ahi, blo, bhi);
        let c = combine(a, b, op);
        let front = combine(a.drop_last(), b, op);
        assert forall|k: int| 0 <= k < c.len() implies (op == Op::Add ==> alo + blo <= #[trigger] c[k] <= ahi + bhi)
            && (op == Op::Sub ==> alo - bhi <= c[k] <= ahi - blo) by {
            if k >= front.len() {
                assert(c[k] == op.eval(a.last(), b[k - front.len()]));
            } else {
                assert(c[k] == front[k]);
            }
        }
    }
}

/// The combination holds `x op y` for an outcome `x` of `a` and `y` of `b`.
pub proof fn lemma_combine_contains(a: Seq<int>, b: Seq<int>, op: Op, x: int, y: int)
    requires
        a.contains(x),
        b.contains(y),
    ensures
        combine(a, b, op).contains(op.eval(x, y)),
{
    let i = choose|i: int| 0 <= i < a.len() && a[i] == x;
    let j = choose|j: int| 0 <= j < b.len() && b[j] == y;
    lemma_combine_at(a, b, op, i, j);
}

/// Each outcome of a combination combines an outcome of `a` with one of `b`.
pub proof fn lemma_combine_member(a: Seq<int>, b: Seq<int>, op: Op, x: int) -> (xy: (int, int))
    requires
        combine(a, b, op).contains(x),
    ensures
        a.contains(xy.0),
        b.contains(xy.1),
        x == op.eval(xy.0, xy.1),
    decreases a.len(),
{
    let front = combine(a.drop_last(), b, op);
    let r = row(a.last(), b, op);
    let k = choose|k: int| 0 <= k < combine(a, b, op).len() && combine(a, b, op)[k] == x;
    if k < front.len() {
        assert(front[k] == x);
        let (u, v) = lemma_combine_member(a.drop_last(), b, op, x);
        let i = choose|i: int| 0 <= i < a.drop_last().len() && a.drop_last()[i] == u;
        assert(a[i] == u);
        (u, v)
    } else {
        let j = k - front.len();
        assert(r[j] == x);
        assert(a[a.len() - 1] == a.last());
        assert(b[j] == b[j]);
        (a.last(), b[j])
    }
}

impl Distribution {
    /// Combines every outcome of `self` with every outcome of `rhs`, with
    /// checked arithmetic.
    pub fn combine(&self, rhs: &Distribution, op: Op) -> (r: Result<Distribution>)
        ensures
            r is Ok <==> all_in_i128(combine(ints(self@), ints(rhs@), op)),
            r matches Ok(d) ==> ints(d@) == combine(ints(self@), ints(rhs@), op),
            r matches Err(e) ==> e == Error::Overflow,
    {
        let ghost a = ints(self@);
        let ghost b = ints(rhs@);
        let mut out: Vec<i128> = Vec::new();
        let mut i: usize = 0;
        while i < self.0.len()
            invariant
                i <= self.0.len(),
                a == ints(self@),
                b == ints(rhs@),
                ints(out@) == combine(a.take(i as int), b, op),
                all_in_i128(combine(a.take(i as int), b, op)),
            decreases self.0.len() - i,
        {
            let x = self.0[i];
            let ghost before = out@;
            let mut j: usize = 0;
            while j < rhs.0.len()
                invariant
                    i < self.0.len(),
                    j <= rhs.0.len(),
                    a == ints(self@),
                    b == ints(rhs@),
                    x == self@[i as int],
                    ints(before) == combine(a.take(i as int), b, op),
                    ints(out@) == ints(before) + row(x as int, b.take(j as int), op),
                decreases rhs.0.len() - j,
            {
                let y = rhs.0[j];
                let v = match op {
                    Op::Add => x.checked_add(y),
                    Op::Sub => x.checked_sub(y),
                };
                match v {
                    Some(v) => {
                        let ghost prev = out@;
                        out.push(v);
                        assert(ints(out@) =~= ints(prev).push(v as int));
                        assert(row(x as int, b.take(j + 1), op) =~= row(x as int, b.take(j as int), op).push(op.eval(x as int, b[j as int])));
                        assert(ints(out@) =~= ints(before) + row(x as int, b.take(j + 1), op));
                    },
                    None => {
                        proof {
                            lemma_combine_at(a, b, op, i as int, j as int);
                            let k = i * b.len() + j;
                            assert(!in_i128(combine(a, b, op)[k]));
                        }
                        return Err(Error::Overflow);
                    },
                }
                j = j + 1;
            }
            proof {
                assert(a.take(i + 1).drop_last() =~= a.take(i as int));
                assert(b.take(j as int) =~= b);
                assert(ints(out@) == combine(a.take(i + 1), b, op));
            }
            i = i + 1;
        }
        proof {
            assert(a.take(i as int) =~= a);
        }
        Ok(Distribution(out))
    }

    /// Every sum of an outcome of `self` and an outcome of `rhs`.
    pub fn add(self, rhs: Self) -> (r: Result<Distribution>)
        ensures
            r is Ok <==> all_in_i128(combine(ints(self@), ints(rhs@), Op::Add)),
            r matches Ok(d) ==> ints(d@) == combine(ints(self@), ints(rhs@), Op::Add),
            r matches Err(e) ==> e == Error::Overflow,
    {
        self.combine(&rhs, Op::Add)
    }

    /// Every difference of an outcome of `self` and an outcome of `rhs`.
    pub fn sub(self, rhs: Self) -> (r: Result<Distribution>)
        ensures
            r is Ok <==> all_in_i128(combine(ints(self@), ints(rhs@), Op::Sub)),
            r matches Ok(d) ==> ints(d@) == combine(ints(self@), ints(rhs@), Op::Sub),
            r matches Err(e) ==> e == Error::Overflow,
    {
        self.combine(&rhs, Op::Sub)
    }

    /// Each distinct outcome once, with how often it occurs.
    pub fn iter(&self) -> (t: Vec<(i128, usize)>)
        ensures
            tallies(self@, t@),
    {
        let mut t: Vec<(i128, usize)> = Vec::new();
        let mut i: usize = 0;
        while i < self.0.len()
            invariant
                i <= self.0.len(),
                tallies(self@.take(i as int), t@),
                forall|k: int| 0 <= k < t.len() ==> (#[trigger] t@[k]).1 <= i,
            decreases self.0.len() - i,
        {
            let x = self.0[i];
            let ghost p = self@.take(i as int);
            assert(self@.take(i + 1) =~= p.push(x));
            let mut k: usize = 0;
            while k < t.len() && t[k].0 != x
                invariant
                    k <= t.len(),
                    forall|l: int| 0 <= l < k ==> (#[trigger] t@[l]).0 != x,
                decreases t.len() - k,
            {
                k = k + 1;
            }
            let ghost old_t = t@;
            if k < t.len() {
                let c = t[k].1;
                t.set(k, (x, c + 1));
                proof {
                    assert forall|v: i128| true implies count(p.push(x), v) == count(p, v) + if x == v { 1nat } else { 0nat } by {
                        lemma_count_push(p, x, v);
                    }
                    assert forall|y: i128| #[trigger] p.push(x).contains(y) implies exists|l: int| 0 <= l < t.len() && (#[trigger] t@[l]).0 == y by {
                        if y != x {
                            let m = choose|m: int| 0 <= m < p.len() + 1 && p.push(x)[m] == y;
                            assert(p.contains(y)) by { assert(p[m] == y); }
                            let l = choose|l: int| 0 <= l < old_t.len() && (#[trigger] old_t[l]).0 == y;
                            assert(t@[l].0 == y);
                        } else {
                            assert(t@[k as int].0 == y);
                        }
                    }
                }
            } else {
                t.push((x, 1));
                proof {
                    assert(!p.contains(x)) by {
                        if p.contains(x) {
                            let l = choose|l: int| 0 <= l < old_t.len() && (#[trigger] old_t[l]).0 == x;
                        }
                    }
                    lemma_count_absent(p, x);
                    assert forall|v: i128| true implies count(p.push(x), v) == count(p, v) + if x == v { 1nat } else { 0nat } by {
                        lemma_count_push(p, x, v);
                    }
                    assert forall|y: i128| #[trigger] p.push(x).contains(y) implies exists|l: int| 0 <= l < t.len() && (#[trigger] t@[l]).0 == y by {
                        if y != x {
                            let m = choose|m: int| 0 <= m < p.len() + 1 && p.push(x)[m] == y;
                            assert(p.contains(y)) by { assert(p[m] == y); }
                            let l = choose|l: int| 0 <= l < old_t.len() && (#[trigger] old_t[l]).0 == y;
                            assert(t@[l].0 == y);
                        } else {
                            assert(t@[old_t.len() as int].0 == y);
                        }
                    }
                }
            }
            i = i + 1;
        }
        assert(self@.take(i as int) =~= self@);
        t
    }

    /// All outcomes, each as often as it can come up.
    pub fn into_iter(self) -> (v: Vec<i128>)
        ensures
            v@ == self@,
    {
        self.0
    }

    /// The smallest outcome.
    pub fn min(&self) -> (r: Result<i128>)
        ensures
            r is Err <==> self@.len() == 0,
            r matches Err(e) ==> e == Error::EmptyDistribution,
            r matches Ok(v) ==> self@.contains(v) && forall|k: int| 0 <= k < self@.len() ==> v <= #[trigger] self@[k],
    {
        if self.0.len() == 0 {
            return Err(Error::EmptyDistribution);
        }
        let mut best = self.0[0];
        let mut i: usize = 1;
        assert(self@.take(1)[0] == best);
        while i < self.0.len()
            invariant
                1 <= i <= self.0.len(),
                self@.take(i as int).contains(best),
                forall|k: int| 0 <= k < i ==> best <= #[trigger] self@[k],
            decreases self.0.len() - i,
        {
            if self.0[i] < best {
                best = self.0[i];
                assert(self@.take(i + 1)[i as int] == best);
            } else {
                proof {
                    let j = choose|j: int| 0 <= j < i && self@.take(i as int)[j] == best;
                    assert(self@.take(i + 1)[j] == best);
                }
            }
            i = i + 1;
        }
        assert(self@.take(i as int) =~= self@);
        Ok(best)
    }

    /// The largest outcome.
    pub fn max(&self) -> (r: Result<i128>)
        ensures
            r is Err <==> self@.len() == 0,
            r matches Err(e) ==> e == Error::EmptyDistribution,
            r matches Ok(v) ==> self@.contains(v) && forall|k: int| 0 <= k < self@.len() ==> #[trigger] self@[k] <= v,
    {
        if self.0.len() == 0 {
            return Err(Error::EmptyDistribution);
        }
        let mut best = self.0[0];
        let mut i: usize = 1;
        assert(self@.take(1)[0] == best);
        while i < self.0.len()
            invariant
                1 <= i <= self.0.len(),
                self@.take(i as int).contains(best),
                forall|k: int| 0 <= k < i ==> #[trigger] self@[k] <= best,
            decreases self.0.len() - i,
        {
            if self.0[i] > best {
                best = self.0[i];
                assert(self@.take(i + 1)[i as int] == best);
            } else {
                proof {
                    let j = choose|j: int| 0 <= j < i && self@.take(i as int)[j] == best;
                    assert(self@.take(i + 1)[j] == best);
                }
            }
            i = i + 1;
        }
        assert(self@.take(i as int) =~= self@);
        Ok(best)
    }
}

} // verus!
