use vstd::prelude::*;

use crate::expr::binop::Op;
use crate::expr::expr::Expr;
use crate::expr::inner::Inner;
use crate::expr::number::{digits_value, int_text, is_digit, lemma_nat_text, nat_text};
use crate::expr::modifier::Modifier;
use crate::expr::parser::{
    digit_run, is_ws, parse_chain, parse_die, parse_expr, parse_i32, parse_op, parse_operand,
    parse_parens, parse_text, parse_u32, repeated, ws_run,
};

verus! {

/// `t` stands in `s` from position `i` on.
pub open spec fn occurs_at(s: Seq<char>, i: nat, t: Seq<char>) -> bool {
    i + t.len() <= s.len() && s.subrange(i as int, (i + t.len()) as int) == t
}

proof fn lemma_occurs_char(s: Seq<char>, i: nat, t: Seq<char>, k: int)
    requires
        occurs_at(s, i, t),
        0 <= k < t.len(),
    ensures
        s[i + k] == t[k],
{
    assert(s.subrange(i as int, (i + t.len()) as int)[k] == s[i + k]);
}

proof fn lemma_occurs_split(s: Seq<char>, i: nat, a: Seq<char>, b: Seq<char>)
    requires
        occurs_at(s, i, a + b),
    ensures
        occurs_at(s, i, a),
        occurs_at(s, i + a.len(), b),
{
    let t = a + b;
    assert forall|k: int| 0 <= k < a.len() implies s.subrange(i as int, (i + a.len()) as int)[k] == a[k] by {
        lemma_occurs_char(s, i, t, k);
    }
    assert(s.subrange(i as int, (i + a.len()) as int) =~= a);
    assert forall|k: int| 0 <= k < b.len() implies s.subrange((i + a.len()) as int, (i + a.len() + b.len()) as int)[k] == b[k] by {
        lemma_occurs_char(s, i, t, a.len() + k);
    }
    assert(s.subrange((i + a.len()) as int, (i + a.len() + b.len()) as int) =~= b);
}

proof fn lemma_ws_run_zero(s: Seq<char>, p: nat)
    requires
        p < s.len() ==> !is_ws(s[p as int]),
    ensures
        ws_run(s, p) == 0,
{
}

proof fn lemma_ws_run_one(s: Seq<char>, p: nat)
    requires
        p < s.len(),
        is_ws(s[p as int]),
        p + 1 < s.len() ==> !is_ws(s[(p + 1) as int]),
    ensures
        ws_run(s, p) == 1,
{
    lemma_ws_run_zero(s, p + 1);
}

proof fn lemma_digit_run_exact(s: Seq<char>, i: nat, k: nat)
    requires
        i + k <= s.len(),
        forall|j: int| i <= j < i + k ==> is_digit(#[trigger] s[j]),
        i + k < s.len() ==> !is_digit(s[(i + k) as int]),
    ensures
        digit_run(s, i) == k,
    decreases k,
{
    if k > 0 {
        lemma_digit_run_exact(s, i + 1, (k - 1) as nat);
    }
}

/// The text of `n` followed by a non-digit reads back as `n`.
proof fn lemma_read_nat(s: Seq<char>, i: nat, n: nat)
    requires
        occurs_at(s, i, nat_text(n)),
        i + nat_text(n).len() < s.len() ==> !is_digit(s[(i + nat_text(n).len()) as int]),
    ensures
        digit_run(s, i) == nat_text(n).len(),
        digits_value(s.subrange(i as int, (i + nat_text(n).len()) as int)) == n,
        n <= u32::MAX ==> parse_u32(s, i) == Some((n as u32, nat_text(n).len())),
{
    let t = nat_text(n);
    lemma_nat_text(n);
    assert forall|j: int| i <= j < i + t.len() implies is_digit(#[trigger] s[j]) by {
        lemma_occurs_char(s, i, t, j - i);
        assert(is_digit(t[j - i]));
    }
    lemma_digit_run_exact(s, i, t.len());
}

/// The text of `v` followed by a non-digit reads back as the constant `v`.
proof fn lemma_read_int(s: Seq<char>, i: nat, v: i32)
    requires
        occurs_at(s, i, int_text(v as int)),
        i + int_text(v as int).len() < s.len() ==> !is_digit(s[(i + int_text(v as int).len()) as int]),
    ensures
        parse_i32(s, i) == Some((v, int_text(v as int).len())),
{
    if v < 0 {
        let m = (-v) as nat;
        lemma_occurs_split(s, i, seq!['-'], nat_text(m));
        lemma_occurs_char(s, i, int_text(v as int), 0);
        lemma_read_nat(s, i + 1, m);
    } else {
        let m = v as nat;
        lemma_read_nat(s, i, m);
        lemma_nat_text(m);
        lemma_occurs_char(s, i, nat_text(m), 0);
    }
}


/// Whether the text of `e` ends with a closing parenthesis.
pub open spec fn ends_with_paren(e: Expr, in_rhs: bool) -> bool
    decreases e,
{
    match e.inner {
        Inner::BinOp(b) => if e.mods.repeat != 1 || in_rhs {
            true
        } else {
            ends_with_paren(*b.rhs, true)
        },
        Inner::Die(_) => false,
        Inner::Scalar(_) => e.mods.repeat != 1,
    }
}

/// What the parser takes beyond the text of `e` ending at `p`: the
/// whitespace after a closing parenthesis.
pub open spec fn after(e: Expr, in_rhs: bool, s: Seq<char>, p: nat) -> nat {
    if ends_with_paren(e, in_rhs) {
        ws_run(s, p)
    } else {
        0
    }
}

/// What follows position `p` cannot extend an operand that ends there.
pub open spec fn stops(s: Seq<char>, p: nat) -> bool {
    &&& (p < s.len() ==> !is_digit(s[p as int]) && s[p as int] != 'd')
    &&& !(p + ws_run(s, p) < s.len() && s[(p + ws_run(s, p)) as int] == '(')
}

pub open spec fn shift(r: Option<(Expr, nat)>, d: nat) -> Option<(Expr, nat)> {
    match r {
        Some((e, k)) => Some((e, d + k)),
        None => None,
    }
}

/// An operation that is not repeated: written without parentheses on the left.
pub open spec fn is_plain_binop(e: Expr) -> bool {
    e.inner is BinOp && e.mods.repeat == 1
}

proof fn lemma_text_start(e: Expr, in_rhs: bool)
    ensures
        e.text(in_rhs).len() > 0,
        !is_ws(e.text(in_rhs)[0]),
    decreases e,
{
    let r = e.mods.repeat;
    if r != 1 {
        lemma_nat_text(r as nat);
        assert(is_digit(nat_text(r as nat)[0]));
    } else {
        match e.inner {
            Inner::BinOp(b) => {
                if !in_rhs {
                    lemma_text_start(*b.lhs, false);
                    assert(e.text(in_rhs)[0] == (*b.lhs).text(false)[0]);
                }
            },
            Inner::Die(d) => {},
            Inner::Scalar(v) => {
                if v.0 >= 0 {
                    lemma_nat_text(v.0 as nat);
                    assert(is_digit(nat_text(v.0 as nat)[0]));
                }
            },
        }
    }
}

proof fn lemma_text_side(e: Expr)
    requires
        !is_plain_binop(e),
    ensures
        e.text(false) == e.text(true),
        ends_with_paren(e, false) == ends_with_paren(e, true),
{
}

/// No digit starts the text: no die and no parenthesis can follow.
proof fn lemma_no_count(s: Seq<char>, i: nat)
    requires
        i < s.len(),
        !is_digit(s[i as int]),
    ensures
        parse_u32(s, i) is None,
{
}

/// Neither a parenthesis nor whitespace at `i`: no parenthesised operand.
proof fn lemma_no_parens(s: Seq<char>, i: nat)
    requires
        i < s.len(),
        !is_ws(s[i as int]),
        s[i as int] != '(',
    ensures
        parse_parens(s, i) is None,
{
    lemma_ws_run_zero(s, i);
}

/// The chain ends where no operator follows.
proof fn lemma_chain_end(s: Seq<char>, q: nat, e: Expr)
    requires
        q < s.len() ==> !is_ws(s[q as int]) && s[q as int] != '+' && s[q as int] != '-',
    ensures
        parse_chain(s, q, e) == Some((e, 0nat)),
{
    lemma_ws_run_zero(s, q);
}

proof fn lemma_operand_counted(s: Seq<char>, i: nat, c: u32, d: nat, body: Expr, n: nat, r: Expr)
    requires
        parse_u32(s, i) == Some((c, d)),
        parse_die(s, i + d) == Some((body, n)) || (parse_die(s, i + d) is None && parse_parens(s, i + d) == Some((body, n))),
        repeated(body, c) == Some(r),
    ensures
        parse_operand(s, i) == Some((r, d + n)),
{
}

proof fn lemma_operand_uncounted(s: Seq<char>, i: nat, body: Expr, n: nat)
    requires
        parse_u32(s, i) is None,
        parse_die(s, i) == Some((body, n)) || (parse_die(s, i) is None && parse_parens(s, i) == Some((body, n))),
    ensures
        parse_operand(s, i) == Some((body, n)),
{
}

proof fn lemma_operand_constant(s: Seq<char>, i: nat, v: i32, n: nat)
    requires
        parse_u32(s, i) matches Some((_, d)) ==> parse_die(s, i + d) is None && parse_parens(s, i + d) is None,
        parse_u32(s, i) is None ==> parse_die(s, i) is None && parse_parens(s, i) is None,
        parse_i32(s, i) == Some((v, n)),
    ensures
        parse_operand(s, i) == Some((Expr::scalar_spec(v), n)),
{
}

/// `( e )` at `j`, with `e` parsed inside.
proof fn lemma_parens_of(s: Seq<char>, j: nat, e: Expr, n: nat)
    requires
        j < s.len(),
        s[j as int] == '(',
        j + 1 < s.len() && !is_ws(s[(j + 1) as int]),
        parse_expr(s, j + 1) == Some((e, n)),
        j + 1 + n < s.len(),
        s[(j + 1 + n) as int] == ')',
    ensures
        parse_parens(s, j) == Some((e, n + 2 + ws_run(s, j + n + 2))),
{
    lemma_ws_run_zero(s, j);
    lemma_ws_run_zero(s, j + 1);
    lemma_ws_run_zero(s, j + 1 + n);
}

proof fn lemma_expr_unfold(s: Seq<char>, i: nat, e: Expr, n: nat)
    requires
        parse_operand(s, i) == Some((e, n)),
    ensures
        parse_expr(s, i) == shift(parse_chain(s, i + n, e), n),
{
}

proof fn lemma_chain_step(s: Seq<char>, i: nat, acc: Expr, op: Op, m: nat, e: Expr, n: nat)
    requires
        parse_op(s, i) == Some((op, m)),
        parse_operand(s, i + m) == Some((e, n)),
    ensures
        parse_chain(s, i, acc) == shift(parse_chain(s, i + m + n, Expr::bin(op, acc, e)), m + n),
{
}

proof fn lemma_operand_die(e: Expr, s: Seq<char>, i: nat)
    requires
        e.inner is Die,
        occurs_at(s, i, e.text(true)),
        stops(s, i + e.text(true).len()),
    ensures
        parse_operand(s, i) == Some((e, e.text(true).len())),
{
    let t = e.text(true);
    let r = e.mods.repeat;
    let d = e.inner->Die_0;
    let dt = seq!['d'] + nat_text(d.sides as nat);
    let body = Expr::die_spec(d.sides);
    if r == 1 {
        assert(t =~= dt);
        lemma_occurs_split(s, i, seq!['d'], nat_text(d.sides as nat));
        lemma_occurs_char(s, i, t, 0);
        lemma_read_nat(s, i + 1, d.sides as nat);
        lemma_no_count(s, i);
        assert(parse_die(s, i) == Some((body, t.len())));
        lemma_operand_uncounted(s, i, body, t.len());
    } else {
        let ct = nat_text(r as nat);
        assert(t =~= ct + dt);
        lemma_occurs_split(s, i, ct, dt);
        lemma_occurs_split(s, i + ct.len(), seq!['d'], nat_text(d.sides as nat));
        lemma_occurs_char(s, i + ct.len(), dt, 0);
        lemma_read_nat(s, i, r as nat);
        lemma_read_nat(s, i + ct.len() + 1, d.sides as nat);
        assert(parse_die(s, i + ct.len()) == Some((body, dt.len())));
        assert(repeated(body, r) == Some(e));
        lemma_operand_counted(s, i, r, ct.len(), body, dt.len(), e);
    }
}

proof fn lemma_operand_constant_text(e: Expr, s: Seq<char>, i: nat)
    requires
        e.inner is Scalar,
        e.mods.repeat == 1,
        occurs_at(s, i, e.text(true)),
        stops(s, i + e.text(true).len()),
    ensures
        parse_operand(s, i) == Some((e, e.text(true).len())),
{
    let v = e.inner->Scalar_0;
    let t = e.text(true);
    let p: nat = i + t.len();
    assert(t =~= int_text(v.0 as int));
    lemma_text_start(e, true);
    lemma_occurs_char(s, i, t, 0);
    if v.0 >= 0 {
        lemma_read_nat(s, i, v.0 as nat);
        if p < s.len() && !is_ws(s[p as int]) {
            lemma_no_parens(s, p);
        }
        assert(parse_parens(s, p) is None);
        assert(parse_die(s, p) is None);
    } else {
        lemma_no_count(s, i);
        lemma_no_parens(s, i);
    }
    lemma_read_int(s, i, v.0);
    lemma_operand_constant(s, i, v.0, t.len());
}

proof fn lemma_operand_scalar(e: Expr, s: Seq<char>, i: nat)
    requires
        e.inner is Scalar,
        e.mods.repeat != 1,
        occurs_at(s, i, e.text(true)),
        stops(s, i + e.text(true).len()),
    ensures
        parse_operand(s, i) == Some(
            (e, e.text(true).len() + ws_run(s, i + e.text(true).len())),
        ),
{
    let v = e.inner->Scalar_0;
    let t = e.text(true);
    let p: nat = i + t.len();
    let r = e.mods.repeat;
    let vt = int_text(v.0 as int);
    let ct = nat_text(r as nat);
    let pt = seq!['('] + vt + seq![')'];
    assert(t =~= ct + pt);
    lemma_occurs_split(s, i, ct, pt);
    lemma_occurs_split(s, i + ct.len(), seq!['('] + vt, seq![')']);
    lemma_occurs_split(s, i + ct.len(), seq!['('], vt);
    let j: nat = i + ct.len();
    lemma_occurs_char(s, j, pt, 0);
    lemma_occurs_char(s, j, pt, (vt.len() + 1) as int);
    lemma_read_nat(s, i, r as nat);
    let one = Expr { inner: e.inner, mods: Modifier { repeat: 1 } };
    assert(one.text(true) =~= vt);
    let k: nat = j + 1 + vt.len();
    lemma_operand_constant_text(one, s, j + 1);
    lemma_text_start(one, true);
    lemma_occurs_char(s, j + 1, vt, 0);
    lemma_expr_unfold(s, j + 1, one, vt.len());
    lemma_chain_end(s, k, one);
    lemma_parens_of(s, j, one, vt.len());
    assert(parse_die(s, j) is None);
    assert(repeated(one, r) == Some(e));
    lemma_operand_counted(s, i, r, ct.len(), one, pt.len() + ws_run(s, p), e);
}

proof fn lemma_operand_binop(e: Expr, s: Seq<char>, i: nat)
    requires
        e.inner is BinOp,
        occurs_at(s, i, e.text(true)),
        stops(s, i + e.text(true).len()),
    ensures
        parse_operand(s, i) == Some(
            (e, e.text(true).len() + ws_run(s, i + e.text(true).len())),
        ),
    decreases e.inner, (if e.mods.repeat != 1 { 1nat } else { 0nat }), 3nat,
{
    let t = e.text(true);
    let p: nat = i + t.len();
    let r = e.mods.repeat;
    let b = e.inner->BinOp_0;
    let one = Expr { inner: e.inner, mods: Modifier { repeat: 1 } };
    let pt = seq!['('] + b.text() + seq![')'];
    let ct = if r == 1 { Seq::<char>::empty() } else { nat_text(r as nat) };
    assert(t =~= ct + pt);
    lemma_occurs_split(s, i, ct, pt);
    let j: nat = i + ct.len();
    lemma_parenthesised(one, s, j);
    if r == 1 {
        assert(one == e);
        lemma_occurs_char(s, i, t, 0);
        lemma_no_count(s, i);
        lemma_operand_uncounted(s, i, e, pt.len() + ws_run(s, p));
    } else {
        lemma_occurs_char(s, j, pt, 0);
        lemma_read_nat(s, i, r as nat);
        assert(repeated(one, r) == Some(e));
        lemma_operand_counted(s, i, r, ct.len(), one, pt.len() + ws_run(s, p), e);
    }
}

/// An unrepeated operation in parentheses at `j`.
proof fn lemma_parenthesised(one: Expr, s: Seq<char>, j: nat)
    requires
        is_plain_binop(one),
        occurs_at(s, j, seq!['('] + one.text(false) + seq![')']),
    ensures
        parse_die(s, j) is None,
        parse_parens(s, j) == Some(
            (one, one.text(false).len() + 2 + ws_run(s, j + one.text(false).len() + 2)),
        ),
    decreases one.inner, 0nat, 2nat,
{
    let bt = one.text(false);
    let pt = seq!['('] + bt + seq![')'];
    lemma_occurs_split(s, j, seq!['('] + bt, seq![')']);
    lemma_occurs_split(s, j, seq!['('], bt);
    lemma_occurs_char(s, j, pt, 0);
    lemma_occurs_char(s, j, pt, (bt.len() + 1) as int);
    let k: nat = j + 1 + bt.len();
    lemma_ws_run_zero(s, k);
    lemma_plain_chain(one, s, j + 1);
    lemma_text_start(one, false);
    lemma_occurs_char(s, j + 1, bt, 0);
    lemma_chain_end(s, k, one);
    assert(parse_expr(s, j + 1) == Some((one, bt.len())));
    lemma_parens_of(s, j, one, bt.len());
}

/// The text of an operand, followed by something that does not extend it,
/// parses back as that operand.
proof fn lemma_operand(e: Expr, s: Seq<char>, i: nat)
    requires
        occurs_at(s, i, e.text(true)),
        stops(s, i + e.text(true).len()),
    ensures
        parse_operand(s, i) == Some(
            (e, e.text(true).len() + after(e, true, s, i + e.text(true).len())),
        ),
    decreases e.inner, (if e.mods.repeat != 1 { 1nat } else { 0nat }), 4nat,
{
    match e.inner {
        Inner::Die(_) => lemma_operand_die(e, s, i),
        Inner::Scalar(_) => if e.mods.repeat == 1 {
            lemma_operand_constant_text(e, s, i);
        } else {
            lemma_operand_scalar(e, s, i);
        },
        Inner::BinOp(_) => lemma_operand_binop(e, s, i),
    }
}

/// The text of an unrepeated operation, followed by something that does
/// not extend its last operand, parses as the operation and then goes on
/// with the chain after it.
proof fn lemma_shift_shift(r: Option<(Expr, nat)>, a: nat, b: nat)
    ensures
        shift(shift(r, a), b) == shift(r, a + b),
{
}

/// The text of an unrepeated operation: left text, ` op `, right operand text.
proof fn lemma_plain_text(e: Expr)
    requires
        is_plain_binop(e),
    ensures
        ({
            let b = e.inner->BinOp_0;
            &&& e.text(false) == (*b.lhs).text(false) + seq![' ', b.op.symbol(), ' '] + (*b.rhs).text(true)
            &&& ends_with_paren(e, false) == ends_with_paren(*b.rhs, true)
            &&& Expr::bin(b.op, *b.lhs, *b.rhs) == e
        }),
{
    let b = e.inner->BinOp_0;
    assert(e.text(false) =~= (*b.lhs).text(false) + seq![' ', b.op.symbol(), ' '] + (*b.rhs).text(true));
}

/// After the left operand, the chain reads ` op ` and the right operand.
#[verifier::spinoff_prover]
#[verifier::rlimit(60)]
proof fn lemma_plain_rest(e: Expr, s: Seq<char>, i: nat, pl: nat, pl2: nat)
    requires
        is_plain_binop(e),
        ({
            let b = e.inner->BinOp_0;
            &&& pl == i + (*b.lhs).text(false).len()
            &&& pl2 == pl + after(*b.lhs, false, s, pl)
            &&& pl2 <= pl + 1
            &&& parse_op(s, pl) == Some((b.op, 3nat))
            &&& parse_op(s, pl + 1) == Some((b.op, 2nat))
            &&& occurs_at(s, pl + 3, (*b.rhs).text(true))
            &&& e.text(false).len() == (*b.lhs).text(false).len() + 3 + (*b.rhs).text(true).len()
            &&& ends_with_paren(e, false) == ends_with_paren(*b.rhs, true)
            &&& Expr::bin(b.op, *b.lhs, *b.rhs) == e
        }),
        stops(s, i + e.text(false).len()),
    ensures
        ({
            let q = i + e.text(false).len() + after(e, false, s, i + e.text(false).len());
            parse_chain(s, pl2, *(e.inner->BinOp_0).lhs) == shift(parse_chain(s, q, e), (q - pl2) as nat)
        }),
    decreases e.inner, 0nat, 0nat,
{
    let b = e.inner->BinOp_0;
    let r = *b.rhs;
    let end: nat = i + e.text(false).len();
    let m: nat = (pl + 3 - pl2) as nat;
    let n: nat = r.text(true).len() + after(r, true, s, end);
    lemma_operand(r, s, pl + 3);
    lemma_chain_step(s, pl2, *b.lhs, b.op, m, r, n);
}

#[verifier::spinoff_prover]
#[verifier::rlimit(60)]
proof fn lemma_plain_chain(e: Expr, s: Seq<char>, i: nat)
    requires
        is_plain_binop(e),
        occurs_at(s, i, e.text(false)),
        stops(s, i + e.text(false).len()),
    ensures
        ({
            let q = i + e.text(false).len() + after(e, false, s, i + e.text(false).len());
            parse_expr(s, i) == shift(parse_chain(s, q, e), (q - i) as nat)
        }),
    decreases e.inner, 0nat, 1nat,
{
    let b = e.inner->BinOp_0;
    let l = *b.lhs;
    let r = *b.rhs;
    let lt = l.text(false);
    let rt = r.text(true);
    let mid = seq![' ', b.op.symbol(), ' '];
    let end: nat = i + e.text(false).len();
    let q: nat = end + after(e, false, s, end);
    let pl: nat = i + lt.len();
    lemma_plain_text(e);
    lemma_occurs_split(s, i, lt + mid, rt);
    lemma_occurs_split(s, i, lt, mid);
    lemma_op_between(s, pl, b.op, r);
    let pl2: nat = pl + after(l, false, s, pl);
    lemma_expr(l, s, i);
    lemma_plain_rest(e, s, i, pl, pl2);
    lemma_shift_shift(parse_chain(s, q, e), (q - pl2) as nat, (pl2 - i) as nat);
}

/// Between the operands of an operation stands ` op `, which the parser
/// reads from either side of the first space.
proof fn lemma_op_between(s: Seq<char>, pl: nat, op: Op, r: Expr)
    requires
        occurs_at(s, pl, seq![' ', op.symbol(), ' ']),
        occurs_at(s, pl + 3, r.text(true)),
    ensures
        ws_run(s, pl) == 1,
        pl < s.len() && !is_digit(s[pl as int]) && s[pl as int] != 'd',
        s[(pl + 1) as int] != '(',
        parse_op(s, pl) == Some((op, 3nat)),
        parse_op(s, pl + 1) == Some((op, 2nat)),
{
    let mid = seq![' ', op.symbol(), ' '];
    lemma_occurs_char(s, pl, mid, 0);
    lemma_occurs_char(s, pl, mid, 1);
    lemma_occurs_char(s, pl, mid, 2);
    lemma_text_start(r, true);
    lemma_occurs_char(s, pl + 3, r.text(true), 0);
    lemma_ws_run_one(s, pl);
    lemma_ws_run_zero(s, pl + 1);
    lemma_ws_run_one(s, pl + 2);
}

/// The text of any expression, followed by something that does not extend
/// its last operand, parses as the expression and then goes on with the
/// chain after it.
proof fn lemma_expr(e: Expr, s: Seq<char>, i: nat)
    requires
        occurs_at(s, i, e.text(false)),
        stops(s, i + e.text(false).len()),
    ensures
        ({
            let q = i + e.text(false).len() + after(e, false, s, i + e.text(false).len());
            parse_expr(s, i) == shift(parse_chain(s, q, e), (q - i) as nat)
        }),
    decreases e.inner, (if e.mods.repeat != 1 { 1nat } else { 0nat }), 5nat,
{
    if is_plain_binop(e) {
        lemma_plain_chain(e, s, i);
    } else {
        lemma_text_side(e);
        lemma_operand(e, s, i);
    }
}

/// Printing an expression and reading the text back gives the same expression.
pub proof fn lemma_text_parses_back(e: Expr)
    ensures
        parse_text(e.text(false)) == Some(e),
{
    let s = e.text(false);
    assert(s.subrange(0, s.len() as int) =~= s);
    lemma_text_start(e, false);
    lemma_ws_run_zero(s, 0);
    lemma_ws_run_zero(s, s.len());
    lemma_expr(e, s, 0);
    lemma_chain_end(s, s.len(), e);
}

} // verus!
