use vstd::prelude::*;

use crate::expr::binop::Op;
use crate::expr::expr::Expr;
use crate::expr::modifier::Modifier;
use crate::expr::number::{digits_value, is_digit, lemma_digits_value_prefix};

verus! {

// The grammar, read from left to right with backtracking between alternatives:
//
//   text    ::= ws expr ws                      (the whole input)
//   expr    ::= operand (op operand)*           (left associative)
//   operand ::= [u32] (die | parens) | i32
//   die     ::= 'd' u32
//   parens  ::= ws '(' ws expr ws ')' ws
//   op      ::= ws ('+' | '-') ws
//
// `ws` is a possibly empty run of spaces, tabs, carriage returns and line
// feeds; `u32` and `i32` are the longest runs of decimal digits (for `i32`
// after an optional sign) whose value fits the type. A repeat count in front
// of a die or a parenthesised expression multiplies its repeat count; when
// the product does not fit in `u32`, or no die or parenthesis follows, the
// operand is read as a constant instead.

/// Whitespace as the grammar sees it.
pub open spec fn is_ws(c: char) -> bool {
    c == ' ' || c == '\t' || c == '\r' || c == '\n'
}

/// How much of the input is left after position `i` (0 past the end).
pub open spec fn remaining(s: Seq<char>, i: nat) -> nat {
    if i <= s.len() {
        (s.len() - i) as nat
    } else {
        0
    }
}

/// The length of the whitespace run starting at `i`.
pub open spec fn ws_run(s: Seq<char>, i: nat) -> nat
    decreases remaining(s, i),
{
    if i < s.len() && is_ws(s[i as int]) {
        1 + ws_run(s, i + 1)
    } else {
        0
    }
}

/// The length of the digit run starting at `i`.
pub open spec fn digit_run(s: Seq<char>, i: nat) -> nat
    decreases remaining(s, i),
{
    if i < s.len() && is_digit(s[i as int]) {
        1 + digit_run(s, i + 1)
    } else {
        0
    }
}

/// An unsigned count at `i`: its value and how many characters it takes.
pub open spec fn parse_u32(s: Seq<char>, i: nat) -> Option<(u32, nat)> {
    let n = digit_run(s, i);
    let v = digits_value(s.subrange(i as int, (i + n) as int));
    if n > 0 && v <= u32::MAX {
        Some((v as u32, n))
    } else {
        None
    }
}

/// A signed constant at `i`: its value and how many characters it takes.
pub open spec fn parse_i32(s: Seq<char>, i: nat) -> Option<(i32, nat)> {
    let signed = i < s.len() && (s[i as int] == '-' || s[i as int] == '+');
    let k: nat = if signed { 1 } else { 0 };
    let n = digit_run(s, i + k);
    let m = digits_value(s.subrange((i + k) as int, (i + k + n) as int));
    let v: int = if signed && s[i as int] == '-' { -(m as int) } else { m as int };
    if n > 0 && i32::MIN <= v <= i32::MAX {
        Some((v as i32, k + n))
    } else {
        None
    }
}

/// A die `d<sides>` at `i`.
pub open spec fn parse_die(s: Seq<char>, i: nat) -> Option<(Expr, nat)> {
    if i < s.len() && s[i as int] == 'd' {
        match parse_u32(s, i + 1) {
            Some((sides, n)) => Some((Expr::die_spec(sides), 1 + n)),
            None => None,
        }
    } else {
        None
    }
}

/// An operator at `i`, with the whitespace around it.
pub open spec fn parse_op(s: Seq<char>, i: nat) -> Option<(Op, nat)> {
    let j = i + ws_run(s, i);
    if j < s.len() && (s[j as int] == '+' || s[j as int] == '-') {
        let op = if s[j as int] == '+' { Op::Add } else { Op::Sub };
        Some((op, ws_run(s, i) + 1 + ws_run(s, j + 1)))
    } else {
        None
    }
}

/// `e` with its repeat count multiplied by `n`, when the product fits in `u32`.
pub open spec fn repeated(e: Expr, n: u32) -> Option<Expr> {
    if n * e.mods.repeat <= u32::MAX {
        Some(Expr { inner: e.inner, mods: Modifier { repeat: (n * e.mods.repeat) as u32 } })
    } else {
        None
    }
}

/// A parenthesised expression at `i`, with the whitespace around both parentheses.
pub open spec fn parse_parens(s: Seq<char>, i: nat) -> Option<(Expr, nat)>
    decreases remaining(s, i), 1nat,
{
    let j = i + ws_run(s, i);
    if j < s.len() && s[j as int] == '(' {
        let h = j + 1 + ws_run(s, j + 1);
        match parse_expr(s, h) {
            Some((e, n)) => {
                let k = h + n;
                let m = k + ws_run(s, k);
                if m < s.len() && s[m as int] == ')' {
                    Some((e, (m + 1 + ws_run(s, m + 1) - i) as nat))
                } else {
                    None
                }
            },
            None => None,
        }
    } else {
        None
    }
}

/// An operand at `i`: a die or a parenthesised expression with an optional
/// repeat count in front, or else a constant.
pub open spec fn parse_operand(s: Seq<char>, i: nat) -> Option<(Expr, nat)>
    decreases remaining(s, i), 2nat,
{
    let count = parse_u32(s, i);
    let d: nat = match count {
        Some((_, d)) => d,
        None => 0,
    };
    let body = match parse_die(s, i + d) {
        Some(x) => Some(x),
        None => parse_parens(s, i + d),
    };
    let counted = match body {
        Some((e, n)) => match count {
            Some((c, _)) => match repeated(e, c) {
                Some(r) => Some((r, d + n)),
                None => None,
            },
            None => Some((e, n)),
        },
        None => None,
    };
    match counted {
        Some(x) => Some(x),
        None => match parse_i32(s, i) {
            Some((v, n)) => Some((Expr::scalar_spec(v), n)),
            None => None,
        },
    }
}

/// The rest of a chain `(op operand)*` at `i`, folded onto `acc` from the left.
pub open spec fn parse_chain(s: Seq<char>, i: nat, acc: Expr) -> Option<(Expr, nat)>
    decreases remaining(s, i), 3nat,
{
    match parse_op(s, i) {
        None => Some((acc, 0)),
        Some((op, m)) => match parse_operand(s, i + m) {
            None => None,
            Some((e, n)) => match parse_chain(s, i + m + n, Expr::bin(op, acc, e)) {
                Some((r, k)) => Some((r, m + n + k)),
                None => None,
            },
        },
    }
}

/// An expression at `i`.
pub open spec fn parse_expr(s: Seq<char>, i: nat) -> Option<(Expr, nat)>
    decreases remaining(s, i), 4nat,
{
    match parse_operand(s, i) {
        Some((e, n)) => match parse_chain(s, i + n, e) {
            Some((r, k)) => Some((r, n + k)),
            None => None,
        },
        None => None,
    }
}

/// Where reading an expression at `i` stops when it fails: at the first
/// operand, or at the operand after an operator, that cannot be read.
pub open spec fn expr_stop(s: Seq<char>, i: nat) -> nat {
    match parse_operand(s, i) {
        Some((_, n)) => chain_stop(s, i + n),
        None => i,
    }
}

/// Where reading the rest of a chain at `i` stops: at the first operand
/// after an operator that cannot be read (or at `i` when no operator follows).
pub open spec fn chain_stop(s: Seq<char>, i: nat) -> nat
    decreases remaining(s, i),
{
    match parse_op(s, i) {
        None => i,
        Some((_, m)) => match parse_operand(s, i + m) {
            None => i + m,
            Some((_, n)) => chain_stop(s, i + m + n),
        },
    }
}

/// The expression that the whole text denotes, if it denotes one.
pub open spec fn parse_text(s: Seq<char>) -> Option<Expr> {
    let w = ws_run(s, 0);
    match parse_expr(s, w) {
        Some((e, n)) => if w + n + ws_run(s, w + n) == s.len() {
            Some(e)
        } else {
            None
        },
        None => None,
    }
}


/// Why a text is not an expression.
#[derive(Clone, Copy, Debug, PartialEq, Eq, Structural)]
pub enum ParseErrorKind {
    /// An operand cannot be read where reading stopped: at the start of the
    /// text after its leading whitespace, or after an operator.
    Operand,
    /// An expression was read, but text that is not whitespace follows it.
    End,
}

/// A text that is not in the grammar above: what went wrong, and where the
/// unread input starts, counted in characters.
#[derive(Clone, Copy, Debug, PartialEq, Eq, Structural)]
pub struct ParseError {
    pub position: usize,
    pub kind: ParseErrorKind,
}

/// The error for a text that the grammar refuses: the text left after the
/// expression and its trailing whitespace, or, where no expression can be
/// read, the text from the operand that cannot be read on.
pub open spec fn text_error(s: Seq<char>) -> ParseError {
    let w = ws_run(s, 0);
    match parse_expr(s, w) {
        Some((_, n)) => ParseError { position: (w + n + ws_run(s, w + n)) as usize, kind: ParseErrorKind::End },
        None => ParseError { position: expr_stop(s, w) as usize, kind: ParseErrorKind::Operand },
    }
}

/// An executable result agrees with the grammar's.
pub open spec fn agrees<T>(r: Option<(T, usize)>, g: Option<(T, nat)>) -> bool {
    match r {
        Some((v, n)) => g == Some((v, n as nat)),
        None => g is None,
    }
}

/// A result that ends inside the input.
pub open spec fn within<T>(r: Option<(T, usize)>, s: Seq<char>, i: nat) -> bool {
    r matches Some((_, n)) ==> i + n <= s.len()
}

proof fn lemma_ws_run_bound(s: Seq<char>, i: nat)
    requires
        i <= s.len(),
    ensures
        i + ws_run(s, i) <= s.len(),
    decreases remaining(s, i),
{
    if i < s.len() && is_ws(s[i as int]) {
        lemma_ws_run_bound(s, i + 1);
    }
}

fn scan_ws(s: &Vec<char>, i: usize) -> (n: usize)
    requires
        i <= s.len(),
    ensures
        n == ws_run(s@, i as nat),
        i + n <= s.len(),
{
    let mut j = i;
    proof {
        lemma_ws_run_bound(s@, i as nat);
    }
    while j < s.len() && (s[j] == ' ' || s[j] == '\t' || s[j] == '\r' || s[j] == '\n')
        invariant
            i <= j <= s.len(),
            ws_run(s@, i as nat) == (j - i) + ws_run(s@, j as nat),
        decreases s.len() - j,
    {
        j = j + 1;
    }
    j - i
}

fn scan_digits(s: &Vec<char>, i: usize) -> (n: usize)
    requires
        i <= s.len(),
    ensures
        n == digit_run(s@, i as nat),
        i + n <= s.len(),
{
    let mut j = i;
    while j < s.len() && '0' <= s[j] && s[j] <= '9'
        invariant
            i <= j <= s.len(),
            digit_run(s@, i as nat) == (j - i) + digit_run(s@, j as nat),
        decreases s.len() - j,
    {
        j = j + 1;
    }
    j - i
}

proof fn lemma_digit_run_digits(s: Seq<char>, i: nat, k: nat)
    requires
        k < digit_run(s, i),
    ensures
        i + k < s.len(),
        is_digit(s[(i + k) as int]),
    decreases k,
{
    if k > 0 {
        lemma_digit_run_digits(s, i + 1, (k - 1) as nat);
    }
}

/// The value of the `n` digits at `i`, when it is at most `cap`.
fn read_digits(s: &Vec<char>, i: usize, n: usize, cap: u64) -> (r: Option<u64>)
    requires
        n <= digit_run(s@, i as nat),
        i + n <= s.len(),
        cap <= u32::MAX + 1,
    ensures
        r is Some <==> digits_value(s@.subrange(i as int, i + n)) <= cap,
        r matches Some(v) ==> v == digits_value(s@.subrange(i as int, i + n)),
{
    let mut acc: u64 = 0;
    let mut k: usize = 0;
    while k < n
        invariant
            k <= n,
            n <= digit_run(s@, i as nat),
            i + n <= s.len(),
            cap <= u32::MAX + 1,
            acc == digits_value(s@.subrange(i as int, i + k)),
            acc <= cap,
        decreases n - k,
    {
        proof {
            lemma_digit_run_digits(s@, i as nat, k as nat);
            assert(s@.subrange(i as int, i + k + 1).drop_last() =~= s@.subrange(i as int, i + k));
        }
        let c = s[i + k];
        let d = (c as u32 - 48) as u64;
        acc = acc * 10 + d;
        k = k + 1;
        if acc > cap {
            proof {
                assert(s@.subrange(i as int, i + n).take(k as int) =~= s@.subrange(i as int, i + k));
                lemma_digits_value_prefix(s@.subrange(i as int, i + n), k as int);
            }
            return None;
        }
    }
    Some(acc)
}

fn read_u32(s: &Vec<char>, i: usize) -> (r: Option<(u32, usize)>)
    requires
        i <= s.len(),
    ensures
        agrees(r, parse_u32(s@, i as nat)),
        within(r, s@, i as nat),
{
    let n = scan_digits(s, i);
    if n == 0 {
        return None;
    }
    match read_digits(s, i, n, 4294967295) {
        Some(v) => Some((v as u32, n)),
        None => None,
    }
}

fn read_i32(s: &Vec<char>, i: usize) -> (r: Option<(i32, usize)>)
    requires
        i <= s.len(),
    ensures
        agrees(r, parse_i32(s@, i as nat)),
        within(r, s@, i as nat),
{
    let signed = i < s.len() && (s[i] == '-' || s[i] == '+');
    let negative = signed && s[i] == '-';
    let k: usize = if signed { 1 } else { 0 };
    let n = scan_digits(s, i + k);
    if n == 0 {
        return None;
    }
    let cap: u64 = if negative { 2147483648 } else { 2147483647 };
    match read_digits(s, i + k, n, cap) {
        Some(m) => {
            let v: i64 = if negative { -(m as i64) } else { m as i64 };
            Some((v as i32, k + n))
        },
        None => None,
    }
}

fn read_die(s: &Vec<char>, i: usize) -> (r: Option<(Expr, usize)>)
    requires
        i <= s.len(),
    ensures
        agrees(r, parse_die(s@, i as nat)),
        within(r, s@, i as nat),
{
    if i < s.len() && s[i] == 'd' {
        match read_u32(s, i + 1) {
            Some((sides, n)) => Some((Expr::die(sides), 1 + n)),
            None => None,
        }
    } else {
        None
    }
}

fn read_op(s: &Vec<char>, i: usize) -> (r: Option<(Op, usize)>)
    requires
        i <= s.len(),
    ensures
        agrees(r, parse_op(s@, i as nat)),
        within(r, s@, i as nat),
{
    let w = scan_ws(s, i);
    let j = i + w;
    if j < s.len() && (s[j] == '+' || s[j] == '-') {
        let op = if s[j] == '+' { Op::Add } else { Op::Sub };
        let w2 = scan_ws(s, j + 1);
        Some((op, w + 1 + w2))
    } else {
        None
    }
}

fn read_parens(s: &Vec<char>, i: usize) -> (r: Option<(Expr, usize)>)
    requires
        i <= s.len(),
    ensures
        agrees(r, parse_parens(s@, i as nat)),
        within(r, s@, i as nat),
    decreases remaining(s@, i as nat), 1nat,
{
    let j = i + scan_ws(s, i);
    if j < s.len() && s[j] == '(' {
        let h = j + 1 + scan_ws(s, j + 1);
        match read_expr(s, h) {
            Some((e, n)) => {
                let k = h + n;
                let m = k + scan_ws(s, k);
                if m < s.len() && s[m] == ')' {
                    let w = scan_ws(s, m + 1);
                    Some((e, m + 1 + w - i))
                } else {
                    None
                }
            },
            None => None,
        }
    } else {
        None
    }
}

fn read_operand(s: &Vec<char>, i: usize) -> (r: Option<(Expr, usize)>)
    requires
        i <= s.len(),
    ensures
        agrees(r, parse_operand(s@, i as nat)),
        within(r, s@, i as nat),
    decreases remaining(s@, i as nat), 2nat,
{
    let count = read_u32(s, i);
    let d: usize = match count {
        Some((_, d)) => d,
        None => 0,
    };
    let body = match read_die(s, i + d) {
        Some(x) => Some(x),
        None => read_parens(s, i + d),
    };
    let counted = match body {
        Some((e, n)) => match count {
            Some((c, _)) => match e.repeat(c) {
                Ok(r) => Some((r, d + n)),
                Err(_) => None,
            },
            None => Some((e, n)),
        },
        None => None,
    };
    match counted {
        Some(x) => Some(x),
        None => match read_i32(s, i) {
            Some((v, n)) => Some((Expr::scalar(v), n)),
            None => None,
        },
    }
}

fn read_chain(s: &Vec<char>, i: usize, acc: Expr) -> (r: Option<(Expr, usize)>)
    requires
        i <= s.len(),
    ensures
        agrees(r, parse_chain(s@, i as nat, acc)),
        within(r, s@, i as nat),
    decreases remaining(s@, i as nat), 3nat,
{
    match read_op(s, i) {
        None => Some((acc, 0)),
        Some((op, m)) => match read_operand(s, i + m) {
            None => None,
            Some((e, n)) => match read_chain(s, i + m + n, op.apply(acc, e)) {
                Some((r, k)) => Some((r, m + n + k)),
                None => None,
            },
        },
    }
}

fn read_expr(s: &Vec<char>, i: usize) -> (r: Option<(Expr, usize)>)
    requires
        i <= s.len(),
    ensures
        agrees(r, parse_expr(s@, i as nat)),
        within(r, s@, i as nat),
    decreases remaining(s@, i as nat), 4nat,
{
    match read_operand(s, i) {
        Some((e, n)) => match read_chain(s, i + n, e) {
            Some((r, k)) => Some((r, n + k)),
            None => None,
        },
        None => None,
    }
}

/// A run of whitespace from `i` up to a character that is not whitespace
/// (or the end) is what `ws_run` measures.
proof fn lemma_ws_run_exact(s: Seq<char>, i: nat, p: nat)
    requires
        i <= p <= s.len(),
        forall|k: int| i <= k < p ==> is_ws(#[trigger] s[k]),
        p == s.len() || !is_ws(s[p as int]),
    ensures
        ws_run(s, i) == p - i,
    decreases p - i,
{
    if i < p {
        lemma_ws_run_exact(s, i + 1, p);
    }
}

/// An operator is read with all the whitespace around it, of any kind:
/// from `i`, whitespace up to a `+` or `-` at `p`, then whitespace up to `q`
/// where the next character is not whitespace (or the text ends), is that
/// operator taking `q - i` characters.
pub proof fn lemma_op_takes_surrounding_whitespace(s: Seq<char>, i: nat, p: nat, q: nat)
    requires
        i <= p < q <= s.len(),
        forall|k: int| i <= k < p ==> is_ws(#[trigger] s[k]),
        s[p as int] == '+' || s[p as int] == '-',
        forall|k: int| p < k < q ==> is_ws(#[trigger] s[k]),
        q == s.len() || !is_ws(s[q as int]),
    ensures
        parse_op(s, i) == Some((if s[p as int] == '+' { Op::Add } else { Op::Sub }, (q - i) as nat)),
{
    lemma_ws_run_exact(s, i, p);
    lemma_ws_run_exact(s, p + 1, q);
}

/// What the operator reader takes is whitespace, one `+` or `-`, and
/// whitespace, and it stops only where no whitespace follows.
pub proof fn lemma_op_reads_whole_runs(s: Seq<char>, i: nat)
    requires
        i <= s.len(),
        parse_op(s, i) is Some,
    ensures
        ({
            let m = match parse_op(s, i) {
                Some((_, m)) => m,
                None => 0,
            };
            &&& i + m <= s.len()
            &&& (i + m == s.len() || !is_ws(s[(i + m) as int]))
            &&& exists|p: int|
                i <= p < i + m && (s[p] == '+' || s[p] == '-') && (forall|k: int|
                    i <= k < i + m && k != p ==> is_ws(#[trigger] s[k]))
        }),
{
    let j = i + ws_run(s, i);
    lemma_ws_run_bound(s, i);
    lemma_ws_run_bound(s, j + 1);
    lemma_ws_run_chars(s, i);
    lemma_ws_run_chars(s, j + 1);
    assert forall|k: int| i <= k < j + 1 + ws_run(s, j + 1) && k != j implies is_ws(#[trigger] s[k]) by {
        if k < j {
            assert(i <= k < i + ws_run(s, i));
        } else {
            assert(j + 1 <= k < j + 1 + ws_run(s, j + 1));
        }
    }
}

/// The characters a whitespace run covers are whitespace, and the one after
/// it (if any) is not.
proof fn lemma_ws_run_chars(s: Seq<char>, i: nat)
    requires
        i <= s.len(),
    ensures
        forall|k: int| i <= k < i + ws_run(s, i) ==> is_ws(#[trigger] s[k]),
        i + ws_run(s, i) == s.len() || !is_ws(s[(i + ws_run(s, i)) as int]),
    decreases remaining(s, i),
{
    lemma_ws_run_bound(s, i);
    if i < s.len() && is_ws(s[i as int]) {
        lemma_ws_run_chars(s, i + 1);
    }
}

/// `t` is `s` with some whitespace characters replaced by other whitespace
/// characters.
pub open spec fn ws_variant(s: Seq<char>, t: Seq<char>) -> bool {
    &&& s.len() == t.len()
    &&& forall|k: int| 0 <= k < s.len() ==> s[k] == t[k] || (is_ws(s[k]) && is_ws(t[k]))
}

proof fn lemma_variant_ws_run(s: Seq<char>, t: Seq<char>, i: nat)
    requires
        ws_variant(s, t),
    ensures
        ws_run(s, i) == ws_run(t, i),
    decreases remaining(s, i),
{
    if i < s.len() {
        assert(s[i as int] == t[i as int] || (is_ws(s[i as int]) && is_ws(t[i as int])));
        lemma_variant_ws_run(s, t, i + 1);
    }
}

proof fn lemma_variant_digit_run(s: Seq<char>, t: Seq<char>, i: nat)
    requires
        ws_variant(s, t),
    ensures
        digit_run(s, i) == digit_run(t, i),
        digit_run(s, i) > 0 ==> i + digit_run(s, i) <= s.len() && s.subrange(i as int, (i + digit_run(s, i)) as int)
            == t.subrange(i as int, (i + digit_run(t, i)) as int),
    decreases remaining(s, i),
{
    if i < s.len() {
        assert(s[i as int] == t[i as int] || (is_ws(s[i as int]) && is_ws(t[i as int])));
        lemma_variant_digit_run(s, t, i + 1);
        if is_digit(s[i as int]) {
            let n = digit_run(s, i + 1);
            if n > 0 {
                assert(s.subrange(i as int, (i + 1 + n) as int) =~= seq![s[i as int]] + s.subrange(
                    (i + 1) as int,
                    (i + 1 + n) as int,
                ));
                assert(t.subrange(i as int, (i + 1 + n) as int) =~= seq![t[i as int]] + t.subrange(
                    (i + 1) as int,
                    (i + 1 + n) as int,
                ));
            } else {
                assert(s.subrange(i as int, (i + 1) as int) =~= seq![s[i as int]]);
                assert(t.subrange(i as int, (i + 1) as int) =~= seq![t[i as int]]);
            }
        }
    }
}

proof fn lemma_variant_numbers(s: Seq<char>, t: Seq<char>, i: nat)
    requires
        ws_variant(s, t),
    ensures
        parse_u32(s, i) == parse_u32(t, i),
        parse_i32(s, i) == parse_i32(t, i),
        parse_die(s, i) == parse_die(t, i),
        parse_op(s, i) == parse_op(t, i),
{
    lemma_variant_digit_run(s, t, i);
    lemma_variant_digit_run(s, t, i + 1);
    lemma_variant_digit_run(s, t, i + 2);
    lemma_variant_ws_run(s, t, i);
    if i < s.len() {
        assert(s[i as int] == t[i as int] || (is_ws(s[i as int]) && is_ws(t[i as int])));
    }
    if i + 1 <= s.len() {
        lemma_variant_digit_run(s, t, i + 1);
    }
    let j = i + ws_run(s, i);
    lemma_variant_ws_run(s, t, j + 1);
    if j < s.len() {
        assert(s[j as int] == t[j as int] || (is_ws(s[j as int]) && is_ws(t[j as int])));
    }
}

proof fn lemma_variant_parens(s: Seq<char>, t: Seq<char>, i: nat)
    requires
        ws_variant(s, t),
    ensures
        parse_parens(s, i) == parse_parens(t, i),
    decreases remaining(s, i), 1nat,
{
    lemma_variant_ws_run(s, t, i);
    let j = i + ws_run(s, i);
    if j < s.len() {
        assert(s[j as int] == t[j as int] || (is_ws(s[j as int]) && is_ws(t[j as int])));
        if s[j as int] == '(' {
            lemma_variant_ws_run(s, t, j + 1);
            let h = j + 1 + ws_run(s, j + 1);
            lemma_variant_expr(s, t, h);
            if let Some((e, n)) = parse_expr(s, h) {
                let k = h + n;
                lemma_variant_ws_run(s, t, k);
                let m = k + ws_run(s, k);
                if m < s.len() {
                    assert(s[m as int] == t[m as int] || (is_ws(s[m as int]) && is_ws(t[m as int])));
                }
                lemma_variant_ws_run(s, t, m + 1);
            }
        }
    }
}

proof fn lemma_variant_operand(s: Seq<char>, t: Seq<char>, i: nat)
    requires
        ws_variant(s, t),
    ensures
        parse_operand(s, i) == parse_operand(t, i),
    decreases remaining(s, i), 2nat,
{
    lemma_variant_numbers(s, t, i);
    let d: nat = match parse_u32(s, i) {
        Some((_, d)) => d,
        None => 0,
    };
    lemma_variant_numbers(s, t, i + d);
    lemma_variant_parens(s, t, i + d);
}

proof fn lemma_variant_chain(s: Seq<char>, t: Seq<char>, i: nat, acc: Expr)
    requires
        ws_variant(s, t),
    ensures
        parse_chain(s, i, acc) == parse_chain(t, i, acc),
    decreases remaining(s, i), 3nat,
{
    lemma_variant_numbers(s, t, i);
    if let Some((op, m)) = parse_op(s, i) {
        lemma_variant_operand(s, t, i + m);
        if let Some((e, n)) = parse_operand(s, i + m) {
            lemma_variant_chain(s, t, i + m + n, Expr::bin(op, acc, e));
        }
    }
}

proof fn lemma_variant_expr(s: Seq<char>, t: Seq<char>, i: nat)
    requires
        ws_variant(s, t),
    ensures
        parse_expr(s, i) == parse_expr(t, i),
    decreases remaining(s, i), 4nat,
{
    lemma_variant_operand(s, t, i);
    if let Some((e, n)) = parse_operand(s, i) {
        lemma_variant_chain(s, t, i + n, e);
    }
}

/// Whitespace is whitespace whatever its kind: replacing spaces, tabs,
/// carriage returns and line feeds by one another anywhere in a text never
/// changes what it parses to.
pub proof fn lemma_whitespace_kind_irrelevant(s: Seq<char>, t: Seq<char>)
    requires
        ws_variant(s, t),
    ensures
        parse_text(s) == parse_text(t),
{
    lemma_variant_ws_run(s, t, 0);
    let w = ws_run(s, 0);
    lemma_variant_expr(s, t, w);
    if let Some((e, n)) = parse_expr(s, w) {
        lemma_variant_ws_run(s, t, w + n);
    }
}

/// Finds where reading an expression at `i` stops; see `expr_stop`.
fn find_stop(s: &Vec<char>, i: usize) -> (p: usize)
    requires
        i <= s.len(),
    ensures
        p == expr_stop(s@, i as nat),
        p <= s.len(),
{
    match read_operand(s, i) {
        None => i,
        Some((_, n)) => {
            let mut j = i + n;
            loop
                invariant
                    j <= s.len(),
                    chain_stop(s@, j as nat) == expr_stop(s@, i as nat),
                decreases s.len() - j,
            {
                match read_op(s, j) {
                    None => {
                        return j;
                    },
                    Some((_, m)) => match read_operand(s, j + m) {
                        None => {
                            return j + m;
                        },
                        Some((_, k)) => {
                            assert(m >= 1);
                            j = j + m + k;
                        },
                    },
                }
            }
        },
    }
}

/// The characters of a string, in order.
fn chars_of(text: &str) -> (v: Vec<char>)
    ensures
        v@ == text@,
{
    let mut v: Vec<char> = Vec::new();
    for c in it: text.chars()
        invariant
            v@ == it.seq().take(it.index()),
    {
        v.push(c);
    }
    proof {
        broadcast use vstd::string::axiom_spec_iter;
    }
    assert(v@ =~= text@);
    v
}

/// Reads a whole text as an expression.
pub fn parse(text: &str) -> (r: core::result::Result<Expr, ParseError>)
    ensures
        match parse_text(text@) {
            Some(e) => r == Ok::<Expr, ParseError>(e),
            None => r == Err::<Expr, ParseError>(text_error(text@)),
        },
{
    let s = chars_of(text);
    let w = scan_ws(&s, 0);
    match read_expr(&s, w) {
        Some((e, n)) => {
            let end = w + n + scan_ws(&s, w + n);
            if end == s.len() {
                Ok(e)
            } else {
                Err(ParseError { position: end, kind: ParseErrorKind::End })
            }
        },
        None => Err(ParseError { position: find_stop(&s, w), kind: ParseErrorKind::Operand }),
    }
}

} // verus!
