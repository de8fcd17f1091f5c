use vstd::prelude::*;

use crate::expr::binop::{BinOp, Op};
use crate::expr::die::Die;
use crate::expr::expr::Expr;
use crate::expr::inner::Inner;
use crate::expr::number::{int_text, nat_text, push_int, push_nat};
use crate::expr::scalar::Scalar;

verus! {

/// Collects characters into a `String` with `String::from_iter`, which std
/// documents as the string of exactly those characters in order.
#[verifier::external_body]
fn string_from_chars(chars: Vec<char>) -> (s: String)
    ensures
        s@ == chars@,
{
    String::from_iter(chars)
}

impl Op {
    pub open spec fn symbol(self) -> char {
        match self {
            Op::Add => '+',
            Op::Sub => '-',
        }
    }

    pub fn to_string(&self) -> (s: String)
        ensures
            s@ == seq![self.symbol()],
    {
        let mut out: Vec<char> = Vec::new();
        out.push(if let Op::Add = self { '+' } else { '-' });
        string_from_chars(out)
    }
}

impl Die {
    /// `d` followed by the number of sides.
    pub open spec fn text(self) -> Seq<char> {
        seq!['d'] + nat_text(self.sides as nat)
    }

    fn write(&self, out: &mut Vec<char>)
        ensures
            final(out)@ == old(out)@ + self.text(),
    {
        out.push('d');
        push_nat(out, self.sides as u64);
        assert(out@ =~= old(out)@ + self.text());
    }

    pub fn to_string(&self) -> (s: String)
        ensures
            s@ == self.text(),
    {
        let mut out: Vec<char> = Vec::new();
        self.write(&mut out);
        assert(out@ =~= self.text());
        string_from_chars(out)
    }
}

impl Scalar {
    pub fn to_string(&self) -> (s: String)
        ensures
            s@ == int_text(self.0 as int),
    {
        let mut out: Vec<char> = Vec::new();
        push_int(&mut out, self.0);
        assert(out@ =~= int_text(self.0 as int));
        string_from_chars(out)
    }
}

impl Expr {
    /// The text of the expression. A repeat count other than 1 is written in
    /// front; `in_rhs` marks the right operand of an operation, where an
    /// operation needs parentheses.
    pub open spec fn text(self, in_rhs: bool) -> Seq<char>
        decreases self,
    {
        let has_repeat = self.mods.repeat != 1;
        let count = if has_repeat {
            nat_text(self.mods.repeat as nat)
        } else {
            Seq::<char>::empty()
        };
        count + self.inner.text(has_repeat, in_rhs)
    }

    fn write(&self, out: &mut Vec<char>, in_rhs: bool)
        ensures
            final(out)@ == old(out)@ + self.text(in_rhs),
        decreases self,
    {
        let has_repeat = self.mods.repeat != 1;
        if has_repeat {
            push_nat(out, self.mods.repeat as u64);
        }
        let ghost mid = out@;
        self.inner.write(out, has_repeat, in_rhs);
        assert(out@ =~= old(out)@ + self.text(in_rhs));
    }

    pub fn to_string(&self) -> (s: String)
        ensures
            s@ == self.text(false),
    {
        let mut out: Vec<char> = Vec::new();
        self.write(&mut out, false);
        assert(out@ =~= self.text(false));
        string_from_chars(out)
    }
}

impl Inner {
    /// The text of the term; an operation is parenthesised after a repeat
    /// count or as a right operand, a constant after a repeat count.
    pub open spec fn text(self, has_repeat: bool, in_rhs: bool) -> Seq<char>
        decreases self,
    {
        match self {
            Inner::BinOp(b) => if has_repeat || in_rhs {
                seq!['('] + b.text() + seq![')']
            } else {
                b.text()
            },
            Inner::Die(d) => d.text(),
            Inner::Scalar(s) => if !has_repeat {
                int_text(s.0 as int)
            } else {
                seq!['('] + int_text(s.0 as int) + seq![')']
            },
        }
    }

    fn write(&self, out: &mut Vec<char>, has_repeat: bool, in_rhs: bool)
        ensures
            final(out)@ == old(out)@ + self.text(has_repeat, in_rhs),
        decreases self,
    {
        match self {
            Inner::BinOp(b) => {
                if has_repeat || in_rhs {
                    out.push('(');
                    b.write(out);
                    out.push(')');
                } else {
                    b.write(out);
                }
            },
            Inner::Die(d) => d.write(out),
            Inner::Scalar(s) => {
                if !has_repeat {
                    push_int(out, s.0);
                } else {
                    out.push('(');
                    push_int(out, s.0);
                    out.push(')');
                }
            },
        }
        assert(out@ =~= old(out)@ + self.text(has_repeat, in_rhs));
    }

    pub fn to_string(&self) -> (s: String)
        ensures
            s@ == self.text(false, false),
    {
        let mut out: Vec<char> = Vec::new();
        self.write(&mut out, false, false);
        assert(out@ =~= self.text(false, false));
        string_from_chars(out)
    }
}

impl BinOp {
    /// `lhs op rhs`, with a space on each side of the operator.
    pub open spec fn text(self) -> Seq<char>
        decreases self,
    {
        (*self.lhs).text(false) + seq![' ', self.op.symbol(), ' '] + (*self.rhs).text(true)
    }

    fn write(&self, out: &mut Vec<char>)
        ensures
            final(out)@ == old(out)@ + self.text(),
        decreases self,
    {
        self.lhs.write(out, false);
        out.push(' ');
        out.push(if let Op::Add = self.op { '+' } else { '-' });
        out.push(' ');
        self.rhs.write(out, true);
        assert(out@ =~= old(out)@ + self.text());
    }

    pub fn to_string(&self) -> (s: String)
        ensures
            s@ == self.text(),
    {
        let mut out: Vec<char> = Vec::new();
        self.write(&mut out);
        assert(out@ =~= self.text());
        string_from_chars(out)
    }
}

} // verus!
