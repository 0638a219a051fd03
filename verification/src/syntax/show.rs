//! The printed form of types and expressions: fully parenthesized prefix
//! notation, as used in messages and in tests.
use vstd::prelude::*;
use crate::syntax::exprs::{ArithOp, CmpOp, Expr, Fun, LetFun, LetRec, Literal};
use crate::syntax::types::Type;
use crate::syntax::grammar::{digit_value, digits_value, is_digit};

verus! {

pub open spec fn digit_char(d: int) -> char {
    if d == 0 { '0' } else if d == 1 { '1' } else if d == 2 { '2' } else if d == 3 { '3' } else if d == 4 {
        '4'
    } else if d == 5 { '5' } else if d == 6 { '6' } else if d == 7 { '7' } else if d == 8 { '8' } else { '9' }
}

/// The decimal digits of `n`.
pub open spec fn show_nat(n: nat) -> Seq<char>
    decreases n,
{
    if n < 10 {
        seq![digit_char(n as int)]
    } else {
        show_nat(n / 10).push(digit_char((n % 10) as int))
    }
}

/// `n` in decimal, with a minus sign if it is negative.
pub open spec fn show_int(n: int) -> Seq<char> {
    if n < 0 {
        "-"@ + show_nat((-n) as nat)
    } else {
        show_nat(n as nat)
    }
}

pub open spec fn show_bool(b: bool) -> Seq<char> {
    if b { "true"@ } else { "false"@ }
}

/// A type: `int`, `bool`, or `a -> b`, with the argument in parentheses
/// when it is itself a function type.
pub open spec fn show_type(t: Type) -> Seq<char>
    decreases t,
{
    match t {
        Type::Int => "int"@,
        Type::Bool => "bool"@,
        Type::Arrow(l, r) => match *l {
            Type::Arrow(_, _) => "("@ + show_type(*l) + ") -> "@ + show_type(*r),
            _ => show_type(*l) + " -> "@ + show_type(*r),
        },
    }
}

pub open spec fn show_arith(op: ArithOp) -> Seq<char> {
    match op {
        ArithOp::Mul => "*"@,
        ArithOp::Div => "\\"@,
        ArithOp::Add => "+"@,
        ArithOp::Sub => "-"@,
    }
}

pub open spec fn show_comparison(op: CmpOp) -> Seq<char> {
    match op {
        CmpOp::Eq => "=="@,
        CmpOp::Lt => "<"@,
        CmpOp::Gt => ">"@,
    }
}

pub open spec fn show_literal(l: Literal) -> Seq<char> {
    match l {
        Literal::Number(n) => show_int(n as int),
        Literal::Bool(b) => show_bool(b),
    }
}

/// An expression: `(op lhs rhs)`, `(if c t f)`, `(f x)`, functions as
/// `(λ name (arg: type): type body)`, and the `let` forms.
pub open spec fn show_expr(e: Expr) -> Seq<char>
    decreases e, 0nat,
{
    match e {
        Expr::Var(v) => v@,
        Expr::Literal(l) => show_literal(l),
        Expr::ArithBinOp(b) => "("@ + show_arith(b.kind) + " "@ + show_expr(b.lhs) + " "@ + show_expr(b.rhs) + ")"@,
        Expr::CmpBinOp(b) => "("@ + show_comparison(b.kind) + " "@ + show_expr(b.lhs) + " "@ + show_expr(b.rhs) + ")"@,
        Expr::If(i) => "(if "@ + show_expr(i.cond) + " "@ + show_expr(i.tru) + " "@ + show_expr(i.fls) + ")"@,
        Expr::Fun(f) => show_fun(f.fun_name@, f.arg_name@, f.arg_type, f.fun_type, f.body),
        Expr::LetFun(l) => "(let "@ + l.fun.fun_name@ + " λ("@ + l.fun.arg_name@ + ": "@ + show_type(l.fun.arg_type)
            + "): "@ + show_type(l.fun.fun_type) + " "@ + show_expr(l.fun.body) + " in "@ + show_expr(l.body) + ")"@,
        Expr::LetRec(l) => "(letrec ["@ + show_funs(l.funs@, l.funs@.len() as int) + "] in "@ + show_expr(l.body) + ")"@,
        Expr::Apply(a) => "("@ + show_expr(a.fun) + " "@ + show_expr(a.arg) + ")"@,
    }
}

/// A function: `(λ name (arg: type): type body)`.
pub open spec fn show_fun(name: Seq<char>, arg: Seq<char>, arg_type: Type, fun_type: Type, body: Expr) -> Seq<char>
    decreases body, 1nat,
{
    "(λ "@ + name + " ("@ + arg + ": "@ + show_type(arg_type) + "): "@ + show_type(fun_type) + " "@ + show_expr(body) + ")"@
}

/// The first `n` functions of `funs`, one after the other.
pub open spec fn show_funs(funs: Seq<Fun>, n: int) -> Seq<char>
    decreases funs, n,
{
    if n <= 0 || n > funs.len() {
        Seq::empty()
    } else {
        let f = funs[n - 1];
        show_funs(funs, n - 1) + show_fun(f.fun_name@, f.arg_name@, f.arg_type, f.fun_type, f.body)
    }
}

// ---------------------------------------------------------------------------
// Writing

fn write_digit(d: u64, out: &mut String)
    requires
        d < 10,
    ensures
        final(out)@ == old(out)@.push(digit_char(d as int)),
{
    let s = if d == 0 { "0" } else if d == 1 { "1" } else if d == 2 { "2" } else if d == 3 { "3" } else if d == 4 {
        "4"
    } else if d == 5 { "5" } else if d == 6 { "6" } else if d == 7 { "7" } else if d == 8 { "8" } else { "9" };
    proof {
        reveal_strlit("0");
        reveal_strlit("1");
        reveal_strlit("2");
        reveal_strlit("3");
        reveal_strlit("4");
        reveal_strlit("5");
        reveal_strlit("6");
        reveal_strlit("7");
        reveal_strlit("8");
        reveal_strlit("9");
    }
    out.append(s);
    assert(out@ =~= old(out)@.push(digit_char(d as int)));
}

fn write_nat(n: u64, out: &mut String)
    ensures
        final(out)@ == old(out)@ + show_nat(n as nat),
    decreases n,
{
    if n < 10 {
        write_digit(n, out);
        assert(show_nat(n as nat) =~= seq![digit_char(n as int)]);
        assert(out@ =~= old(out)@ + show_nat(n as nat));
    } else {
        write_nat(n / 10, out);
        write_digit(n % 10, out);
        assert(out@ =~= old(out)@ + show_nat(n as nat));
    }
}

/// Writes `n` in decimal.
pub fn write_int(n: i64, out: &mut String)
    ensures
        final(out)@ == old(out)@ + show_int(n as int),
{
    if n < 0 {
        out.append("-");
        let m: u64 = ((-(n + 1)) as u64) + 1;
        assert(m == -n);
        let ghost mid = out@;
        write_nat(m, out);
        assert(out@ =~= old(out)@ + show_int(n as int));
    } else {
        write_nat(n as u64, out);
    }
}

/// Writes `true` or `false`.
pub fn write_bool(b: bool, out: &mut String)
    ensures
        final(out)@ == old(out)@ + show_bool(b),
{
    if b {
        out.append("true");
    } else {
        out.append("false");
    }
}

impl Type {
    /// Writes the printed form of the type.
    pub fn write(&self, out: &mut String)
        ensures
            final(out)@ == old(out)@ + show_type(*self),
        decreases self,
    {
        match self {
            Type::Int => out.append("int"),
            Type::Bool => out.append("bool"),
            Type::Arrow(l, r) => {
                match &**l {
                    Type::Arrow(_, _) => {
                        out.append("(");
                        l.write(out);
                        out.append(") -> ");
                        r.write(out);
                    },
                    _ => {
                        l.write(out);
                        out.append(" -> ");
                        r.write(out);
                    },
                }
                assert(out@ =~= old(out)@ + show_type(*self));
            },
        }
    }

    /// The printed form of the type.
    pub fn to_debug_string(&self) -> (s: String)
        ensures
            s@ == show_type(*self),
    {
        let mut s = String::new();
        self.write(&mut s);
        assert(s@ =~= show_type(*self));
        s
    }
}

fn write_arith(op: ArithOp, out: &mut String)
    ensures
        final(out)@ == old(out)@ + show_arith(op),
{
    match op {
        ArithOp::Mul => out.append("*"),
        ArithOp::Div => out.append("\\"),
        ArithOp::Add => out.append("+"),
        ArithOp::Sub => out.append("-"),
    }
}

fn write_comparison(op: CmpOp, out: &mut String)
    ensures
        final(out)@ == old(out)@ + show_comparison(op),
{
    match op {
        CmpOp::Eq => out.append("=="),
        CmpOp::Lt => out.append("<"),
        CmpOp::Gt => out.append(">"),
    }
}

impl Fun {
    /// Writes the printed form of the function.
    pub fn write(&self, out: &mut String)
        ensures
            final(out)@ == old(out)@ + show_fun(self.fun_name@, self.arg_name@, self.arg_type, self.fun_type, self.body),
        decreases self.body, 1nat,
    {
        out.append("(λ ");
        out.append(self.fun_name.as_str());
        out.append(" (");
        out.append(self.arg_name.as_str());
        out.append(": ");
        self.arg_type.write(out);
        out.append("): ");
        self.fun_type.write(out);
        out.append(" ");
        self.body.write(out);
        out.append(")");
        assert(out@ =~= old(out)@ + show_fun(self.fun_name@, self.arg_name@, self.arg_type, self.fun_type, self.body));
    }
}

impl Expr {
    /// Writes the printed form of the expression.
    pub fn write(&self, out: &mut String)
        ensures
            final(out)@ == old(out)@ + show_expr(*self),
        decreases self, 0nat,
    {
        match self {
            Expr::Var(v) => {
                out.append(v.as_str());
            },
            Expr::Literal(Literal::Number(n)) => write_int(*n, out),
            Expr::Literal(Literal::Bool(b)) => write_bool(*b, out),
            Expr::ArithBinOp(b) => {
                out.append("(");
                write_arith(b.kind, out);
                out.append(" ");
                b.lhs.write(out);
                out.append(" ");
                b.rhs.write(out);
                out.append(")");
                assert(out@ =~= old(out)@ + show_expr(*self));
            },
            Expr::CmpBinOp(b) => {
                out.append("(");
                write_comparison(b.kind, out);
                out.append(" ");
                b.lhs.write(out);
                out.append(" ");
                b.rhs.write(out);
                out.append(")");
                assert(out@ =~= old(out)@ + show_expr(*self));
            },
            Expr::If(i) => {
                out.append("(if ");
                i.cond.write(out);
                out.append(" ");
                i.tru.write(out);
                out.append(" ");
                i.fls.write(out);
                out.append(")");
                assert(out@ =~= old(out)@ + show_expr(*self));
            },
            Expr::Fun(f) => f.write(out),
            Expr::LetFun(l) => write_let_fun(l, out),
            Expr::LetRec(l) => write_let_rec(l, out),
            Expr::Apply(a) => {
                out.append("(");
                a.fun.write(out);
                out.append(" ");
                a.arg.write(out);
                out.append(")");
                assert(out@ =~= old(out)@ + show_expr(*self));
            },
        }
    }

    /// The printed form of the expression.
    pub fn to_debug_string(&self) -> (s: String)
        ensures
            s@ == show_expr(*self),
    {
        let mut s = String::new();
        self.write(&mut s);
        assert(s@ =~= show_expr(*self));
        s
    }
}


fn write_let_fun(l: &LetFun, out: &mut String)
    ensures
        final(out)@ == old(out)@ + show_expr(Expr::LetFun(Box::new(*l))),
    decreases l, 0nat,
{
    out.append("(let ");
    out.append(l.fun.fun_name.as_str());
    out.append(" λ(");
    out.append(l.fun.arg_name.as_str());
    out.append(": ");
    l.fun.arg_type.write(out);
    out.append("): ");
    l.fun.fun_type.write(out);
    out.append(" ");
    l.fun.body.write(out);
    out.append(" in ");
    l.body.write(out);
    out.append(")");
    assert(out@ =~= old(out)@ + show_expr(Expr::LetFun(Box::new(*l))));
}

fn write_let_rec(l: &LetRec, out: &mut String)
    ensures
        final(out)@ == old(out)@ + show_expr(Expr::LetRec(Box::new(*l))),
    decreases l, 0nat,
{
    out.append("(letrec [");
    let ghost start = out@;
    let mut i: usize = 0;
    while i < l.funs.len()
        invariant
            i <= l.funs@.len(),
            out@ == start + show_funs(l.funs@, i as int),
        decreases l.funs@.len() - i,
    {
        proof {
            assert(decreases_to!(l => l.funs@[i as int].body));
        }
        l.funs[i].write(out);
        i += 1;
        assert(out@ =~= start + show_funs(l.funs@, i as int));
    }
    out.append("] in ");
    l.body.write(out);
    out.append(")");
    assert(out@ =~= old(out)@ + show_expr(Expr::LetRec(Box::new(*l))));
}

// ---------------------------------------------------------------------------
// The printed form of a number is its decimal notation.

proof fn lemma_digit_char(d: int)
    requires
        0 <= d < 10,
    ensures
        is_digit(digit_char(d)),
        digit_value(digit_char(d)) == d,
        digit_char(d) == '0' <==> d == 0,
{
}

/// The digits up to `to` are read alike in two sequences that agree there.
proof fn lemma_digits_agree(a: Seq<char>, b: Seq<char>, from: int, to: int)
    requires
        forall|i: int| from <= i < to ==> a[i] == b[i],
    ensures
        digits_value(a, from, to) == digits_value(b, from, to),
    decreases to - from,
{
    if to > from {
        lemma_digits_agree(a, b, from, to - 1);
    }
}

/// Printing a natural number gives its decimal notation: only digits, no
/// leading zero unless the number is zero, and digits that read back as the
/// number.
pub proof fn law_show_nat_decimal(n: nat)
    ensures
        show_nat(n).len() > 0,
        forall|i: int| 0 <= i < show_nat(n).len() ==> is_digit(#[trigger] show_nat(n)[i]),
        show_nat(n)[0] == '0' ==> n == 0,
        digits_value(show_nat(n), 0, show_nat(n).len() as int) == n,
    decreases n,
{
    if n < 10 {
        lemma_digit_char(n as int);
        let s = show_nat(n);
        assert(digits_value(s, 0, 0) == 0);
    } else {
        let m = n / 10;
        let d = (n % 10) as int;
        law_show_nat_decimal(m);
        lemma_digit_char(d);
        let p = show_nat(m);
        let s = show_nat(n);
        assert(s == p.push(digit_char(d)));
        lemma_digits_agree(s, p, 0, p.len() as int);
        assert(s[0] == p[0]);
        assert(digits_value(s, 0, s.len() as int) == digits_value(s, 0, p.len() as int) * 10 + d);
        assert forall|i: int| 0 <= i < s.len() implies is_digit(#[trigger] s[i]) by {
            if i < p.len() {
                assert(s[i] == p[i]);
            }
        }
        assert(m > 0);
    }
}

/// Printing an integer gives its decimal notation, after a minus sign when
/// it is negative.
pub proof fn law_show_int_decimal(n: int)
    ensures
        n >= 0 ==> show_int(n) == show_nat(n as nat),
        n < 0 ==> show_int(n)[0] == '-' && show_int(n).drop_first() == show_nat((-n) as nat),
        digits_value(show_nat(if n < 0 { -n } else { n } as nat), 0, show_nat(if n < 0 { -n } else { n } as nat).len() as int)
            == if n < 0 { -n } else { n },
{
    law_show_nat_decimal(if n < 0 { -n } else { n } as nat);
    if n < 0 {
        reveal_strlit("-");
        assert(("-"@ + show_nat((-n) as nat))[0] == '-');
        assert(("-"@ + show_nat((-n) as nat)).drop_first() =~= show_nat((-n) as nat));
    }
}

} // verus!
