//! How the grammar groups arithmetic operators: `*` and `/` bind tighter
//! than `+` and `-`, and operators that bind equally associate to the left.
use vstd::prelude::*;
use crate::syntax::exprs::{ArithOp, CmpOp, Literal};
use crate::syntax::grammar::{
    arith_of, comparison_of, digit_end, digits_value, is_comparison, is_digit, is_letter, p_application, p_app_loop, p_atom, p_expr,
    p_expr_loop, precedence, scan, spec_parse, whitespace, ws_end, max_precedence, SExpr, SFail, Sym, Token,
};
use crate::syntax::show::{law_show_nat_decimal, show_nat};

verus! {

/// The symbol of an arithmetic operator.
pub open spec fn op_sym(o: ArithOp) -> Sym {
    match o {
        ArithOp::Add => Sym::Add,
        ArithOp::Sub => Sym::Sub,
        ArithOp::Mul => Sym::Mul,
        ArithOp::Div => Sym::Div,
    }
}

/// `*` and `/` bind tighter than `+` and `-`.
pub open spec fn binds_tighter(o: ArithOp) -> bool {
    o == ArithOp::Mul || o == ArithOp::Div
}

pub open spec fn num(n: int) -> SExpr {
    SExpr::Lit(Literal::Number(n as i64))
}

pub open spec fn arith(o: ArithOp, a: SExpr, b: SExpr) -> SExpr {
    SExpr::Arith(o, Box::new(a), Box::new(b))
}

/// A number token at `p`, followed by white space up to `q`, where the next
/// token cannot start an atom.
pub open spec fn number_at(cs: Seq<char>, p: int, n: int, q: int) -> bool {
    &&& 0 <= n <= i64::MAX
    &&& scan(cs, p) matches Some((Token::Number(m), l)) && m == n && ws_end(cs, p + l) == q
    &&& (scan(cs, q) matches Some((Token::Sym(_), _)) || scan(cs, q) matches Some((Token::Eof, _)))
}

/// The symbol of `o` at `q`, followed by white space up to `p`.
pub open spec fn op_at(cs: Seq<char>, q: int, o: ArithOp, p: int) -> bool {
    scan(cs, q) matches Some((Token::Sym(s), l)) && s == op_sym(o) && ws_end(cs, q + l) == p
}

pub open spec fn end_at(cs: Seq<char>, q: int) -> bool {
    scan(cs, q) matches Some((Token::Eof, _))
}

proof fn lemma_operand(cs: Seq<char>, p: int, n: int, q: int, f: nat)
    requires
        number_at(cs, p, n, q),
        f >= 3,
    ensures
        p_application(cs, p, f) == Ok::<(SExpr, int), SFail>((num(n), q)),
{
    assert(p_atom(cs, p, (f - 1) as nat) == Ok::<(Option<SExpr>, int), SFail>((Some(num(n)), q)));
    assert(p_atom(cs, q, (f - 2) as nat) == Ok::<(Option<SExpr>, int), SFail>((None, q)));
    assert(p_app_loop(cs, num(n), q, (f - 1) as nat) == Ok::<(SExpr, int), SFail>((num(n), q)));
}

proof fn lemma_loop_end(cs: Seq<char>, lhs: SExpr, q: int, prec: int, hc: bool, f: nat)
    requires
        end_at(cs, q),
        f >= 1,
    ensures
        p_expr_loop(cs, lhs, q, prec, hc, f) == Ok::<(SExpr, int), SFail>((lhs, q)),
{
}

proof fn lemma_loop_stop(cs: Seq<char>, lhs: SExpr, q: int, o: ArithOp, p: int, prec: int, hc: bool, f: nat)
    requires
        op_at(cs, q, o, p),
        precedence(op_sym(o)) >= prec,
        f >= 1,
    ensures
        p_expr_loop(cs, lhs, q, prec, hc, f) == Ok::<(SExpr, int), SFail>((lhs, q)),
{
}

proof fn lemma_loop_op(cs: Seq<char>, lhs: SExpr, q: int, o: ArithOp, p: int, prec: int, hc: bool, f: nat)
    requires
        op_at(cs, q, o, p),
        precedence(op_sym(o)) < prec,
        f >= 1,
    ensures
        p_expr_loop(cs, lhs, q, prec, hc, f) == match p_expr(cs, p, precedence(op_sym(o)), (f - 1) as nat) {
            Err(e) => Err(e),
            Ok((rhs, p2)) => p_expr_loop(cs, arith(o, lhs, rhs), p2, prec, hc, (f - 1) as nat),
        },
{
    assert(!is_comparison(op_sym(o)));
    assert(arith_of(op_sym(o)) == o);
}

/// Three numbers joined by two arithmetic operators, `n1 o1 n2 o2 n3`, as
/// the grammar reads them with `fuel` to spare: the second operator is
/// applied first exactly when it binds tighter than the first.
proof fn lemma_three_operands(
    cs: Seq<char>,
    n1: int, o1: ArithOp, n2: int, o2: ArithOp, n3: int,
    p1: int, q1: int, p2: int, q2: int, p3: int, q3: int,
    f: nat,
)
    requires
        number_at(cs, p1, n1, q1),
        op_at(cs, q1, o1, p2),
        number_at(cs, p2, n2, q2),
        op_at(cs, q2, o2, p3),
        number_at(cs, p3, n3, q3),
        end_at(cs, q3),
        f >= 12,
    ensures
        p_expr(cs, p1, max_precedence(), f) == Ok::<(SExpr, int), SFail>((
            if binds_tighter(o2) && !binds_tighter(o1) {
                arith(o1, num(n1), arith(o2, num(n2), num(n3)))
            } else {
                arith(o2, arith(o1, num(n1), num(n2)), num(n3))
            },
            q3,
        )),
{
    let pr1 = precedence(op_sym(o1));
    let pr2 = precedence(op_sym(o2));
    lemma_operand(cs, p1, n1, q1, (f - 1) as nat);
    lemma_loop_op(cs, num(n1), q1, o1, p2, max_precedence(), false, (f - 1) as nat);
    // The right operand of the first operator.
    lemma_operand(cs, p2, n2, q2, (f - 3) as nat);
    if pr2 < pr1 {
        lemma_loop_op(cs, num(n2), q2, o2, p3, pr1, false, (f - 3) as nat);
        lemma_operand(cs, p3, n3, q3, (f - 5) as nat);
        lemma_loop_end(cs, num(n3), q3, pr2, false, (f - 5) as nat);
        lemma_loop_end(cs, arith(o2, num(n2), num(n3)), q3, pr1, false, (f - 4) as nat);
        lemma_loop_end(cs, arith(o1, num(n1), arith(o2, num(n2), num(n3))), q3, max_precedence(), false, (f - 2) as nat);
    } else {
        lemma_loop_stop(cs, num(n2), q2, o2, p3, pr1, false, (f - 3) as nat);
        lemma_loop_op(cs, arith(o1, num(n1), num(n2)), q2, o2, p3, max_precedence(), false, (f - 2) as nat);
        lemma_operand(cs, p3, n3, q3, (f - 4) as nat);
        lemma_loop_end(cs, num(n3), q3, pr2, false, (f - 4) as nat);
        lemma_loop_end(cs, arith(o2, arith(o1, num(n1), num(n2)), num(n3)), q3, max_precedence(), false, (f - 3) as nat);
    }
}

// ---------------------------------------------------------------------------
// The text of three numbers and two operators

pub open spec fn op_char(o: ArithOp) -> char {
    match o {
        ArithOp::Add => '+',
        ArithOp::Sub => '-',
        ArithOp::Mul => '*',
        ArithOp::Div => '/',
    }
}

/// `n1 o1 n2 o2 n3`, with single spaces around the operators.
pub open spec fn three_numbers_text(n1: nat, o1: ArithOp, n2: nat, o2: ArithOp, n3: nat) -> Seq<char> {
    show_nat(n1) + seq![' ', op_char(o1), ' '] + show_nat(n2) + seq![' ', op_char(o2), ' '] + show_nat(n3)
}

proof fn lemma_digit_end(cs: Seq<char>, i: int, e: int)
    requires
        0 <= i <= e <= cs.len(),
        forall|j: int| i <= j < e ==> is_digit(#[trigger] cs[j]),
        e == cs.len() || !is_digit(cs[e]),
    ensures
        digit_end(cs, i) == e,
    decreases e - i,
{
    if i < e {
        lemma_digit_end(cs, i + 1, e);
    }
}

proof fn lemma_digits_shift(cs: Seq<char>, d: Seq<char>, off: int, a: int, b: int)
    requires
        forall|j: int| a <= j < b ==> cs[off + j] == #[trigger] d[j],
    ensures
        digits_value(cs, off + a, off + b) == digits_value(d, a, b),
    decreases b - a,
{
    if b > a {
        lemma_digits_shift(cs, d, off, a, b - 1);
        assert(cs[off + b - 1] == d[b - 1]);
    }
}

/// The number `n`, printed at `off` and followed by a space or the end.
proof fn lemma_scan_number(cs: Seq<char>, off: int, n: nat)
    requires
        n <= i64::MAX,
        0 <= off,
        off + show_nat(n).len() <= cs.len(),
        forall|j: int| 0 <= j < show_nat(n).len() ==> cs[off + j] == #[trigger] show_nat(n)[j],
        off + show_nat(n).len() == cs.len() || cs[off + show_nat(n).len()] == ' ',
    ensures
        scan(cs, off) == Some((Token::Number(n as i64), show_nat(n).len() as int)),
{
    let d = show_nat(n);
    let e = off + d.len();
    law_show_nat_decimal(n);
    assert(cs[off] == d[0]);
    assert forall|j: int| off <= j < e implies is_digit(#[trigger] cs[j]) by {
        assert(cs[off + (j - off)] == d[j - off]);
    }
    lemma_digit_end(cs, off, e);
    lemma_digits_shift(cs, d, off, 0, d.len() as int);
}

proof fn lemma_ws_one(cs: Seq<char>, i: int)
    requires
        0 <= i,
        i + 1 < cs.len(),
        cs[i] == ' ',
        !whitespace(cs[i + 1]),
    ensures
        ws_end(cs, i) == i + 1,
{
    assert(ws_end(cs, i + 1) == i + 1);
}

proof fn lemma_scan_op(cs: Seq<char>, i: int, o: ArithOp)
    requires
        0 <= i,
        i + 1 < cs.len(),
        cs[i] == op_char(o),
        cs[i + 1] == ' ',
    ensures
        scan(cs, i) == Some((Token::Sym(op_sym(o)), 1int)),
        !whitespace(cs[i]),
{
    assert(!is_digit(cs[i]));
    assert(!is_letter(cs[i]));
}

/// Three numbers joined by two arithmetic operators parse as arithmetic
/// says: `*` and `/` bind tighter than `+` and `-`, and operators that bind
/// equally associate to the left. So `n1 o1 n2 o2 n3` is `n1 o1 (n2 o2 n3)`
/// where `o2` is `*` or `/` and `o1` is `+` or `-`, and `(n1 o1 n2) o2 n3`
/// otherwise; `2 * 3 / 2` is `(2 * 3) / 2`.
pub proof fn law_operator_grouping(n1: nat, o1: ArithOp, n2: nat, o2: ArithOp, n3: nat)
    requires
        n1 <= i64::MAX,
        n2 <= i64::MAX,
        n3 <= i64::MAX,
    ensures
        spec_parse(three_numbers_text(n1, o1, n2, o2, n3)) == Ok::<SExpr, SFail>(
            if binds_tighter(o2) && !binds_tighter(o1) {
                arith(o1, num(n1 as int), arith(o2, num(n2 as int), num(n3 as int)))
            } else {
                arith(o2, arith(o1, num(n1 as int), num(n2 as int)), num(n3 as int))
            },
        ),
{
    let d1 = show_nat(n1);
    let d2 = show_nat(n2);
    let d3 = show_nat(n3);
    law_show_nat_decimal(n1);
    law_show_nat_decimal(n2);
    law_show_nat_decimal(n3);
    let cs = three_numbers_text(n1, o1, n2, o2, n3);
    let e1 = d1.len() as int;
    let p2 = e1 + 3;
    let e2 = p2 + d2.len();
    let p3 = e2 + 3;
    let e3 = p3 + d3.len();
    assert(cs.len() == e3);
    assert forall|j: int| 0 <= j < d1.len() implies cs[0 + j] == #[trigger] d1[j] by {}
    assert forall|j: int| 0 <= j < d2.len() implies cs[p2 + j] == #[trigger] d2[j] by {}
    assert forall|j: int| 0 <= j < d3.len() implies cs[p3 + j] == #[trigger] d3[j] by {}
    assert(cs[e1] == ' ' && cs[e1 + 1] == op_char(o1) && cs[e1 + 2] == ' ');
    assert(cs[e2] == ' ' && cs[e2 + 1] == op_char(o2) && cs[e2 + 2] == ' ');
    assert(cs[0] == d1[0] && cs[p2] == d2[0] && cs[p3] == d3[0]);
    lemma_scan_number(cs, 0, n1);
    lemma_scan_number(cs, p2, n2);
    lemma_scan_number(cs, p3, n3);
    lemma_scan_op(cs, e1 + 1, o1);
    lemma_scan_op(cs, e2 + 1, o2);
    lemma_ws_one(cs, e1);
    lemma_ws_one(cs, e2);
    assert(!whitespace(cs[p2]) && !whitespace(cs[p3]) && !whitespace(cs[0]));
    lemma_ws_one(cs, e1 + 2);
    lemma_ws_one(cs, e2 + 2);
    assert(ws_end(cs, 0) == 0);
    assert(ws_end(cs, e3) == e3);
    assert(scan(cs, e3) == Some((Token::Eof, 0int)));
    assert(number_at(cs, 0, n1 as int, e1 + 1));
    assert(op_at(cs, e1 + 1, o1, p2));
    assert(number_at(cs, p2, n2 as int, e2 + 1));
    assert(op_at(cs, e2 + 1, o2, p3));
    assert(number_at(cs, p3, n3 as int, e3));
    lemma_three_operands(cs, n1 as int, o1, n2 as int, o2, n3 as int, 0, e1 + 1, p2, e2 + 1, p3, e3,
        (crate::syntax::grammar::budget(cs, 0) + 16) as nat);
}

// ---------------------------------------------------------------------------
// Comparisons among arithmetic

pub open spec fn rel_sym(c: CmpOp) -> Sym {
    match c {
        CmpOp::Lt => Sym::Lt,
        CmpOp::Eq => Sym::Eq,
        CmpOp::Gt => Sym::Gt,
    }
}

pub open spec fn rel_text(c: CmpOp) -> Seq<char> {
    match c {
        CmpOp::Lt => seq!['<'],
        CmpOp::Eq => seq!['=', '='],
        CmpOp::Gt => seq!['>'],
    }
}

pub open spec fn compare(c: CmpOp, a: SExpr, b: SExpr) -> SExpr {
    SExpr::Cmp(c, Box::new(a), Box::new(b))
}

/// The symbol of `c` at `q`, followed by white space up to `p`.
pub open spec fn rel_at(cs: Seq<char>, q: int, c: CmpOp, p: int) -> bool {
    scan(cs, q) matches Some((Token::Sym(s), l)) && s == rel_sym(c) && ws_end(cs, q + l) == p
}

proof fn lemma_loop_rel(cs: Seq<char>, lhs: SExpr, q: int, c: CmpOp, p: int, prec: int, hc: bool, f: nat)
    requires
        rel_at(cs, q, c, p),
        precedence(rel_sym(c)) < prec,
        f >= 1,
    ensures
        p_expr_loop(cs, lhs, q, prec, hc, f) == match p_expr(cs, p, precedence(rel_sym(c)), (f - 1) as nat) {
            Err(e) => Err(e),
            Ok((rhs, p2)) => if hc {
                Err(SFail::Error(p2, "Chained comparisons are not allowed"@))
            } else {
                p_expr_loop(cs, compare(c, lhs, rhs), p2, prec, true, (f - 1) as nat)
            },
        },
{
    assert(is_comparison(rel_sym(c)));
    assert(comparison_of(rel_sym(c)) == c);
}

proof fn lemma_loop_rel_stop(cs: Seq<char>, lhs: SExpr, q: int, c: CmpOp, p: int, prec: int, hc: bool, f: nat)
    requires
        rel_at(cs, q, c, p),
        precedence(rel_sym(c)) >= prec,
        f >= 1,
    ensures
        p_expr_loop(cs, lhs, q, prec, hc, f) == Ok::<(SExpr, int), SFail>((lhs, q)),
{
}

/// `n1 o n2 c n3`, as the grammar reads it with `fuel` to spare: the
/// arithmetic first.
proof fn lemma_arith_then_relation(
    cs: Seq<char>, n1: int, o: ArithOp, n2: int, c: CmpOp, n3: int,
    p1: int, q1: int, p2: int, q2: int, p3: int, q3: int, f: nat,
)
    requires
        number_at(cs, p1, n1, q1),
        op_at(cs, q1, o, p2),
        number_at(cs, p2, n2, q2),
        rel_at(cs, q2, c, p3),
        number_at(cs, p3, n3, q3),
        end_at(cs, q3),
        f >= 12,
    ensures
        p_expr(cs, p1, max_precedence(), f)
            == Ok::<(SExpr, int), SFail>((compare(c, arith(o, num(n1), num(n2)), num(n3)), q3)),
{
    let po = precedence(op_sym(o));
    let pc = precedence(rel_sym(c));
    lemma_operand(cs, p1, n1, q1, (f - 1) as nat);
    lemma_operand(cs, p2, n2, q2, (f - 3) as nat);
    lemma_loop_op(cs, num(n1), q1, o, p2, max_precedence(), false, (f - 1) as nat);
    lemma_loop_rel_stop(cs, num(n2), q2, c, p3, po, false, (f - 3) as nat);
    let l = arith(o, num(n1), num(n2));
    lemma_loop_rel(cs, l, q2, c, p3, max_precedence(), false, (f - 2) as nat);
    lemma_operand(cs, p3, n3, q3, (f - 4) as nat);
    lemma_loop_end(cs, num(n3), q3, pc, false, (f - 4) as nat);
    lemma_loop_end(cs, compare(c, l, num(n3)), q3, max_precedence(), true, (f - 3) as nat);
}

/// `n1 c n2 o n3`, as the grammar reads it with `fuel` to spare: the
/// arithmetic first.
proof fn lemma_relation_then_arith(
    cs: Seq<char>, n1: int, c: CmpOp, n2: int, o: ArithOp, n3: int,
    p1: int, q1: int, p2: int, q2: int, p3: int, q3: int, f: nat,
)
    requires
        number_at(cs, p1, n1, q1),
        rel_at(cs, q1, c, p2),
        number_at(cs, p2, n2, q2),
        op_at(cs, q2, o, p3),
        number_at(cs, p3, n3, q3),
        end_at(cs, q3),
        f >= 12,
    ensures
        p_expr(cs, p1, max_precedence(), f)
            == Ok::<(SExpr, int), SFail>((compare(c, num(n1), arith(o, num(n2), num(n3))), q3)),
{
    let po = precedence(op_sym(o));
    let pc = precedence(rel_sym(c));
    lemma_operand(cs, p1, n1, q1, (f - 1) as nat);
    lemma_operand(cs, p2, n2, q2, (f - 3) as nat);
    lemma_loop_rel(cs, num(n1), q1, c, p2, max_precedence(), false, (f - 1) as nat);
    lemma_loop_op(cs, num(n2), q2, o, p3, pc, false, (f - 3) as nat);
    lemma_operand(cs, p3, n3, q3, (f - 5) as nat);
    lemma_loop_end(cs, num(n3), q3, po, false, (f - 5) as nat);
    let r = arith(o, num(n2), num(n3));
    lemma_loop_end(cs, r, q3, pc, false, (f - 4) as nat);
    lemma_loop_end(cs, compare(c, num(n1), r), q3, max_precedence(), true, (f - 2) as nat);
}

/// `n1 c1 n2 c2 n3` is refused: comparisons do not chain.
proof fn lemma_relations_refused(
    cs: Seq<char>, n1: int, c1: CmpOp, n2: int, c2: CmpOp, n3: int,
    p1: int, q1: int, p2: int, q2: int, p3: int, q3: int, f: nat,
)
    requires
        number_at(cs, p1, n1, q1),
        rel_at(cs, q1, c1, p2),
        number_at(cs, p2, n2, q2),
        rel_at(cs, q2, c2, p3),
        number_at(cs, p3, n3, q3),
        end_at(cs, q3),
        f >= 12,
    ensures
        p_expr(cs, p1, max_precedence(), f) is Err,
{
    let pc = precedence(rel_sym(c1));
    let pd = precedence(rel_sym(c2));
    lemma_operand(cs, p1, n1, q1, (f - 1) as nat);
    lemma_operand(cs, p2, n2, q2, (f - 3) as nat);
    lemma_loop_rel(cs, num(n1), q1, c1, p2, max_precedence(), false, (f - 1) as nat);
    lemma_loop_rel_stop(cs, num(n2), q2, c2, p3, pc, false, (f - 3) as nat);
    lemma_loop_rel(cs, compare(c1, num(n1), num(n2)), q2, c2, p3, max_precedence(), true, (f - 2) as nat);
    lemma_operand(cs, p3, n3, q3, (f - 4) as nat);
    lemma_loop_end(cs, num(n3), q3, pd, false, (f - 4) as nat);
}

/// The text of an operator symbol.
pub open spec fn sym_text(s: Sym) -> Seq<char> {
    match s {
        Sym::Add => seq!['+'],
        Sym::Sub => seq!['-'],
        Sym::Mul => seq!['*'],
        Sym::Div => seq!['/'],
        Sym::Lt => seq!['<'],
        Sym::Gt => seq!['>'],
        _ => seq!['=', '='],
    }
}

pub open spec fn operator_sym(s: Sym) -> bool {
    s != Sym::Colon && s != Sym::Arrow
}

/// `n1 s1 n2 s2 n3`, with single spaces around the operators.
pub open spec fn three_text(n1: nat, s1: Sym, n2: nat, s2: Sym, n3: nat) -> Seq<char> {
    show_nat(n1) + seq![' '] + sym_text(s1) + seq![' '] + show_nat(n2) + seq![' '] + sym_text(s2) + seq![' ']
        + show_nat(n3)
}

proof fn lemma_scan_sym(cs: Seq<char>, i: int, s: Sym)
    requires
        operator_sym(s),
        0 <= i,
        i + sym_text(s).len() < cs.len(),
        forall|j: int| 0 <= j < sym_text(s).len() ==> cs[i + j] == #[trigger] sym_text(s)[j],
        cs[i + sym_text(s).len()] == ' ',
    ensures
        scan(cs, i) == Some((Token::Sym(s), sym_text(s).len() as int)),
        !whitespace(cs[i]),
{
    assert(cs[i] == sym_text(s)[0]);
    assert(cs[i + 1] == if s == Sym::Eq { '=' } else { ' ' }) by {
        if s == Sym::Eq {
            assert(cs[i + 1] == sym_text(s)[1]);
        }
    }
    assert(!is_digit(cs[i]));
    assert(!is_letter(cs[i]));
}

/// Where the tokens of `three_text` stand.
proof fn lemma_three_text(n1: nat, s1: Sym, n2: nat, s2: Sym, n3: nat)
    requires
        n1 <= i64::MAX,
        n2 <= i64::MAX,
        n3 <= i64::MAX,
        operator_sym(s1),
        operator_sym(s2),
    ensures
        ({
            let cs = three_text(n1, s1, n2, s2, n3);
            let q1 = show_nat(n1).len() + 1int;
            let p2 = q1 + sym_text(s1).len() + 1int;
            let q2 = p2 + show_nat(n2).len() + 1int;
            let p3 = q2 + sym_text(s2).len() + 1int;
            let q3 = p3 + show_nat(n3).len();
            &&& ws_end(cs, 0) == 0
            &&& number_at(cs, 0, n1 as int, q1)
            &&& scan(cs, q1) == Some((Token::Sym(s1), sym_text(s1).len() as int))
            &&& ws_end(cs, q1 + sym_text(s1).len()) == p2
            &&& number_at(cs, p2, n2 as int, q2)
            &&& scan(cs, q2) == Some((Token::Sym(s2), sym_text(s2).len() as int))
            &&& ws_end(cs, q2 + sym_text(s2).len()) == p3
            &&& number_at(cs, p3, n3 as int, q3)
            &&& end_at(cs, q3)
        }),
{
    let d1 = show_nat(n1);
    let d2 = show_nat(n2);
    let d3 = show_nat(n3);
    let t1 = sym_text(s1);
    let t2 = sym_text(s2);
    law_show_nat_decimal(n1);
    law_show_nat_decimal(n2);
    law_show_nat_decimal(n3);
    let cs = three_text(n1, s1, n2, s2, n3);
    let e1 = d1.len() as int;
    let q1 = e1 + 1;
    let p2 = q1 + t1.len() + 1;
    let e2 = p2 + d2.len();
    let q2 = e2 + 1;
    let p3 = q2 + t2.len() + 1;
    let e3 = p3 + d3.len();
    assert(cs.len() == e3);
    assert forall|j: int| 0 <= j < d1.len() implies cs[0 + j] == #[trigger] d1[j] by {}
    assert forall|j: int| 0 <= j < t1.len() implies cs[q1 + j] == #[trigger] t1[j] by {}
    assert forall|j: int| 0 <= j < d2.len() implies cs[p2 + j] == #[trigger] d2[j] by {}
    assert forall|j: int| 0 <= j < t2.len() implies cs[q2 + j] == #[trigger] t2[j] by {}
    assert forall|j: int| 0 <= j < d3.len() implies cs[p3 + j] == #[trigger] d3[j] by {}
    assert(cs[e1] == ' ' && cs[q1 + t1.len()] == ' ' && cs[e2] == ' ' && cs[q2 + t2.len()] == ' ');
    assert(cs[0] == d1[0] && cs[p2] == d2[0] && cs[p3] == d3[0]);
    lemma_scan_number(cs, 0, n1);
    lemma_scan_number(cs, p2, n2);
    lemma_scan_number(cs, p3, n3);
    lemma_scan_sym(cs, q1, s1);
    lemma_scan_sym(cs, q2, s2);
    assert(!whitespace(cs[p2]) && !whitespace(cs[p3]) && !whitespace(cs[0]));
    lemma_ws_one(cs, e1);
    lemma_ws_one(cs, e2);
    lemma_ws_one(cs, q1 + t1.len());
    lemma_ws_one(cs, q2 + t2.len());
    assert(ws_end(cs, 0) == 0);
    assert(ws_end(cs, e3) == e3);
    assert(scan(cs, e3) == Some((Token::Eof, 0int)));
}

proof fn lemma_parse_whole(cs: Seq<char>, e: SExpr, q: int)
    requires
        ws_end(cs, 0) == 0,
        p_expr(cs, 0, max_precedence(), (crate::syntax::grammar::budget(cs, 0) + 16) as nat)
            == Ok::<(SExpr, int), SFail>((e, q)),
        end_at(cs, q),
    ensures
        spec_parse(cs) == Ok::<SExpr, SFail>(e),
{
}

proof fn lemma_parse_arith_then_relation(n1: nat, o: ArithOp, n2: nat, c: CmpOp, n3: nat)
    requires
        n1 <= i64::MAX,
        n2 <= i64::MAX,
        n3 <= i64::MAX,
    ensures
        spec_parse(three_text(n1, op_sym(o), n2, rel_sym(c), n3)) == Ok::<SExpr, SFail>(
            compare(c, arith(o, num(n1 as int), num(n2 as int)), num(n3 as int)),
        ),
{
    let cs = three_text(n1, op_sym(o), n2, rel_sym(c), n3);
    lemma_three_text(n1, op_sym(o), n2, rel_sym(c), n3);
    let q1 = show_nat(n1).len() + 1int;
    let p2 = q1 + sym_text(op_sym(o)).len() + 1int;
    let q2 = p2 + show_nat(n2).len() + 1int;
    let p3 = q2 + sym_text(rel_sym(c)).len() + 1int;
    let q3 = p3 + show_nat(n3).len();
    lemma_arith_then_relation(cs, n1 as int, o, n2 as int, c, n3 as int, 0, q1, p2, q2, p3, q3,
        (crate::syntax::grammar::budget(cs, 0) + 16) as nat);
    lemma_parse_whole(cs, compare(c, arith(o, num(n1 as int), num(n2 as int)), num(n3 as int)), q3);
}

proof fn lemma_parse_relation_then_arith(n1: nat, c: CmpOp, n2: nat, o: ArithOp, n3: nat)
    requires
        n1 <= i64::MAX,
        n2 <= i64::MAX,
        n3 <= i64::MAX,
    ensures
        spec_parse(three_text(n1, rel_sym(c), n2, op_sym(o), n3)) == Ok::<SExpr, SFail>(
            compare(c, num(n1 as int), arith(o, num(n2 as int), num(n3 as int))),
        ),
{
    let cs = three_text(n1, rel_sym(c), n2, op_sym(o), n3);
    lemma_three_text(n1, rel_sym(c), n2, op_sym(o), n3);
    let q1 = show_nat(n1).len() + 1int;
    let p2 = q1 + sym_text(rel_sym(c)).len() + 1int;
    let q2 = p2 + show_nat(n2).len() + 1int;
    let p3 = q2 + sym_text(op_sym(o)).len() + 1int;
    let q3 = p3 + show_nat(n3).len();
    lemma_relation_then_arith(cs, n1 as int, c, n2 as int, o, n3 as int, 0, q1, p2, q2, p3, q3,
        (crate::syntax::grammar::budget(cs, 0) + 16) as nat);
    lemma_parse_whole(cs, compare(c, num(n1 as int), arith(o, num(n2 as int), num(n3 as int))), q3);
}

proof fn lemma_parse_relations(n1: nat, c: CmpOp, n2: nat, d: CmpOp, n3: nat)
    requires
        n1 <= i64::MAX,
        n2 <= i64::MAX,
        n3 <= i64::MAX,
    ensures
        spec_parse(three_text(n1, rel_sym(c), n2, rel_sym(d), n3)) is Err,
{
    let cs = three_text(n1, rel_sym(c), n2, rel_sym(d), n3);
    lemma_three_text(n1, rel_sym(c), n2, rel_sym(d), n3);
    let q1 = show_nat(n1).len() + 1int;
    let p2 = q1 + sym_text(rel_sym(c)).len() + 1int;
    let q2 = p2 + show_nat(n2).len() + 1int;
    let p3 = q2 + sym_text(rel_sym(d)).len() + 1int;
    let q3 = p3 + show_nat(n3).len();
    lemma_relations_refused(cs, n1 as int, c, n2 as int, d, n3 as int, 0, q1, p2, q2, p3, q3,
        (crate::syntax::grammar::budget(cs, 0) + 16) as nat);
}

/// Comparisons bind looser than arithmetic, and do not chain: for an
/// arithmetic operator `o` and comparisons `c` and `d`, `n1 o n2 c n3` is
/// `(n1 o n2) c n3`, `n1 c n2 o n3` is `n1 c (n2 o n3)`, and `n1 c n2 d n3`
/// is refused.
pub proof fn law_comparison_grouping(n1: nat, o: ArithOp, c: CmpOp, d: CmpOp, n2: nat, n3: nat)
    requires
        n1 <= i64::MAX,
        n2 <= i64::MAX,
        n3 <= i64::MAX,
    ensures
        spec_parse(three_text(n1, op_sym(o), n2, rel_sym(c), n3)) == Ok::<SExpr, SFail>(
            compare(c, arith(o, num(n1 as int), num(n2 as int)), num(n3 as int)),
        ),
        spec_parse(three_text(n1, rel_sym(c), n2, op_sym(o), n3)) == Ok::<SExpr, SFail>(
            compare(c, num(n1 as int), arith(o, num(n2 as int), num(n3 as int))),
        ),
        spec_parse(three_text(n1, rel_sym(c), n2, rel_sym(d), n3)) is Err,
{
    lemma_parse_arith_then_relation(n1, o, n2, c, n3);
    lemma_parse_relation_then_arith(n1, c, n2, o, n3);
    lemma_parse_relations(n1, c, n2, d, n3);
}

} // verus!
