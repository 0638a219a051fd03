//! White space in front of a text does not change what the text parses to:
//! every step of the grammar on the padded text is the step on the text
//! itself, moved by the length of the padding.
use vstd::prelude::*;
use crate::syntax::grammar::{
    Keyword, PR, SExpr, SFail, SFun, Sym, Token, alpha_end, budget, digit_end, digits_value, eat, p_app_loop,
    p_application, p_atom, p_atom_type, p_expect, p_expr, p_expr_loop, p_fun, p_fun_kw, p_ident, p_if, p_let,
    p_rec_funs, p_type, scan, spec_parse, whitespace, ws_end,
};
use crate::syntax::parser::lemma_run_ends;

verus! {

/// A token read `k` characters further on.
pub open spec fn shift_token(t: Token, k: int) -> Token {
    match t {
        Token::Ident(s, e) => Token::Ident((s + k) as usize, (e + k) as usize),
        _ => t,
    }
}

/// A step of the grammar whose positions are moved by `k`.
pub open spec fn moved_by<T>(r: PR<T>, k: int) -> PR<T> {
    match r {
        Ok((v, p)) => Ok((v, p + k)),
        Err(SFail::Error(p, m)) => Err(SFail::Error(p + k, m)),
        Err(f) => Err(f),
    }
}

/// A whole parse whose error position is moved by `k`.
pub open spec fn parse_moved_by(r: Result<SExpr, SFail>, k: int) -> Result<SExpr, SFail> {
    match r {
        Err(SFail::Error(p, m)) => Err(SFail::Error(p + k, m)),
        _ => r,
    }
}

/// The padded text is short enough for its positions to be machine words.
pub open spec fn fits(w: Seq<char>, cs: Seq<char>) -> bool {
    (w + cs).len() <= usize::MAX
}

proof fn lemma_runs_shift(w: Seq<char>, cs: Seq<char>, i: int)
    requires
        i >= 0,
    ensures
        alpha_end(w + cs, i + w.len()) == alpha_end(cs, i) + w.len(),
        digit_end(w + cs, i + w.len()) == digit_end(cs, i) + w.len(),
        ws_end(w + cs, i + w.len()) == ws_end(cs, i) + w.len(),
        ws_end(cs, i) >= i,
    decreases cs.len() - i,
{
    if i < cs.len() {
        assert((w + cs)[i + w.len()] == cs[i]);
        lemma_runs_shift(w, cs, i + 1);
    }
}

proof fn lemma_subrange_shift(w: Seq<char>, cs: Seq<char>, s: int, e: int)
    requires
        0 <= s <= e <= cs.len(),
    ensures
        (w + cs).subrange(s + w.len(), e + w.len()) == cs.subrange(s, e),
{
    assert((w + cs).subrange(s + w.len(), e + w.len()) =~= cs.subrange(s, e));
}

proof fn lemma_digits_shift(w: Seq<char>, cs: Seq<char>, a: int, b: int)
    requires
        0 <= a,
        b <= cs.len(),
    ensures
        digits_value(w + cs, a + w.len(), b + w.len()) == digits_value(cs, a, b),
    decreases b - a,
{
    if a < b {
        lemma_digits_shift(w, cs, a, b - 1);
        assert((w + cs)[b - 1 + w.len()] == cs[b - 1]);
    }
}

proof fn lemma_scan_shift(w: Seq<char>, cs: Seq<char>, p: int)
    requires
        p >= 0,
        fits(w, cs),
    ensures
        scan(w + cs, p + w.len()) == match scan(cs, p) {
            Some((t, l)) => Some((shift_token(t, w.len() as int), l)),
            None => None,
        },
        scan(cs, p) matches Some((t, l)) ==> l >= 0 && (t matches Token::Ident(s, e) ==> s == p && e == p + l
            && p + l <= cs.len()),
{
    let k = w.len() as int;
    let ds = w + cs;
    lemma_runs_shift(w, cs, p);
    if p < cs.len() {
        assert(ds[p + k] == cs[p]);
        lemma_run_ends(cs, p);
        lemma_run_ends(cs, p + 1);
        let de = digit_end(cs, p);
        lemma_digits_shift(w, cs, p, de);
        let ae = alpha_end(cs, p);
        lemma_subrange_shift(w, cs, p, ae);
        if p + 1 < cs.len() {
            assert(ds[p + 1 + k] == cs[p + 1]);
        }
        if crate::syntax::grammar::is_digit(cs[p]) {
            assert(digit_end(cs, p) == digit_end(cs, p + 1));
        } else if crate::syntax::grammar::is_letter(cs[p]) {
            assert(alpha_end(cs, p) == alpha_end(cs, p + 1));
        }
    }
}

proof fn lemma_eat_shift(w: Seq<char>, cs: Seq<char>, p: int)
    requires
        p >= 0,
        fits(w, cs),
    ensures
        eat(w + cs, p + w.len()) == match eat(cs, p) {
            Some((t, q)) => Some((shift_token(t, w.len() as int), q + w.len())),
            None => None,
        },
        eat(cs, p) matches Some((t, q)) ==> q >= p && (t matches Token::Ident(s, e) ==> s == p && s <= e
            && e <= cs.len() && e <= q),
{
    lemma_scan_shift(w, cs, p);
    if let Some((t, l)) = scan(cs, p) {
        lemma_runs_shift(w, cs, p + l);
    }
}

proof fn lemma_expect_shift(w: Seq<char>, cs: Seq<char>, pos: int, t: Token, msg: Seq<char>)
    requires
        pos >= 0,
        fits(w, cs),
        !(t is Ident),
    ensures
        p_expect(w + cs, pos + w.len(), t, msg) == moved_by(p_expect(cs, pos, t, msg), w.len() as int),
        p_expect(cs, pos, t, msg) matches Ok((_, q)) ==> q >= pos,
{
    lemma_eat_shift(w, cs, pos);
}

proof fn lemma_ident_shift(w: Seq<char>, cs: Seq<char>, pos: int)
    requires
        pos >= 0,
        fits(w, cs),
    ensures
        p_ident(w + cs, pos + w.len()) == moved_by(p_ident(cs, pos), w.len() as int),
        p_ident(cs, pos) matches Ok((_, q)) ==> q >= pos,
{
    lemma_eat_shift(w, cs, pos);
    if let Some((Token::Ident(s, e), q)) = eat(cs, pos) {
        lemma_subrange_shift(w, cs, s as int, e as int);
    }
}

proof fn lemma_type_shift(w: Seq<char>, cs: Seq<char>, pos: int, fuel: nat)
    requires
        pos >= 0,
        fits(w, cs),
    ensures
        p_type(w + cs, pos + w.len(), fuel) == moved_by(p_type(cs, pos, fuel), w.len() as int),
        p_type(cs, pos, fuel) matches Ok((_, q)) ==> q >= pos,
    decreases fuel,
{
    if fuel > 0 {
        let f1 = (fuel - 1) as nat;
        lemma_atom_type_shift(w, cs, pos, f1);
        if let Ok((t, p1)) = p_atom_type(cs, pos, f1) {
            lemma_eat_shift(w, cs, p1);
            if let Some((Token::Sym(Sym::Arrow), p2)) = eat(cs, p1) {
                lemma_type_shift(w, cs, p2, f1);
            }
        }
    }
}

proof fn lemma_atom_type_shift(w: Seq<char>, cs: Seq<char>, pos: int, fuel: nat)
    requires
        pos >= 0,
        fits(w, cs),
    ensures
        p_atom_type(w + cs, pos + w.len(), fuel) == moved_by(p_atom_type(cs, pos, fuel), w.len() as int),
        p_atom_type(cs, pos, fuel) matches Ok((_, q)) ==> q >= pos,
    decreases fuel,
{
    if fuel > 0 {
        let f1 = (fuel - 1) as nat;
        lemma_eat_shift(w, cs, pos);
        match eat(cs, pos) {
            Some((Token::Ident(s, e), p1)) => {
                lemma_subrange_shift(w, cs, s as int, e as int);
            },
            Some((Token::Paren(crate::syntax::grammar::Paren::Open), p1)) => {
                lemma_type_shift(w, cs, p1, f1);
                if let Ok((t, p2)) = p_type(cs, p1, f1) {
                    lemma_expect_shift(
                        w,
                        cs,
                        p2,
                        Token::Paren(crate::syntax::grammar::Paren::Close),
                        "Expected `)`"@,
                    );
                }
            },
            _ => {},
        }
    }
}

proof fn lemma_expr_shift(w: Seq<char>, cs: Seq<char>, pos: int, prec: int, fuel: nat)
    requires
        pos >= 0,
        fits(w, cs),
    ensures
        p_expr(w + cs, pos + w.len(), prec, fuel) == moved_by(p_expr(cs, pos, prec, fuel), w.len() as int),
        p_expr(cs, pos, prec, fuel) matches Ok((_, q)) ==> q >= pos,
    decreases fuel, 0nat,
{
    if fuel > 0 {
        let f1 = (fuel - 1) as nat;
        lemma_application_shift(w, cs, pos, f1);
        if let Ok((lhs, p1)) = p_application(cs, pos, f1) {
            lemma_expr_loop_shift(w, cs, lhs, p1, prec, false, f1);
        }
    }
}

proof fn lemma_expr_loop_shift(w: Seq<char>, cs: Seq<char>, lhs: SExpr, pos: int, prec: int, has_comparison: bool, fuel: nat)
    requires
        pos >= 0,
        fits(w, cs),
    ensures
        p_expr_loop(w + cs, lhs, pos + w.len(), prec, has_comparison, fuel) == moved_by(
            p_expr_loop(cs, lhs, pos, prec, has_comparison, fuel),
            w.len() as int,
        ),
        p_expr_loop(cs, lhs, pos, prec, has_comparison, fuel) matches Ok((_, q)) ==> q >= pos,
    decreases fuel, 0nat,
{
    if fuel > 0 {
        let f1 = (fuel - 1) as nat;
        lemma_scan_shift(w, cs, pos);
        if let Some((Token::Sym(op), l)) = scan(cs, pos) {
            lemma_runs_shift(w, cs, pos + l);
            let p1 = ws_end(cs, pos + l);
            lemma_expr_shift(w, cs, p1, crate::syntax::grammar::precedence(op), f1);
            if let Ok((rhs, p2)) = p_expr(cs, p1, crate::syntax::grammar::precedence(op), f1) {
                lemma_expr_loop_shift(
                    w,
                    cs,
                    SExpr::Cmp(crate::syntax::grammar::comparison_of(op), Box::new(lhs), Box::new(rhs)),
                    p2,
                    prec,
                    true,
                    f1,
                );
                lemma_expr_loop_shift(
                    w,
                    cs,
                    SExpr::Arith(crate::syntax::grammar::arith_of(op), Box::new(lhs), Box::new(rhs)),
                    p2,
                    prec,
                    has_comparison,
                    f1,
                );
            }
        }
    }
}

proof fn lemma_application_shift(w: Seq<char>, cs: Seq<char>, pos: int, fuel: nat)
    requires
        pos >= 0,
        fits(w, cs),
    ensures
        p_application(w + cs, pos + w.len(), fuel) == moved_by(p_application(cs, pos, fuel), w.len() as int),
        p_application(cs, pos, fuel) matches Ok((_, q)) ==> q >= pos,
    decreases fuel, 0nat,
{
    if fuel > 0 {
        let f1 = (fuel - 1) as nat;
        lemma_atom_shift(w, cs, pos, f1);
        if let Ok((Some(fun), p1)) = p_atom(cs, pos, f1) {
            lemma_app_loop_shift(w, cs, fun, p1, f1);
        }
    }
}

proof fn lemma_app_loop_shift(w: Seq<char>, cs: Seq<char>, fun: SExpr, pos: int, fuel: nat)
    requires
        pos >= 0,
        fits(w, cs),
    ensures
        p_app_loop(w + cs, fun, pos + w.len(), fuel) == moved_by(p_app_loop(cs, fun, pos, fuel), w.len() as int),
        p_app_loop(cs, fun, pos, fuel) matches Ok((_, q)) ==> q >= pos,
    decreases fuel, 0nat,
{
    if fuel > 0 {
        let f1 = (fuel - 1) as nat;
        lemma_atom_shift(w, cs, pos, f1);
        if let Ok((Some(arg), p1)) = p_atom(cs, pos, f1) {
            lemma_app_loop_shift(w, cs, SExpr::Apply(Box::new(fun), Box::new(arg)), p1, f1);
        }
    }
}

#[verifier::rlimit(100)]
proof fn lemma_atom_shift(w: Seq<char>, cs: Seq<char>, pos: int, fuel: nat)
    requires
        pos >= 0,
        fits(w, cs),
    ensures
        p_atom(w + cs, pos + w.len(), fuel) == moved_by(p_atom(cs, pos, fuel), w.len() as int),
        p_atom(cs, pos, fuel) matches Ok((_, q)) ==> q >= pos,
    decreases fuel, 0nat,
{
    if fuel > 0 {
        let f1 = (fuel - 1) as nat;
        lemma_scan_shift(w, cs, pos);
        if let Some((t, l)) = scan(cs, pos) {
            lemma_runs_shift(w, cs, pos + l);
            let p1 = ws_end(cs, pos + l);
            match t {
                Token::Ident(s, e) => {
                    lemma_subrange_shift(w, cs, s as int, e as int);
                },
                Token::Paren(crate::syntax::grammar::Paren::Open) => {
                    lemma_expr_shift(w, cs, p1, crate::syntax::grammar::max_precedence(), f1);
                    if let Ok((e, p2)) = p_expr(cs, p1, crate::syntax::grammar::max_precedence(), f1) {
                        lemma_expect_shift(
                            w,
                            cs,
                            p2,
                            Token::Paren(crate::syntax::grammar::Paren::Close),
                            "Expected `)`"@,
                        );
                    }
                },
                Token::Keyword(Keyword::If) => {
                    lemma_if_shift(w, cs, p1, f1);
                },
                Token::Keyword(Keyword::Fun) => {
                    lemma_fun_shift(w, cs, p1, f1);
                },
                Token::Keyword(Keyword::Let) => {
                    lemma_let_shift(w, cs, p1, f1);
                },
                _ => {},
            }
        }
    }
}

proof fn lemma_if_shift(w: Seq<char>, cs: Seq<char>, pos: int, fuel: nat)
    requires
        pos >= 0,
        fits(w, cs),
    ensures
        p_if(w + cs, pos + w.len(), fuel) == moved_by(p_if(cs, pos, fuel), w.len() as int),
        p_if(cs, pos, fuel) matches Ok((_, q)) ==> q >= pos,
    decreases fuel, 0nat,
{
    if fuel > 0 {
        let f1 = (fuel - 1) as nat;
        let mp = crate::syntax::grammar::max_precedence();
        lemma_expr_shift(w, cs, pos, mp, f1);
        if let Ok((c, p1)) = p_expr(cs, pos, mp, f1) {
            lemma_expect_shift(w, cs, p1, Token::Keyword(Keyword::Then), "Expected `then`"@);
            if let Ok((_, p2)) = p_expect(cs, p1, Token::Keyword(Keyword::Then), "Expected `then`"@) {
                lemma_expr_shift(w, cs, p2, mp, f1);
                if let Ok((t, p3)) = p_expr(cs, p2, mp, f1) {
                    lemma_expect_shift(w, cs, p3, Token::Keyword(Keyword::Else), "Expected `else`"@);
                    if let Ok((_, p4)) = p_expect(cs, p3, Token::Keyword(Keyword::Else), "Expected `else`"@) {
                        lemma_expr_shift(w, cs, p4, mp, f1);
                    }
                }
            }
        }
    }
}

proof fn lemma_fun_shift(w: Seq<char>, cs: Seq<char>, pos: int, fuel: nat)
    requires
        pos >= 0,
        fits(w, cs),
    ensures
        p_fun(w + cs, pos + w.len(), fuel) == moved_by(p_fun(cs, pos, fuel), w.len() as int),
        p_fun(cs, pos, fuel) matches Ok((_, q)) ==> q >= pos,
    decreases fuel, 0nat,
{
    if fuel > 0 {
        let f1 = (fuel - 1) as nat;
        let mp = crate::syntax::grammar::max_precedence();
        let open = Token::Paren(crate::syntax::grammar::Paren::Open);
        let close = Token::Paren(crate::syntax::grammar::Paren::Close);
        let colon = Token::Sym(Sym::Colon);
        let is = Token::Keyword(Keyword::Is);
        lemma_ident_shift(w, cs, pos);
        if let Ok((_, p1)) = p_ident(cs, pos) {
            lemma_expect_shift(w, cs, p1, open, "Expected `(`"@);
            if let Ok((_, p2)) = p_expect(cs, p1, open, "Expected `(`"@) {
                lemma_ident_shift(w, cs, p2);
                if let Ok((_, p3)) = p_ident(cs, p2) {
                    lemma_expect_shift(w, cs, p3, colon, "Expected `:`"@);
                    if let Ok((_, p4)) = p_expect(cs, p3, colon, "Expected `:`"@) {
                        lemma_type_shift(w, cs, p4, f1);
                        if let Ok((_, p5)) = p_type(cs, p4, f1) {
                            lemma_expect_shift(w, cs, p5, close, "Expected `)`"@);
                            if let Ok((_, p6)) = p_expect(cs, p5, close, "Expected `)`"@) {
                                lemma_expect_shift(w, cs, p6, colon, "Expected `:`"@);
                                if let Ok((_, p7)) = p_expect(cs, p6, colon, "Expected `:`"@) {
                                    lemma_type_shift(w, cs, p7, f1);
                                    if let Ok((_, p8)) = p_type(cs, p7, f1) {
                                        lemma_expect_shift(w, cs, p8, is, "Expected `is` before function body"@);
                                        if let Ok((_, p9)) = p_expect(cs, p8, is, "Expected `is` before function body"@) {
                                            lemma_expr_shift(w, cs, p9, mp, f1);
                                        }
                                    }
                                }
                            }
                        }
                    }
                }
            }
        }
    }
}

proof fn lemma_fun_kw_shift(w: Seq<char>, cs: Seq<char>, pos: int, fuel: nat)
    requires
        pos >= 0,
        fits(w, cs),
    ensures
        p_fun_kw(w + cs, pos + w.len(), fuel) == moved_by(p_fun_kw(cs, pos, fuel), w.len() as int),
        p_fun_kw(cs, pos, fuel) matches Ok((_, q)) ==> q >= pos,
    decreases fuel, 0nat,
{
    if fuel > 0 {
        let f1 = (fuel - 1) as nat;
        lemma_expect_shift(w, cs, pos, Token::Keyword(Keyword::Fun), "Expected `fun`"@);
        if let Ok((_, p1)) = p_expect(cs, pos, Token::Keyword(Keyword::Fun), "Expected `fun`"@) {
            lemma_fun_shift(w, cs, p1, f1);
        }
    }
}

#[verifier::rlimit(100)]
proof fn lemma_rec_funs_shift(w: Seq<char>, cs: Seq<char>, funs: Seq<SFun>, pos: int, fuel: nat)
    requires
        pos >= 0,
        fits(w, cs),
    ensures
        p_rec_funs(w + cs, funs, pos + w.len(), fuel) == moved_by(p_rec_funs(cs, funs, pos, fuel), w.len() as int),
        p_rec_funs(cs, funs, pos, fuel) matches Ok((_, q)) ==> q >= pos,
    decreases fuel, 0nat,
{
    if fuel > 0 {
        let f1 = (fuel - 1) as nat;
        lemma_scan_shift(w, cs, pos);
        if let Some((Token::Keyword(Keyword::And), l)) = scan(cs, pos) {
            lemma_runs_shift(w, cs, pos + l);
            let p0 = ws_end(cs, pos + l);
            lemma_fun_kw_shift(w, cs, p0, f1);
            if let Ok((f, p1)) = p_fun_kw(cs, p0, f1) {
                lemma_rec_funs_shift(w, cs, funs.push(f), p1, f1);
            }
        }
    }
}

#[verifier::rlimit(100)]
proof fn lemma_let_shift(w: Seq<char>, cs: Seq<char>, pos: int, fuel: nat)
    requires
        pos >= 0,
        fits(w, cs),
    ensures
        p_let(w + cs, pos + w.len(), fuel) == moved_by(p_let(cs, pos, fuel), w.len() as int),
        p_let(cs, pos, fuel) matches Ok((_, q)) ==> q >= pos,
    decreases fuel, 0nat,
{
    lemma_scan_shift(w, cs, pos);
    if fuel > 0 {
        let f1 = (fuel - 1) as nat;
        let k = w.len() as int;
        match scan(cs, pos) {
            Some((Token::Keyword(Keyword::Rec), l)) => {
                lemma_runs_shift(w, cs, pos + l);
                let p0 = ws_end(cs, pos + l);
                assert(p_let(cs, pos, fuel) == let_rec_rest(cs, p0, f1));
                assert(p_let(w + cs, pos + k, fuel) == let_rec_rest(w + cs, p0 + k, f1));
                lemma_let_rec_rest_shift(w, cs, p0, f1);
            },
            Some(_) => {
                assert(p_let(cs, pos, fuel) == let_fun_rest(cs, pos, f1));
                assert(p_let(w + cs, pos + k, fuel) == let_fun_rest(w + cs, pos + k, f1));
                lemma_let_fun_rest_shift(w, cs, pos, f1);
            },
            None => {},
        }
    }
}

/// What `let rec` goes on with after `rec`: the functions, `in`, the body.
spec fn let_rec_rest(cs: Seq<char>, p0: int, f1: nat) -> PR<SExpr> {
    match p_fun_kw(cs, p0, f1) {
        Err(f) => Err(f),
        Ok((first, p1)) => match p_rec_funs(cs, seq![first], p1, f1) {
            Err(f) => Err(f),
            Ok((funs, p2)) => match p_expect(cs, p2, Token::Keyword(Keyword::In), "Expected `in`"@) {
                Err(f) => Err(f),
                Ok((_, p3)) => match p_expr(cs, p3, crate::syntax::grammar::max_precedence(), f1) {
                    Err(f) => Err(f),
                    Ok((body, p4)) => Ok((SExpr::LetRec(funs, Box::new(body)), p4)),
                },
            },
        },
    }
}

/// What `let fun` goes on with: the function, `in`, the body.
spec fn let_fun_rest(cs: Seq<char>, pos: int, f1: nat) -> PR<SExpr> {
    match p_fun_kw(cs, pos, f1) {
        Err(f) => Err(f),
        Ok((fun, p1)) => match p_expect(cs, p1, Token::Keyword(Keyword::In), "Expected `in`"@) {
            Err(f) => Err(f),
            Ok((_, p2)) => match p_expr(cs, p2, crate::syntax::grammar::max_precedence(), f1) {
                Err(f) => Err(f),
                Ok((body, p3)) => Ok((SExpr::LetFun(Box::new(fun), Box::new(body)), p3)),
            },
        },
    }
}

proof fn lemma_let_rec_rest_shift(w: Seq<char>, cs: Seq<char>, p0: int, f1: nat)
    requires
        p0 >= 0,
        fits(w, cs),
    ensures
        let_rec_rest(w + cs, p0 + w.len(), f1) == moved_by(let_rec_rest(cs, p0, f1), w.len() as int),
        let_rec_rest(cs, p0, f1) matches Ok((_, q)) ==> q >= p0,
    decreases f1, 1nat,
{
    let mp = crate::syntax::grammar::max_precedence();
    let kin = Token::Keyword(Keyword::In);
    lemma_fun_kw_shift(w, cs, p0, f1);
    if let Ok((first, p1)) = p_fun_kw(cs, p0, f1) {
        lemma_rec_funs_shift(w, cs, seq![first], p1, f1);
        if let Ok((funs, p2)) = p_rec_funs(cs, seq![first], p1, f1) {
            lemma_expect_shift(w, cs, p2, kin, "Expected `in`"@);
            if let Ok((_, p3)) = p_expect(cs, p2, kin, "Expected `in`"@) {
                lemma_expr_shift(w, cs, p3, mp, f1);
            }
        }
    }
}

proof fn lemma_let_fun_rest_shift(w: Seq<char>, cs: Seq<char>, pos: int, f1: nat)
    requires
        pos >= 0,
        fits(w, cs),
    ensures
        let_fun_rest(w + cs, pos + w.len(), f1) == moved_by(let_fun_rest(cs, pos, f1), w.len() as int),
        let_fun_rest(cs, pos, f1) matches Ok((_, q)) ==> q >= pos,
    decreases f1, 1nat,
{
    let mp = crate::syntax::grammar::max_precedence();
    let kin = Token::Keyword(Keyword::In);
    lemma_fun_kw_shift(w, cs, pos, f1);
    if let Ok((fun, p1)) = p_fun_kw(cs, pos, f1) {
        lemma_expect_shift(w, cs, p1, kin, "Expected `in`"@);
        if let Ok((_, p2)) = p_expect(cs, p1, kin, "Expected `in`"@) {
            lemma_expr_shift(w, cs, p2, mp, f1);
        }
    }
}

/// Over white space, the run of white space ends where it ends after it.
proof fn lemma_ws_prefix(w: Seq<char>, cs: Seq<char>, i: int)
    requires
        0 <= i <= w.len(),
        forall|j: int| 0 <= j < w.len() ==> whitespace(#[trigger] w[j]),
    ensures
        ws_end(w + cs, i) == ws_end(w + cs, w.len() as int),
    decreases w.len() - i,
{
    if i < w.len() {
        assert((w + cs)[i] == w[i]);
        lemma_ws_prefix(w, cs, i + 1);
    }
}

/// White space in front of a text does not change what the text parses
/// to: the same expression, or the same syntax error at a place moved by the
/// length of the white space.
pub proof fn law_leading_white_space(w: Seq<char>, cs: Seq<char>)
    requires
        forall|i: int| 0 <= i < w.len() ==> whitespace(#[trigger] w[i]),
        fits(w, cs),
    ensures
        spec_parse(w + cs) == parse_moved_by(spec_parse(cs), w.len() as int),
{
    let k = w.len() as int;
    lemma_ws_prefix(w, cs, 0);
    lemma_runs_shift(w, cs, 0);
    let p0 = ws_end(cs, 0);
    assert(ws_end(w + cs, 0) == p0 + k);
    assert(budget(w + cs, p0 + k) == budget(cs, p0));
    let mp = crate::syntax::grammar::max_precedence();
    let fuel = budget(cs, p0) + 16;
    lemma_expr_shift(w, cs, p0, mp, fuel);
    if let Ok((e, p1)) = p_expr(cs, p0, mp, fuel) {
        lemma_scan_shift(w, cs, p1);
    }
}

} // verus!
