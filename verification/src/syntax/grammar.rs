//! The concrete syntax: the tokens of the language and its grammar, as
//! functions from the characters of the source.
//!
//! Tokens: numbers (decimal digits), words (letters) that are
//! the booleans `true` and `false`, keywords, or identifiers, parentheses,
//! and the symbols `-> == < > + - * / :`. White space separates tokens.
//!
//! Grammar, from the loosest binding to the tightest:
//! - comparisons `== < >`, of which one expression holds at most one at its
//!   own level; then `+ -`; then `* /`, all left-associative;
//! - application, by juxtaposition, left-associative;
//! - atoms: numbers, booleans, identifiers, `( expr )`,
//!   `if e then e else e`, `fun f(x: t): t is e`,
//!   `let fun ... in e`, `let rec fun ... and fun ... in e`;
//! - types: `int`, `bool`, `( t )`, and `t -> t`, right-associative.
//!
//! The whole input must be one expression.
use vstd::prelude::*;
use crate::syntax::exprs::{ArithOp, CmpOp, Expr, Fun, Literal};
use crate::syntax::types::Type;

verus! {

/// Whether `char::is_alphabetic` holds of `c`, a character beyond ASCII:
/// `c` has the Unicode `Alphabetic` property.
pub uninterp spec fn alphabetic(c: char) -> bool;

/// Whether `c` is one of the ASCII letters `a` to `z` and `A` to `Z`.
pub open spec fn ascii_letter(c: char) -> bool {
    ('a' <= c && c <= 'z') || ('A' <= c && c <= 'Z')
}

/// Whether `c` is a letter: among the ASCII characters the letters `a` to
/// `z` and `A` to `Z`, beyond them the characters with the `Alphabetic`
/// property.
pub open spec fn is_letter(c: char) -> bool {
    if (c as u32) < 0x80 {
        ascii_letter(c)
    } else {
        alphabetic(c)
    }
}

/// Whether `c` is white space: it has the Unicode `White_Space` property.
/// These are the tab, line feed, line tabulation, form feed, carriage
/// return, space, next line and no-break space characters, U+1680, U+2000
/// to U+200A, U+2028, U+2029, U+202F, U+205F and U+3000.
pub open spec fn whitespace(c: char) -> bool {
    let u = c as u32;
    ||| 0x09 <= u <= 0x0D
    ||| u == 0x20
    ||| u == 0x85
    ||| u == 0xA0
    ||| u == 0x1680
    ||| 0x2000 <= u <= 0x200A
    ||| u == 0x2028
    ||| u == 0x2029
    ||| u == 0x202F
    ||| u == 0x205F
    ||| u == 0x3000
}

/// Calls `char::is_alphabetic`. The result is claimed to be, for an ASCII
/// character, whether it is one of the letters `a` to `z` and `A` to `Z`, as
/// the documentation of the `Alphabetic` property gives it; beyond ASCII,
/// `alphabetic(c)`, a function of `c` alone.
#[verifier::external_body]
pub(crate) fn is_alphabetic(c: char) -> (b: bool)
    ensures
        b == (if (c as u32) < 0x80 { ascii_letter(c) } else { alphabetic(c) }),
{
    c.is_alphabetic()
}

/// Whether `c` is white space.
pub(crate) fn is_whitespace(c: char) -> (b: bool)
    ensures
        b == whitespace(c),
{
    let u = c as u32;
    (0x09 <= u && u <= 0x0D) || u == 0x20 || u == 0x85 || u == 0xA0 || u == 0x1680 || (0x2000 <= u && u
        <= 0x200A) || u == 0x2028 || u == 0x2029 || u == 0x202F || u == 0x205F || u == 0x3000
}

pub open spec fn is_digit(c: char) -> bool {
    '0' <= c && c <= '9'
}

// ---------------------------------------------------------------------------
// An expression as the grammar sees it: identifiers are their characters.

pub enum SExpr {
    Var(Seq<char>),
    Lit(Literal),
    Arith(ArithOp, Box<SExpr>, Box<SExpr>),
    Cmp(CmpOp, Box<SExpr>, Box<SExpr>),
    If(Box<SExpr>, Box<SExpr>, Box<SExpr>),
    Fun(Box<SFun>),
    LetFun(Box<SFun>, Box<SExpr>),
    LetRec(Seq<SFun>, Box<SExpr>),
    Apply(Box<SExpr>, Box<SExpr>),
}

pub struct SFun {
    pub name: Seq<char>,
    pub arg: Seq<char>,
    pub arg_type: Type,
    pub fun_type: Type,
    pub body: SExpr,
}

/// An expression with its identifiers taken by their characters.
pub open spec fn expr_view(e: Expr) -> SExpr
    decreases e, 0nat,
{
    match e {
        Expr::Var(v) => SExpr::Var(v@),
        Expr::Literal(l) => SExpr::Lit(l),
        Expr::ArithBinOp(b) => SExpr::Arith(b.kind, Box::new(expr_view(b.lhs)), Box::new(expr_view(b.rhs))),
        Expr::CmpBinOp(b) => SExpr::Cmp(b.kind, Box::new(expr_view(b.lhs)), Box::new(expr_view(b.rhs))),
        Expr::If(i) => SExpr::If(Box::new(expr_view(i.cond)), Box::new(expr_view(i.tru)), Box::new(expr_view(i.fls))),
        Expr::Fun(f) => SExpr::Fun(Box::new(fun_view(f.fun_name@, f.arg_name@, f.arg_type, f.fun_type, f.body))),
        Expr::LetFun(l) => SExpr::LetFun(
            Box::new(fun_view(l.fun.fun_name@, l.fun.arg_name@, l.fun.arg_type, l.fun.fun_type, l.fun.body)),
            Box::new(expr_view(l.body)),
        ),
        Expr::LetRec(l) => SExpr::LetRec(funs_view(l.funs@, l.funs@.len() as int), Box::new(expr_view(l.body))),
        Expr::Apply(a) => SExpr::Apply(Box::new(expr_view(a.fun)), Box::new(expr_view(a.arg))),
    }
}

pub open spec fn fun_view(name: Seq<char>, arg: Seq<char>, arg_type: Type, fun_type: Type, body: Expr) -> SFun
    decreases body, 1nat,
{
    SFun { name, arg, arg_type, fun_type, body: expr_view(body) }
}

pub open spec fn funs_view(funs: Seq<Fun>, n: int) -> Seq<SFun>
    decreases funs, n,
{
    if n <= 0 || n > funs.len() {
        Seq::empty()
    } else {
        let f = funs[n - 1];
        funs_view(funs, n - 1).push(fun_view(f.fun_name@, f.arg_name@, f.arg_type, f.fun_type, f.body))
    }
}

// ---------------------------------------------------------------------------
// Tokens

#[derive(Clone, Copy, PartialEq, Eq, Structural, Debug)]
pub enum Paren {
    Open,
    Close,
}

#[derive(Clone, Copy, PartialEq, Eq, Structural, Debug)]
pub enum Sym {
    Eq,
    Lt,
    Gt,
    Add,
    Sub,
    Mul,
    Div,
    Colon,
    Arrow,
}

#[derive(Clone, Copy, PartialEq, Eq, Structural, Debug)]
pub enum Keyword {
    If,
    Then,
    Else,
    Fun,
    Is,
    Let,
    Rec,
    And,
    In,
}

/// A token; an identifier is given by where it starts and ends.
#[derive(Clone, Copy, PartialEq, Eq, Structural, Debug)]
pub enum Token {
    Eof,
    Unknown,
    Number(i64),
    Bool(bool),
    Ident(usize, usize),
    Paren(Paren),
    Sym(Sym),
    Keyword(Keyword),
}

/// Where the run of letters from `i` ends.
pub open spec fn alpha_end(cs: Seq<char>, i: int) -> int
    decreases cs.len() - i,
{
    if 0 <= i < cs.len() && is_letter(cs[i]) {
        alpha_end(cs, i + 1)
    } else {
        i
    }
}

/// Where the run of decimal digits from `i` ends.
pub open spec fn digit_end(cs: Seq<char>, i: int) -> int
    decreases cs.len() - i,
{
    if 0 <= i < cs.len() && is_digit(cs[i]) {
        digit_end(cs, i + 1)
    } else {
        i
    }
}

/// Where the run of white space from `i` ends.
pub open spec fn ws_end(cs: Seq<char>, i: int) -> int
    decreases cs.len() - i,
{
    if 0 <= i < cs.len() && whitespace(cs[i]) {
        ws_end(cs, i + 1)
    } else {
        i
    }
}

pub open spec fn digit_value(c: char) -> int {
    (c as int) - ('0' as int)
}

/// The number written by the digits from `from` to `to`.
pub open spec fn digits_value(cs: Seq<char>, from: int, to: int) -> int
    decreases to - from,
{
    if to <= from {
        0
    } else {
        digits_value(cs, from, to - 1) * 10 + digit_value(cs[to - 1])
    }
}

pub open spec fn keyword_of(w: Seq<char>) -> Option<Keyword> {
    if w == "if"@ {
        Some(Keyword::If)
    } else if w == "then"@ {
        Some(Keyword::Then)
    } else if w == "else"@ {
        Some(Keyword::Else)
    } else if w == "fun"@ {
        Some(Keyword::Fun)
    } else if w == "is"@ {
        Some(Keyword::Is)
    } else if w == "let"@ {
        Some(Keyword::Let)
    } else if w == "rec"@ {
        Some(Keyword::Rec)
    } else if w == "and"@ {
        Some(Keyword::And)
    } else if w == "in"@ {
        Some(Keyword::In)
    } else {
        None
    }
}

/// The token that a word is.
pub open spec fn word_token(cs: Seq<char>, from: int, to: int) -> Token {
    let w = cs.subrange(from, to);
    if w == "true"@ {
        Token::Bool(true)
    } else if w == "false"@ {
        Token::Bool(false)
    } else {
        match keyword_of(w) {
            Some(k) => Token::Keyword(k),
            None => Token::Ident(from as usize, to as usize),
        }
    }
}

/// The symbol at `i`, and its length.
pub open spec fn sym_at(cs: Seq<char>, i: int) -> Option<(Sym, int)> {
    let c = cs[i];
    let two = i + 1 < cs.len();
    if two && c == '-' && cs[i + 1] == '>' {
        Some((Sym::Arrow, 2))
    } else if two && c == '=' && cs[i + 1] == '=' {
        Some((Sym::Eq, 2))
    } else if c == '<' {
        Some((Sym::Lt, 1))
    } else if c == '>' {
        Some((Sym::Gt, 1))
    } else if c == '+' {
        Some((Sym::Add, 1))
    } else if c == '-' {
        Some((Sym::Sub, 1))
    } else if c == '*' {
        Some((Sym::Mul, 1))
    } else if c == '/' {
        Some((Sym::Div, 1))
    } else if c == ':' {
        Some((Sym::Colon, 1))
    } else {
        None
    }
}

/// The token at `pos` and its length; `None` where it is a number too large
/// for 64 bits.
pub open spec fn scan(cs: Seq<char>, pos: int) -> Option<(Token, int)> {
    if pos < 0 || pos >= cs.len() {
        Some((Token::Eof, 0))
    } else if is_digit(cs[pos]) {
        let e = digit_end(cs, pos);
        let v = digits_value(cs, pos, e);
        if v > i64::MAX {
            None
        } else {
            Some((Token::Number(v as i64), e - pos))
        }
    } else if is_letter(cs[pos]) {
        let e = alpha_end(cs, pos);
        Some((word_token(cs, pos, e), e - pos))
    } else if cs[pos] == '(' {
        Some((Token::Paren(Paren::Open), 1))
    } else if cs[pos] == ')' {
        Some((Token::Paren(Paren::Close), 1))
    } else {
        match sym_at(cs, pos) {
            Some((s, l)) => Some((Token::Sym(s), l)),
            None => Some((Token::Unknown, 0)),
        }
    }
}

// ---------------------------------------------------------------------------
// The grammar

/// Why parsing fails: an error at a position with a message; a number too
/// large for 64 bits; or too small a budget of steps for the input.
pub enum SFail {
    Error(int, Seq<char>),
    NumberTooLarge,
    NoFuel,
}

pub type PR<T> = Result<(T, int), SFail>;

/// The token at `pos`, and the position after it and the white space after it.
pub open spec fn eat(cs: Seq<char>, pos: int) -> Option<(Token, int)> {
    match scan(cs, pos) {
        None => None,
        Some((t, l)) => Some((t, ws_end(cs, pos + l))),
    }
}

pub open spec fn precedence(s: Sym) -> int {
    match s {
        Sym::Eq | Sym::Lt | Sym::Gt => 3,
        Sym::Add | Sym::Sub => 2,
        Sym::Mul | Sym::Div => 1,
        _ => 255,
    }
}

pub open spec fn max_precedence() -> int {
    255
}

/// The token `t`, or an error with `msg`.
pub open spec fn p_expect(cs: Seq<char>, pos: int, t: Token, msg: Seq<char>) -> PR<()> {
    match eat(cs, pos) {
        None => Err(SFail::NumberTooLarge),
        Some((u, p1)) => if u == t { Ok(((), p1)) } else { Err(SFail::Error(p1, msg)) },
    }
}

/// An identifier.
pub open spec fn p_ident(cs: Seq<char>, pos: int) -> PR<Seq<char>> {
    match eat(cs, pos) {
        None => Err(SFail::NumberTooLarge),
        Some((Token::Ident(s, e), p1)) => Ok((cs.subrange(s as int, e as int), p1)),
        Some((_, p1)) => Err(SFail::Error(p1, "Expected identifier"@)),
    }
}

/// A type.
pub open spec fn p_type(cs: Seq<char>, pos: int, fuel: nat) -> PR<Type>
    decreases fuel,
{
    if fuel == 0 {
        Err(SFail::NoFuel)
    } else {
        match p_atom_type(cs, pos, (fuel - 1) as nat) {
            Err(f) => Err(f),
            Ok((t, p1)) => match eat(cs, p1) {
                None => Err(SFail::NumberTooLarge),
                Some((Token::Sym(Sym::Arrow), p2)) => match p_type(cs, p2, (fuel - 1) as nat) {
                    Err(f) => Err(f),
                    Ok((r, p3)) => Ok((Type::Arrow(Box::new(t), Box::new(r)), p3)),
                },
                Some(_) => Ok((t, p1)),
            },
        }
    }
}

/// `int`, `bool` or a parenthesized type.
pub open spec fn p_atom_type(cs: Seq<char>, pos: int, fuel: nat) -> PR<Type>
    decreases fuel,
{
    if fuel == 0 {
        Err(SFail::NoFuel)
    } else {
        match eat(cs, pos) {
            None => Err(SFail::NumberTooLarge),
            Some((Token::Ident(s, e), p1)) => {
                let w = cs.subrange(s as int, e as int);
                if w == "int"@ {
                    Ok((Type::Int, p1))
                } else if w == "bool"@ {
                    Ok((Type::Bool, p1))
                } else {
                    Err(SFail::Error(p1, "Expected type"@))
                }
            },
            Some((Token::Paren(Paren::Open), p1)) => match p_type(cs, p1, (fuel - 1) as nat) {
                Err(f) => Err(f),
                Ok((t, p2)) => match p_expect(cs, p2, Token::Paren(Paren::Close), "Expected `)`"@) {
                    Err(f) => Err(f),
                    Ok((_, p3)) => Ok((t, p3)),
                },
            },
            Some((_, p1)) => Err(SFail::Error(p1, "Expected type"@)),
        }
    }
}

/// An expression whose operators bind tighter than `prec`.
pub open spec fn p_expr(cs: Seq<char>, pos: int, prec: int, fuel: nat) -> PR<SExpr>
    decreases fuel,
{
    if fuel == 0 {
        Err(SFail::NoFuel)
    } else {
        match p_application(cs, pos, (fuel - 1) as nat) {
            Err(f) => Err(f),
            Ok((lhs, p1)) => p_expr_loop(cs, lhs, p1, prec, false, (fuel - 1) as nat),
        }
    }
}

pub open spec fn is_comparison(s: Sym) -> bool {
    s == Sym::Eq || s == Sym::Lt || s == Sym::Gt
}

pub open spec fn comparison_of(s: Sym) -> CmpOp {
    if s == Sym::Eq { CmpOp::Eq } else if s == Sym::Lt { CmpOp::Lt } else { CmpOp::Gt }
}

pub open spec fn arith_of(s: Sym) -> ArithOp {
    if s == Sym::Add { ArithOp::Add } else if s == Sym::Sub { ArithOp::Sub } else if s == Sym::Mul { ArithOp::Mul } else { ArithOp::Div }
}

/// The operators after `lhs` that bind tighter than `prec`, with their
/// right operands.
pub open spec fn p_expr_loop(cs: Seq<char>, lhs: SExpr, pos: int, prec: int, has_comparison: bool, fuel: nat) -> PR<SExpr>
    decreases fuel,
{
    if fuel == 0 {
        Err(SFail::NoFuel)
    } else {
        match scan(cs, pos) {
            None => Err(SFail::NumberTooLarge),
            Some((Token::Sym(op), l)) => {
                if precedence(op) < prec {
                    let p1 = ws_end(cs, pos + l);
                    match p_expr(cs, p1, precedence(op), (fuel - 1) as nat) {
                        Err(f) => Err(f),
                        Ok((rhs, p2)) => {
                            if is_comparison(op) {
                                if has_comparison {
                                    Err(SFail::Error(p2, "Chained comparisons are not allowed"@))
                                } else {
                                    p_expr_loop(cs, SExpr::Cmp(comparison_of(op), Box::new(lhs), Box::new(rhs)), p2, prec, true, (fuel - 1) as nat)
                                }
                            } else {
                                p_expr_loop(cs, SExpr::Arith(arith_of(op), Box::new(lhs), Box::new(rhs)), p2, prec, has_comparison, (fuel - 1) as nat)
                            }
                        },
                    }
                } else {
                    Ok((lhs, pos))
                }
            },
            Some(_) => Ok((lhs, pos)),
        }
    }
}

/// One or more atoms, applied from left to right.
pub open spec fn p_application(cs: Seq<char>, pos: int, fuel: nat) -> PR<SExpr>
    decreases fuel,
{
    if fuel == 0 {
        Err(SFail::NoFuel)
    } else {
        match p_atom(cs, pos, (fuel - 1) as nat) {
            Err(f) => Err(f),
            Ok((None, p1)) => Err(SFail::Error(p1, "Expected expression"@)),
            Ok((Some(fun), p1)) => p_app_loop(cs, fun, p1, (fuel - 1) as nat),
        }
    }
}

pub open spec fn p_app_loop(cs: Seq<char>, fun: SExpr, pos: int, fuel: nat) -> PR<SExpr>
    decreases fuel,
{
    if fuel == 0 {
        Err(SFail::NoFuel)
    } else {
        match p_atom(cs, pos, (fuel - 1) as nat) {
            Err(f) => Err(f),
            Ok((None, p1)) => Ok((fun, p1)),
            Ok((Some(arg), p1)) => p_app_loop(cs, SExpr::Apply(Box::new(fun), Box::new(arg)), p1, (fuel - 1) as nat),
        }
    }
}

/// An atom, or nothing where the next token cannot start one.
pub open spec fn p_atom(cs: Seq<char>, pos: int, fuel: nat) -> PR<Option<SExpr>>
    decreases fuel,
{
    if fuel == 0 {
        Err(SFail::NoFuel)
    } else {
        match scan(cs, pos) {
            None => Err(SFail::NumberTooLarge),
            Some((t, l)) => {
                let p1 = ws_end(cs, pos + l);
                match t {
                    Token::Eof => Ok((None, pos)),
                    Token::Paren(Paren::Close) => Ok((None, pos)),
                    Token::Sym(_) => Ok((None, pos)),
                    Token::Number(n) => Ok((Some(SExpr::Lit(Literal::Number(n))), p1)),
                    Token::Bool(b) => Ok((Some(SExpr::Lit(Literal::Bool(b))), p1)),
                    Token::Ident(s, e) => Ok((Some(SExpr::Var(cs.subrange(s as int, e as int))), p1)),
                    Token::Paren(Paren::Open) => match p_expr(cs, p1, max_precedence(), (fuel - 1) as nat) {
                        Err(f) => Err(f),
                        Ok((e, p2)) => match p_expect(cs, p2, Token::Paren(Paren::Close), "Expected `)`"@) {
                            Err(f) => Err(f),
                            Ok((_, p3)) => Ok((Some(e), p3)),
                        },
                    },
                    Token::Keyword(Keyword::If) => match p_if(cs, p1, (fuel - 1) as nat) {
                        Err(f) => Err(f),
                        Ok((e, p2)) => Ok((Some(e), p2)),
                    },
                    Token::Keyword(Keyword::Fun) => match p_fun(cs, p1, (fuel - 1) as nat) {
                        Err(f) => Err(f),
                        Ok((f, p2)) => Ok((Some(SExpr::Fun(Box::new(f))), p2)),
                    },
                    Token::Keyword(Keyword::Let) => match p_let(cs, p1, (fuel - 1) as nat) {
                        Err(f) => Err(f),
                        Ok((e, p2)) => Ok((Some(e), p2)),
                    },
                    Token::Keyword(_) => Ok((None, pos)),
                    Token::Unknown => Err(SFail::Error(pos, "Unknown token"@)),
                }
            },
        }
    }
}

/// `cond then tru else fls`, after `if`.
pub open spec fn p_if(cs: Seq<char>, pos: int, fuel: nat) -> PR<SExpr>
    decreases fuel,
{
    if fuel == 0 {
        Err(SFail::NoFuel)
    } else {
        let f1 = (fuel - 1) as nat;
        match p_expr(cs, pos, max_precedence(), f1) {
            Err(f) => Err(f),
            Ok((c, p1)) => match p_expect(cs, p1, Token::Keyword(Keyword::Then), "Expected `then`"@) {
                Err(f) => Err(f),
                Ok((_, p2)) => match p_expr(cs, p2, max_precedence(), f1) {
                    Err(f) => Err(f),
                    Ok((t, p3)) => match p_expect(cs, p3, Token::Keyword(Keyword::Else), "Expected `else`"@) {
                        Err(f) => Err(f),
                        Ok((_, p4)) => match p_expr(cs, p4, max_precedence(), f1) {
                            Err(f) => Err(f),
                            Ok((e, p5)) => Ok((SExpr::If(Box::new(c), Box::new(t), Box::new(e)), p5)),
                        },
                    },
                },
            },
        }
    }
}

/// `name(arg: type): type is body`, after `fun`.
pub open spec fn p_fun(cs: Seq<char>, pos: int, fuel: nat) -> PR<SFun>
    decreases fuel,
{
    if fuel == 0 {
        Err(SFail::NoFuel)
    } else {
        let f1 = (fuel - 1) as nat;
        match p_ident(cs, pos) {
            Err(f) => Err(f),
            Ok((name, p1)) => match p_expect(cs, p1, Token::Paren(Paren::Open), "Expected `(`"@) {
                Err(f) => Err(f),
                Ok((_, p2)) => match p_ident(cs, p2) {
                    Err(f) => Err(f),
                    Ok((arg, p3)) => match p_expect(cs, p3, Token::Sym(Sym::Colon), "Expected `:`"@) {
                        Err(f) => Err(f),
                        Ok((_, p4)) => match p_type(cs, p4, f1) {
                            Err(f) => Err(f),
                            Ok((arg_type, p5)) => match p_expect(cs, p5, Token::Paren(Paren::Close), "Expected `)`"@) {
                                Err(f) => Err(f),
                                Ok((_, p6)) => match p_expect(cs, p6, Token::Sym(Sym::Colon), "Expected `:`"@) {
                                    Err(f) => Err(f),
                                    Ok((_, p7)) => match p_type(cs, p7, f1) {
                                        Err(f) => Err(f),
                                        Ok((fun_type, p8)) => match p_expect(
                                            cs,
                                            p8,
                                            Token::Keyword(Keyword::Is),
                                            "Expected `is` before function body"@,
                                        ) {
                                            Err(f) => Err(f),
                                            Ok((_, p9)) => match p_expr(cs, p9, max_precedence(), f1) {
                                                Err(f) => Err(f),
                                                Ok((body, p10)) => Ok((SFun { name, arg, arg_type, fun_type, body }, p10)),
                                            },
                                        },
                                    },
                                },
                            },
                        },
                    },
                },
            },
        }
    }
}

/// `fun ...` after `fun` has been expected.
pub open spec fn p_fun_kw(cs: Seq<char>, pos: int, fuel: nat) -> PR<SFun>
    decreases fuel,
{
    if fuel == 0 {
        Err(SFail::NoFuel)
    } else {
        match p_expect(cs, pos, Token::Keyword(Keyword::Fun), "Expected `fun`"@) {
            Err(f) => Err(f),
            Ok((_, p1)) => p_fun(cs, p1, (fuel - 1) as nat),
        }
    }
}

/// More `and fun ...` after the functions `funs` of a `let rec`.
pub open spec fn p_rec_funs(cs: Seq<char>, funs: Seq<SFun>, pos: int, fuel: nat) -> PR<Seq<SFun>>
    decreases fuel,
{
    if fuel == 0 {
        Err(SFail::NoFuel)
    } else {
        match scan(cs, pos) {
            None => Err(SFail::NumberTooLarge),
            Some((Token::Keyword(Keyword::And), l)) => match p_fun_kw(cs, ws_end(cs, pos + l), (fuel - 1) as nat) {
                Err(f) => Err(f),
                Ok((f, p1)) => p_rec_funs(cs, funs.push(f), p1, (fuel - 1) as nat),
            },
            Some(_) => Ok((funs, pos)),
        }
    }
}

/// `fun ... in body` or `rec fun ... and fun ... in body`, after `let`.
pub open spec fn p_let(cs: Seq<char>, pos: int, fuel: nat) -> PR<SExpr>
    decreases fuel,
{
    if fuel == 0 {
        Err(SFail::NoFuel)
    } else {
        let f1 = (fuel - 1) as nat;
        match scan(cs, pos) {
            None => Err(SFail::NumberTooLarge),
            Some((Token::Keyword(Keyword::Rec), l)) => match p_fun_kw(cs, ws_end(cs, pos + l), f1) {
                Err(f) => Err(f),
                Ok((first, p1)) => match p_rec_funs(cs, seq![first], p1, f1) {
                    Err(f) => Err(f),
                    Ok((funs, p2)) => match p_expect(cs, p2, Token::Keyword(Keyword::In), "Expected `in`"@) {
                        Err(f) => Err(f),
                        Ok((_, p3)) => match p_expr(cs, p3, max_precedence(), f1) {
                            Err(f) => Err(f),
                            Ok((body, p4)) => Ok((SExpr::LetRec(funs, Box::new(body)), p4)),
                        },
                    },
                },
            },
            Some(_) => match p_fun_kw(cs, pos, f1) {
                Err(f) => Err(f),
                Ok((fun, p1)) => match p_expect(cs, p1, Token::Keyword(Keyword::In), "Expected `in`"@) {
                    Err(f) => Err(f),
                    Ok((_, p2)) => match p_expr(cs, p2, max_precedence(), f1) {
                        Err(f) => Err(f),
                        Ok((body, p3)) => Ok((SExpr::LetFun(Box::new(fun), Box::new(body)), p3)),
                    },
                },
            },
        }
    }
}

/// The budget of steps that the parser needs from `pos` on.
pub open spec fn budget(cs: Seq<char>, pos: int) -> nat {
    (16 * (cs.len() + 1 - pos)) as nat
}

/// The expression that the whole of `cs` is, after leading white space.
pub open spec fn spec_parse(cs: Seq<char>) -> Result<SExpr, SFail> {
    let p0 = ws_end(cs, 0);
    match p_expr(cs, p0, max_precedence(), budget(cs, p0) + 16) {
        Err(f) => Err(f),
        Ok((e, p1)) => match scan(cs, p1) {
            None => Err(SFail::NumberTooLarge),
            Some((Token::Eof, _)) => Ok(e),
            Some(_) => Err(SFail::Error(p1, "Expected end of input"@)),
        },
    }
}

/// The type that the whole of `cs` is, after leading white space.
pub open spec fn spec_parse_type(cs: Seq<char>) -> Result<Type, SFail> {
    let p0 = ws_end(cs, 0);
    match p_type(cs, p0, budget(cs, p0) + 16) {
        Err(f) => Err(f),
        Ok((t, p1)) => match scan(cs, p1) {
            None => Err(SFail::NumberTooLarge),
            Some((Token::Eof, _)) => Ok(t),
            Some(_) => Err(SFail::Error(p1, "Expected end of input"@)),
        },
    }
}

} // verus!
