//! The parser: a tokenizer over the characters of the source and a
//! recursive-descent parser that follows the grammar.
use vstd::prelude::*;
use crate::syntax::exprs::{ArithOp, BinOp, CmpOp, Expr, Fun, LetRec, Literal, ident_count, funs_ident_count};
use crate::syntax::grammar::{
    Keyword, PR, Paren, SExpr, SFail, SFun, Sym, Token, alpha_end, is_letter, arith_of, budget,
    comparison_of, digit_end, digit_value, digits_value, eat, expr_view, fun_view, funs_view, is_alphabetic,
    is_comparison, is_digit, is_whitespace, keyword_of, p_app_loop, p_application, p_atom,
    p_atom_type, p_expect, p_expr, p_expr_loop, p_fun, p_fun_kw, p_ident, p_if, p_let, p_rec_funs, p_type,
    precedence, scan, spec_parse, spec_parse_type, sym_at, word_token, ws_end,
};
use crate::syntax::ident::Ident;
use crate::syntax::parser_util::{application, arith_op, fun, if_expr, let_fun_expr};
use crate::syntax::types::Type;
use vstd::utf8::{encode_scalar, encode_utf8};

verus! {

/// A syntax error: where the parser stopped, in bytes from the start of the
/// input, and what it expected there.
#[derive(Debug)]
pub struct ParseError {
    location: usize,
    message: String,
}

impl ParseError {
    pub fn new(location: usize, message: String) -> (e: ParseError)
        ensures
            e.spec_location() == location,
            e.spec_message() == message@,
    {
        ParseError { location, message }
    }

    pub closed spec fn spec_location(&self) -> usize {
        self.location
    }

    pub closed spec fn spec_message(&self) -> Seq<char> {
        self.message@
    }

    /// Where the parser stopped.
    pub fn location(&self) -> (l: usize)
        ensures
            l == self.spec_location(),
    {
        self.location
    }

    /// What the parser expected.
    pub fn message(&self) -> (m: &String)
        ensures
            m@ == self.spec_message(),
    {
        &self.message
    }

    /// The same error, at `location`.
    fn at(self, location: usize) -> (e: ParseError)
        ensures
            e.spec_location() == location,
            e.spec_message() == self.spec_message(),
    {
        ParseError { location, message: self.message }
    }
}

/// Why parsing stops: a syntax error, or a number too large for 64 bits.
pub enum Failure {
    Error(ParseError),
    NumberTooLarge,
}

pub open spec fn fail_view(f: Failure) -> SFail {
    match f {
        Failure::Error(e) => SFail::Error(e.spec_location() as int, e.spec_message()),
        Failure::NumberTooLarge => SFail::NumberTooLarge,
    }
}

// ---------------------------------------------------------------------------
// Facts about the lexical functions

pub proof fn lemma_run_ends(cs: Seq<char>, i: int)
    requires
        0 <= i <= cs.len(),
    ensures
        i <= alpha_end(cs, i) <= cs.len(),
        i <= digit_end(cs, i) <= cs.len(),
        i <= ws_end(cs, i) <= cs.len(),
        forall|j: int| i <= j < digit_end(cs, i) ==> is_digit(#[trigger] cs[j]),
    decreases cs.len() - i,
{
    if i < cs.len() {
        lemma_run_ends(cs, i + 1);
    }
}

pub proof fn lemma_scan(cs: Seq<char>, pos: int)
    requires
        0 <= pos <= cs.len() <= usize::MAX,
    ensures
        scan(cs, pos) matches Some((t, l)) ==> {
            &&& 0 <= l
            &&& pos + l <= cs.len()
            &&& (t is Eof || t is Unknown) == (l == 0)
            &&& t matches Token::Ident(s, e) ==> s == pos && e == pos + l
        },
{
    lemma_run_ends(cs, pos);
    if pos < cs.len() {
        lemma_run_ends(cs, pos + 1);
        if is_digit(cs[pos]) {
            assert(digit_end(cs, pos) == digit_end(cs, pos + 1));
        } else if is_letter(cs[pos]) {
            let e = alpha_end(cs, pos);
            assert(e == alpha_end(cs, pos + 1));
            let w = cs.subrange(pos, e);
            if w != "true"@ && w != "false"@ && keyword_of(w) is None {
                assert(word_token(cs, pos, e) == Token::Ident(pos as usize, e as usize));
            }
        }
    }
}

pub proof fn lemma_eat(cs: Seq<char>, pos: int)
    requires
        0 <= pos <= cs.len() <= usize::MAX,
    ensures
        eat(cs, pos) matches Some((t, p1)) ==> {
            &&& pos <= p1 <= cs.len()
            &&& !(t is Eof || t is Unknown) ==> pos < p1
            &&& t matches Token::Ident(s, e) ==> s == pos && pos < e <= p1
        },
{
    lemma_scan(cs, pos);
    if let Some((t, l)) = scan(cs, pos) {
        lemma_run_ends(cs, pos + l);
    }
}

proof fn lemma_digits_value_mono(cs: Seq<char>, from: int, i: int, to: int)
    requires
        from <= i <= to,
        forall|j: int| from <= j < to ==> is_digit(#[trigger] cs[j]),
    ensures
        0 <= digits_value(cs, from, i) <= digits_value(cs, from, to),
    decreases to - i,
{
    if i < to {
        lemma_digits_value_mono(cs, from, i, to - 1);
        assert(is_digit(cs[to - 1]));
    } else {
        lemma_digits_value_nonneg(cs, from, to);
    }
}

proof fn lemma_digits_value_nonneg(cs: Seq<char>, from: int, to: int)
    requires
        forall|j: int| from <= j < to ==> is_digit(#[trigger] cs[j]),
    ensures
        0 <= digits_value(cs, from, to),
    decreases to - from,
{
    if from < to {
        lemma_digits_value_nonneg(cs, from, to - 1);
        assert(is_digit(cs[to - 1]));
    }
}

// ---------------------------------------------------------------------------
// Lexical helpers

fn alpha_end_at(cs: &Vec<char>, i: usize) -> (e: usize)
    requires
        i <= cs@.len(),
    ensures
        e == alpha_end(cs@, i as int),
{
    let mut j = i;
    while j < cs.len() && is_alphabetic(cs[j])
        invariant
            i <= j <= cs@.len(),
            alpha_end(cs@, i as int) == alpha_end(cs@, j as int),
        decreases cs@.len() - j,
    {
        j += 1;
    }
    j
}

fn digit_end_at(cs: &Vec<char>, i: usize) -> (e: usize)
    requires
        i <= cs@.len(),
    ensures
        e == digit_end(cs@, i as int),
{
    let mut j = i;
    while j < cs.len() && cs[j] >= '0' && cs[j] <= '9'
        invariant
            i <= j <= cs@.len(),
            digit_end(cs@, i as int) == digit_end(cs@, j as int),
        decreases cs@.len() - j,
    {
        j += 1;
    }
    j
}

fn ws_end_at(cs: &Vec<char>, i: usize) -> (e: usize)
    requires
        i <= cs@.len(),
    ensures
        e == ws_end(cs@, i as int),
{
    let mut j = i;
    while j < cs.len() && is_whitespace(cs[j])
        invariant
            i <= j <= cs@.len(),
            ws_end(cs@, i as int) == ws_end(cs@, j as int),
        decreases cs@.len() - j,
    {
        j += 1;
    }
    j
}

/// The number written by the digits from `from` to `to`, if it fits.
fn number_at(cs: &Vec<char>, from: usize, to: usize) -> (r: Option<i64>)
    requires
        from <= to <= cs@.len(),
        forall|j: int| from <= j < to ==> is_digit(#[trigger] cs@[j]),
    ensures
        match r {
            Some(v) => v == digits_value(cs@, from as int, to as int),
            None => digits_value(cs@, from as int, to as int) > i64::MAX,
        },
{
    let mut v: i64 = 0;
    let mut i = from;
    while i < to
        invariant
            from <= i <= to <= cs@.len(),
            forall|j: int| from <= j < to ==> is_digit(#[trigger] cs@[j]),
            v == digits_value(cs@, from as int, i as int),
        decreases to - i,
    {
        let c = cs[i];
        assert(is_digit(cs@[i as int]));
        let d = (c as u32 - '0' as u32) as i64;
        assert(d == digit_value(c));
        proof {
            lemma_digits_value_mono(cs@, from as int, i + 1, to as int);
        }
        match v.checked_mul(10) {
            None => return None,
            Some(w) => match w.checked_add(d) {
                None => return None,
                Some(x) => {
                    v = x;
                },
            },
        }
        i += 1;
    }
    Some(v)
}

/// Whether the characters from `s` to `e` spell `w`.
fn span_is(cs: &Vec<char>, s: usize, e: usize, w: &str) -> (b: bool)
    requires
        s <= e <= cs@.len(),
    ensures
        b == (cs@.subrange(s as int, e as int) == w@),
{
    let n = w.unicode_len();
    if e - s != n {
        return false;
    }
    let mut i: usize = 0;
    while i < n
        invariant
            n == w@.len(),
            e - s == n,
            s <= e <= cs@.len(),
            i <= n,
            forall|j: int| 0 <= j < i ==> cs@[s + j] == w@[j],
        decreases n - i,
    {
        if cs[s + i] != w.get_char(i) {
            assert(cs@.subrange(s as int, e as int)[i as int] != w@[i as int]);
            return false;
        }
        i += 1;
    }
    assert(cs@.subrange(s as int, e as int) =~= w@);
    true
}

fn keyword_at(cs: &Vec<char>, s: usize, e: usize) -> (k: Option<Keyword>)
    requires
        s <= e <= cs@.len(),
    ensures
        k == keyword_of(cs@.subrange(s as int, e as int)),
{
    if span_is(cs, s, e, "if") {
        Some(Keyword::If)
    } else if span_is(cs, s, e, "then") {
        Some(Keyword::Then)
    } else if span_is(cs, s, e, "else") {
        Some(Keyword::Else)
    } else if span_is(cs, s, e, "fun") {
        Some(Keyword::Fun)
    } else if span_is(cs, s, e, "is") {
        Some(Keyword::Is)
    } else if span_is(cs, s, e, "let") {
        Some(Keyword::Let)
    } else if span_is(cs, s, e, "rec") {
        Some(Keyword::Rec)
    } else if span_is(cs, s, e, "and") {
        Some(Keyword::And)
    } else if span_is(cs, s, e, "in") {
        Some(Keyword::In)
    } else {
        None
    }
}

fn word_at(cs: &Vec<char>, s: usize, e: usize) -> (t: Token)
    requires
        s <= e <= cs@.len(),
    ensures
        t == word_token(cs@, s as int, e as int),
{
    if span_is(cs, s, e, "true") {
        Token::Bool(true)
    } else if span_is(cs, s, e, "false") {
        Token::Bool(false)
    } else {
        match keyword_at(cs, s, e) {
            Some(k) => Token::Keyword(k),
            None => Token::Ident(s, e),
        }
    }
}

fn sym_at_pos(cs: &Vec<char>, i: usize) -> (r: Option<(Sym, usize)>)
    requires
        i < cs@.len(),
    ensures
        match r {
            Some((s, l)) => sym_at(cs@, i as int) == Some((s, l as int)),
            None => sym_at(cs@, i as int) is None,
        },
{
    let c = cs[i];
    let two = i < cs.len() - 1;
    if two && c == '-' && cs[i + 1] == '>' {
        Some((Sym::Arrow, 2))
    } else if two && c == '=' && cs[i + 1] == '=' {
        Some((Sym::Eq, 2))
    } else if c == '<' {
        Some((Sym::Lt, 1))
    } else if c == '>' {
        Some((Sym::Gt, 1))
    } else if c == '+' {
        Some((Sym::Add, 1))
    } else if c == '-' {
        Some((Sym::Sub, 1))
    } else if c == '*' {
        Some((Sym::Mul, 1))
    } else if c == '/' {
        Some((Sym::Div, 1))
    } else if c == ':' {
        Some((Sym::Colon, 1))
    } else {
        None
    }
}

/// The token at `pos` and its length, or `None` for a number too large.
fn scan_at(cs: &Vec<char>, pos: usize) -> (r: Option<(Token, usize)>)
    requires
        pos <= cs@.len(),
    ensures
        match r {
            Some((t, l)) => scan(cs@, pos as int) == Some((t, l as int)),
            None => scan(cs@, pos as int) is None,
        },
{
    proof {
        lemma_run_ends(cs@, pos as int);
    }
    if pos >= cs.len() {
        return Some((Token::Eof, 0));
    }
    let c = cs[pos];
    if c >= '0' && c <= '9' {
        let e = digit_end_at(cs, pos);
        match number_at(cs, pos, e) {
            Some(v) => Some((Token::Number(v), e - pos)),
            None => None,
        }
    } else if is_alphabetic(c) {
        let e = alpha_end_at(cs, pos);
        proof {
            lemma_run_ends(cs@, pos as int);
        }
        Some((word_at(cs, pos, e), e - pos))
    } else if c == '(' {
        Some((Token::Paren(Paren::Open), 1))
    } else if c == ')' {
        Some((Token::Paren(Paren::Close), 1))
    } else {
        match sym_at_pos(cs, pos) {
            Some((s, l)) => Some((Token::Sym(s), l)),
            None => Some((Token::Unknown, 0)),
        }
    }
}


/// The characters of `input`.
fn chars_of(input: &str) -> (cs: Vec<char>)
    ensures
        cs@ == input@,
{
    broadcast use vstd::string::group_string_axioms;
    let mut cs: Vec<char> = Vec::new();
    for c in it: input.chars()
        invariant
            cs@ == it.history(),
    {
        cs.push(c);
    }
    assert(cs@ =~= input@);
    cs
}

// ---------------------------------------------------------------------------
// Facts about the views of groups of functions

pub proof fn lemma_funs_push(funs: Seq<Fun>, f: Fun, n: int)
    requires
        0 <= n <= funs.len(),
    ensures
        funs_view(funs.push(f), n) == funs_view(funs, n),
        funs_ident_count(funs.push(f), n) == funs_ident_count(funs, n),
    decreases n,
{
    if n > 0 {
        lemma_funs_push(funs, f, n - 1);
        assert(funs.push(f)[n - 1] == funs[n - 1]);
    }
}

/// The view of a function.
pub open spec fn fun_sview(f: Fun) -> SFun {
    fun_view(f.fun_name@, f.arg_name@, f.arg_type, f.fun_type, f.body)
}

pub proof fn lemma_funs_push_last(funs: Seq<Fun>, f: Fun)
    ensures
        funs_view(funs.push(f), funs.len() + 1int) == funs_view(funs, funs.len() as int).push(fun_sview(f)),
        funs_ident_count(funs.push(f), funs.len() + 1int) == funs_ident_count(funs, funs.len() as int) + 2
            + ident_count(f.body),
{
    lemma_funs_push(funs, f, funs.len() as int);
    assert(funs.push(f)[funs.len() as int] == f);
}

// ---------------------------------------------------------------------------
// How a result of the parser agrees with the grammar

/// A parsed value and the position after it.
pub type Parsed<T> = Result<(T, usize), Failure>;

pub open spec fn agrees_expr(r: Parsed<Expr>, s: PR<SExpr>) -> bool {
    match r {
        Ok((e, p)) => s == Ok::<(SExpr, int), SFail>((expr_view(e), p as int)),
        Err(f) => s == Err::<(SExpr, int), SFail>(fail_view(f)),
    }
}

pub open spec fn agrees_atom(r: Parsed<Option<Expr>>, s: PR<Option<SExpr>>) -> bool {
    match r {
        Ok((Some(e), p)) => s == Ok::<(Option<SExpr>, int), SFail>((Some(expr_view(e)), p as int)),
        Ok((None, p)) => s == Ok::<(Option<SExpr>, int), SFail>((None, p as int)),
        Err(f) => s == Err::<(Option<SExpr>, int), SFail>(fail_view(f)),
    }
}

pub open spec fn agrees_type(r: Parsed<Type>, s: PR<Type>) -> bool {
    match r {
        Ok((t, p)) => s == Ok::<(Type, int), SFail>((t, p as int)),
        Err(f) => s == Err::<(Type, int), SFail>(fail_view(f)),
    }
}

pub open spec fn agrees_fun(r: Parsed<Fun>, s: PR<SFun>) -> bool {
    match r {
        Ok((f, p)) => s == Ok::<(SFun, int), SFail>((fun_sview(f), p as int)),
        Err(f) => s == Err::<(SFun, int), SFail>(fail_view(f)),
    }
}

pub open spec fn agrees_funs(r: Parsed<Vec<Fun>>, s: PR<Seq<SFun>>) -> bool {
    match r {
        Ok((fs, p)) => s == Ok::<(Seq<SFun>, int), SFail>((funs_view(fs@, fs@.len() as int), p as int)),
        Err(f) => s == Err::<(Seq<SFun>, int), SFail>(fail_view(f)),
    }
}

pub open spec fn agrees_ident(r: Parsed<Ident>, s: PR<Seq<char>>) -> bool {
    match r {
        Ok((i, p)) => s == Ok::<(Seq<char>, int), SFail>((i@, p as int)),
        Err(f) => s == Err::<(Seq<char>, int), SFail>(fail_view(f)),
    }
}

pub open spec fn agrees_unit(r: Parsed<()>, s: PR<()>) -> bool {
    match r {
        Ok((_, p)) => s == Ok::<((), int), SFail>(((), p as int)),
        Err(f) => s == Err::<((), int), SFail>(fail_view(f)),
    }
}

/// An error of a result lies within the input.
pub open spec fn error_within<T>(r: Parsed<T>, len: int) -> bool {
    r matches Err(Failure::Error(e)) ==> e.spec_location() <= len
}

/// Where a result ends: after `pos`, or at it where `strict` is false.
pub open spec fn ends_within<T>(r: Parsed<T>, pos: int, len: int, strict: bool) -> bool {
    r matches Ok((_, p)) ==> pos <= p <= len && (strict ==> pos < p)
}

proof fn lemma_budget(cs: Seq<char>, p: int, q: int)
    requires
        p < q <= cs.len(),
    ensures
        budget(cs, q) + 16 <= budget(cs, p),
{
}

// ---------------------------------------------------------------------------
// The parser

/// A parser over one input: its text and the characters of the text.
struct Parser<'a> {
    input: &'a str,
    chars: Vec<char>,
}

impl<'a> Parser<'a> {
    spec fn cs(&self) -> Seq<char> {
        self.chars@
    }

    spec fn len(&self) -> int {
        self.chars@.len() as int
    }

    spec fn wf(&self) -> bool {
        &&& self.chars@ == self.input@
        &&& self.chars@.len() <= usize::MAX
    }

    fn new(input: &'a str) -> (p: Parser<'a>)
        ensures
            p.wf(),
            p.cs() == input@,
    {
        let chars = chars_of(input);
        let _ = chars.len();
        Parser { input, chars }
    }

    fn error(&self, pos: usize, msg: &str) -> (f: Failure)
        ensures
            fail_view(f) == SFail::Error(pos as int, msg@),
    {
        Failure::Error(ParseError::new(pos, String::from_str(msg)))
    }

    /// The identifier spelled by the characters from `s` to `e`.
    fn ident_at(&self, s: usize, e: usize) -> (i: Ident)
        requires
            self.wf(),
            s <= e <= self.len(),
        ensures
            i@ == self.cs().subrange(s as int, e as int),
    {
        Ident::from_str(self.input.substring_char(s, e))
    }

    fn eat(&self, pos: usize) -> (r: Option<(Token, usize)>)
        requires
            self.wf(),
            pos <= self.len(),
        ensures
            match r {
                Some((t, p)) => eat(self.cs(), pos as int) == Some((t, p as int)),
                None => eat(self.cs(), pos as int) is None,
            },
            r matches Some((t, p)) ==> {
                &&& pos <= p <= self.len()
                &&& !(t is Eof || t is Unknown) ==> pos < p
                &&& t matches Token::Ident(s, e) ==> s == pos && pos < e <= p
            },
    {
        proof {
            lemma_scan(self.cs(), pos as int);
            lemma_eat(self.cs(), pos as int);
        }
        match scan_at(&self.chars, pos) {
            None => None,
            Some((t, l)) => Some((t, ws_end_at(&self.chars, pos + l))),
        }
    }

    fn expect(&self, pos: usize, t: Token, msg: &str) -> (r: Parsed<()>)
        requires
            self.wf(),
            pos <= self.len(),
            !(t is Eof || t is Unknown),
        ensures
            error_within(r, self.len()),
            agrees_unit(r, p_expect(self.cs(), pos as int, t, msg@)),
            ends_within(r, pos as int, self.len(), true),
    {
        match self.eat(pos) {
            None => Err(Failure::NumberTooLarge),
            Some((u, p1)) => if u == t {
                Ok(((), p1))
            } else {
                Err(self.error(p1, msg))
            },
        }
    }

    fn ident(&self, pos: usize) -> (r: Parsed<Ident>)
        requires
            self.wf(),
            pos <= self.len(),
        ensures
            error_within(r, self.len()),
            agrees_ident(r, p_ident(self.cs(), pos as int)),
            ends_within(r, pos as int, self.len(), true),
    {
        match self.eat(pos) {
            None => Err(Failure::NumberTooLarge),
            Some((Token::Ident(s, e), p1)) => Ok((self.ident_at(s, e), p1)),
            Some((_, p1)) => Err(self.error(p1, "Expected identifier")),
        }
    }
}

impl<'a> Parser<'a> {
    /// A type: atoms joined by `->`, to the right.
    fn parse_type(&self, pos: usize, Ghost(fuel): Ghost<nat>) -> (r: Parsed<Type>)
        requires
            self.wf(),
            pos <= self.len(),
            fuel >= budget(self.cs(), pos as int) + 2,
        ensures
            error_within(r, self.len()),
            agrees_type(r, p_type(self.cs(), pos as int, fuel)),
            ends_within(r, pos as int, self.len(), true),
        decreases fuel,
    {
        match self.parse_atom_type(pos, Ghost((fuel - 1) as nat)) {
            Err(f) => Err(f),
            Ok((t, p1)) => match self.eat(p1) {
                None => Err(Failure::NumberTooLarge),
                Some((Token::Sym(Sym::Arrow), p2)) => {
                    proof {
                        lemma_budget(self.cs(), pos as int, p2 as int);
                    }
                    match self.parse_type(p2, Ghost((fuel - 1) as nat)) {
                        Err(f) => Err(f),
                        Ok((res, p3)) => Ok((Type::arrow(t, res), p3)),
                    }
                },
                Some(_) => Ok((t, p1)),
            },
        }
    }

    /// `int`, `bool` or a type in parentheses.
    fn parse_atom_type(&self, pos: usize, Ghost(fuel): Ghost<nat>) -> (r: Parsed<Type>)
        requires
            self.wf(),
            pos <= self.len(),
            fuel >= budget(self.cs(), pos as int) + 1,
        ensures
            error_within(r, self.len()),
            agrees_type(r, p_atom_type(self.cs(), pos as int, fuel)),
            ends_within(r, pos as int, self.len(), true),
        decreases fuel,
    {
        match self.eat(pos) {
            None => Err(Failure::NumberTooLarge),
            Some((Token::Ident(s, e), p1)) => {
                if span_is(&self.chars, s, e, "int") {
                    Ok((Type::Int, p1))
                } else if span_is(&self.chars, s, e, "bool") {
                    Ok((Type::Bool, p1))
                } else {
                    Err(self.error(p1, "Expected type"))
                }
            },
            Some((Token::Paren(Paren::Open), p1)) => {
                proof {
                    lemma_budget(self.cs(), pos as int, p1 as int);
                }
                match self.parse_type(p1, Ghost((fuel - 1) as nat)) {
                    Err(f) => Err(f),
                    Ok((t, p2)) => match self.expect(p2, Token::Paren(Paren::Close), "Expected `)`") {
                        Err(f) => Err(f),
                        Ok((_, p3)) => Ok((t, p3)),
                    },
                }
            },
            Some((_, p1)) => Err(self.error(p1, "Expected type")),
        }
    }
}

fn sym_precedence(s: Sym) -> (p: u8)
    ensures
        p == precedence(s),
{
    match s {
        Sym::Eq | Sym::Lt | Sym::Gt => 3,
        Sym::Add | Sym::Sub => 2,
        Sym::Mul | Sym::Div => 1,
        _ => 255,
    }
}

fn sym_comparison(s: Sym) -> (r: Option<CmpOp>)
    ensures
        match r {
            Some(c) => is_comparison(s) && c == comparison_of(s),
            None => !is_comparison(s),
        },
{
    match s {
        Sym::Eq => Some(CmpOp::Eq),
        Sym::Lt => Some(CmpOp::Lt),
        Sym::Gt => Some(CmpOp::Gt),
        _ => None,
    }
}

fn sym_arith(s: Sym) -> (a: ArithOp)
    ensures
        a == arith_of(s),
{
    match s {
        Sym::Add => ArithOp::Add,
        Sym::Sub => ArithOp::Sub,
        Sym::Mul => ArithOp::Mul,
        _ => ArithOp::Div,
    }
}

impl<'a> Parser<'a> {
    /// An expression whose operators bind tighter than `prec`.
    fn parse_expr(&self, pos: usize, prec: u8, Ghost(fuel): Ghost<nat>) -> (r: Parsed<Expr>)
        requires
            self.wf(),
            pos <= self.len(),
            fuel >= budget(self.cs(), pos as int) + 5,
        ensures
            error_within(r, self.len()),
            agrees_expr(r, p_expr(self.cs(), pos as int, prec as int, fuel)),
            ends_within(r, pos as int, self.len(), true),
            r matches Ok((e, p)) ==> ident_count(e) <= p - pos,
        decreases fuel, 1nat,
    {
        match self.parse_application(pos, Ghost((fuel - 1) as nat)) {
            Err(f) => Err(f),
            Ok((lhs, p1)) => {
                proof {
                    lemma_budget(self.cs(), pos as int, p1 as int);
                }
                self.parse_expr_loop(lhs, p1, prec, false, Ghost((fuel - 1) as nat))
            },
        }
    }

    /// The operators after `lhs` that bind tighter than `prec`.
    fn parse_expr_loop(&self, lhs: Expr, pos: usize, prec: u8, has_comparison: bool, Ghost(fuel): Ghost<nat>) -> (r: Parsed<Expr>)
        requires
            self.wf(),
            pos <= self.len(),
            fuel >= budget(self.cs(), pos as int) + 5,
        ensures
            error_within(r, self.len()),
            agrees_expr(r, p_expr_loop(self.cs(), expr_view(lhs), pos as int, prec as int, has_comparison, fuel)),
            ends_within(r, pos as int, self.len(), false),
            r matches Ok((e, p)) ==> ident_count(e) <= ident_count(lhs) + p - pos,
        decreases fuel, 0nat,
    {
        proof {
            lemma_scan(self.cs(), pos as int);
        }
        match scan_at(&self.chars, pos) {
            None => Err(Failure::NumberTooLarge),
            Some((Token::Sym(op), l)) => {
                let op_prec = sym_precedence(op);
                if op_prec < prec {
                    let p1 = ws_end_at(&self.chars, pos + l);
                    proof {
                        lemma_run_ends(self.cs(), pos + l);
                        lemma_budget(self.cs(), pos as int, p1 as int);
                    }
                    match self.parse_expr(p1, op_prec, Ghost((fuel - 1) as nat)) {
                        Err(f) => Err(f),
                        Ok((rhs, p2)) => {
                            proof {
                                lemma_budget(self.cs(), pos as int, p2 as int);
                            }
                            match sym_comparison(op) {
                                Some(kind) => {
                                    if has_comparison {
                                        Err(self.error(p2, "Chained comparisons are not allowed"))
                                    } else {
                                        self.parse_expr_loop(Expr::CmpBinOp(Box::new(BinOp { kind, lhs, rhs })), p2, prec, true, Ghost((fuel - 1) as nat))
                                    }
                                },
                                None => {
                                    let kind = sym_arith(op);
                                    self.parse_expr_loop(arith_op(lhs, kind, rhs), p2, prec, has_comparison, Ghost((fuel - 1) as nat))
                                },
                            }
                        },
                    }
                } else {
                    Ok((lhs, pos))
                }
            },
            Some(_) => Ok((lhs, pos)),
        }
    }

    /// One or more atoms, applied from left to right.
    fn parse_application(&self, pos: usize, Ghost(fuel): Ghost<nat>) -> (r: Parsed<Expr>)
        requires
            self.wf(),
            pos <= self.len(),
            fuel >= budget(self.cs(), pos as int) + 4,
        ensures
            error_within(r, self.len()),
            agrees_expr(r, p_application(self.cs(), pos as int, fuel)),
            ends_within(r, pos as int, self.len(), true),
            r matches Ok((e, p)) ==> ident_count(e) <= p - pos,
        decreases fuel, 1nat,
    {
        match self.parse_atom(pos, Ghost((fuel - 1) as nat)) {
            Err(f) => Err(f),
            Ok((None, p1)) => Err(self.error(p1, "Expected expression")),
            Ok((Some(fun), p1)) => {
                proof {
                    lemma_budget(self.cs(), pos as int, p1 as int);
                }
                self.parse_app_loop(fun, p1, Ghost((fuel - 1) as nat))
            },
        }
    }

    /// The arguments that follow `fun`.
    fn parse_app_loop(&self, fun: Expr, pos: usize, Ghost(fuel): Ghost<nat>) -> (r: Parsed<Expr>)
        requires
            self.wf(),
            pos <= self.len(),
            fuel >= budget(self.cs(), pos as int) + 4,
        ensures
            error_within(r, self.len()),
            agrees_expr(r, p_app_loop(self.cs(), expr_view(fun), pos as int, fuel)),
            ends_within(r, pos as int, self.len(), false),
            r matches Ok((e, p)) ==> ident_count(e) <= ident_count(fun) + p - pos,
        decreases fuel, 0nat,
    {
        match self.parse_atom(pos, Ghost((fuel - 1) as nat)) {
            Err(f) => Err(f),
            Ok((None, p1)) => Ok((fun, p1)),
            Ok((Some(arg), p1)) => {
                proof {
                    lemma_budget(self.cs(), pos as int, p1 as int);
                }
                self.parse_app_loop(application(fun, arg), p1, Ghost((fuel - 1) as nat))
            },
        }
    }

    /// An atom, or nothing where the next token cannot start one.
    fn parse_atom(&self, pos: usize, Ghost(fuel): Ghost<nat>) -> (r: Parsed<Option<Expr>>)
        requires
            self.wf(),
            pos <= self.len(),
            fuel >= budget(self.cs(), pos as int) + 3,
        ensures
            error_within(r, self.len()),
            agrees_atom(r, p_atom(self.cs(), pos as int, fuel)),
            r matches Ok((Some(e), p)) ==> pos < p <= self.len() && ident_count(e) <= p - pos,
            r matches Ok((None, p)) ==> p == pos,
        decreases fuel, 0nat,
    {
        proof {
            lemma_scan(self.cs(), pos as int);
        }
        match scan_at(&self.chars, pos) {
            None => Err(Failure::NumberTooLarge),
            Some((t, l)) => {
                let p1 = ws_end_at(&self.chars, pos + l);
                proof {
                    lemma_run_ends(self.cs(), pos + l);
                    if l > 0 {
                        lemma_budget(self.cs(), pos as int, p1 as int);
                    }
                }
                match t {
                    Token::Eof => Ok((None, pos)),
                    Token::Paren(Paren::Close) => Ok((None, pos)),
                    Token::Sym(_) => Ok((None, pos)),
                    Token::Number(n) => Ok((Some(Expr::Literal(Literal::Number(n))), p1)),
                    Token::Bool(b) => Ok((Some(Expr::Literal(Literal::Bool(b))), p1)),
                    Token::Ident(s, e) => Ok((Some(Expr::Var(self.ident_at(s, e))), p1)),
                    Token::Paren(Paren::Open) => match self.parse_expr(p1, 255, Ghost((fuel - 1) as nat)) {
                        Err(f) => Err(f),
                        Ok((e, p2)) => match self.expect(p2, Token::Paren(Paren::Close), "Expected `)`") {
                            Err(f) => Err(f),
                            Ok((_, p3)) => Ok((Some(e), p3)),
                        },
                    },
                    Token::Keyword(Keyword::If) => match self.parse_if(p1, Ghost((fuel - 1) as nat)) {
                        Err(f) => Err(f),
                        Ok((e, p2)) => Ok((Some(e), p2)),
                    },
                    Token::Keyword(Keyword::Fun) => match self.parse_fun(p1, Ghost((fuel - 1) as nat)) {
                        Err(f) => Err(f),
                        Ok((f, p2)) => Ok((Some(Expr::Fun(Box::new(f))), p2)),
                    },
                    Token::Keyword(Keyword::Let) => match self.parse_let(p1, Ghost((fuel - 1) as nat)) {
                        Err(f) => Err(f),
                        Ok((e, p2)) => Ok((Some(e), p2)),
                    },
                    Token::Keyword(_) => Ok((None, pos)),
                    Token::Unknown => Err(self.error(pos, "Unknown token")),
                }
            },
        }
    }

    /// `cond then tru else fls`, after `if`.
    fn parse_if(&self, pos: usize, Ghost(fuel): Ghost<nat>) -> (r: Parsed<Expr>)
        requires
            self.wf(),
            pos <= self.len(),
            fuel >= budget(self.cs(), pos as int) + 6,
        ensures
            error_within(r, self.len()),
            agrees_expr(r, p_if(self.cs(), pos as int, fuel)),
            ends_within(r, pos as int, self.len(), true),
            r matches Ok((e, p)) ==> ident_count(e) <= p - pos,
        decreases fuel, 0nat,
    {
        let f1 = Ghost((fuel - 1) as nat);
        match self.parse_expr(pos, 255, f1) {
            Err(f) => Err(f),
            Ok((c, p1)) => match self.expect(p1, Token::Keyword(Keyword::Then), "Expected `then`") {
                Err(f) => Err(f),
                Ok((_, p2)) => {
                    proof {
                        lemma_budget(self.cs(), pos as int, p2 as int);
                    }
                    match self.parse_expr(p2, 255, f1) {
                        Err(f) => Err(f),
                        Ok((t, p3)) => match self.expect(p3, Token::Keyword(Keyword::Else), "Expected `else`") {
                            Err(f) => Err(f),
                            Ok((_, p4)) => {
                                proof {
                                    lemma_budget(self.cs(), pos as int, p4 as int);
                                }
                                match self.parse_expr(p4, 255, f1) {
                                    Err(f) => Err(f),
                                    Ok((e, p5)) => Ok((if_expr(c, t, e), p5)),
                                }
                            },
                        },
                    }
                },
            },
        }
    }

    /// `name(arg: type): type is body`, after `fun`.
    fn parse_fun(&self, pos: usize, Ghost(fuel): Ghost<nat>) -> (r: Parsed<Fun>)
        requires
            self.wf(),
            pos <= self.len(),
            fuel >= budget(self.cs(), pos as int) + 6,
        ensures
            error_within(r, self.len()),
            agrees_fun(r, p_fun(self.cs(), pos as int, fuel)),
            ends_within(r, pos as int, self.len(), true),
            r matches Ok((f, p)) ==> 2 + ident_count(f.body) <= p - pos,
        decreases fuel, 0nat,
    {
        let f1 = Ghost((fuel - 1) as nat);
        let (name, p1) = match self.ident(pos) {
            Err(f) => return Err(f),
            Ok(x) => x,
        };
        let (_, p2) = match self.expect(p1, Token::Paren(Paren::Open), "Expected `(`") {
            Err(f) => return Err(f),
            Ok(x) => x,
        };
        let (arg, p3) = match self.ident(p2) {
            Err(f) => return Err(f),
            Ok(x) => x,
        };
        let (_, p4) = match self.expect(p3, Token::Sym(Sym::Colon), "Expected `:`") {
            Err(f) => return Err(f),
            Ok(x) => x,
        };
        proof {
            lemma_budget(self.cs(), pos as int, p4 as int);
        }
        let (arg_type, p5) = match self.parse_type(p4, f1) {
            Err(f) => return Err(f),
            Ok(x) => x,
        };
        let (_, p6) = match self.expect(p5, Token::Paren(Paren::Close), "Expected `)`") {
            Err(f) => return Err(f),
            Ok(x) => x,
        };
        let (_, p7) = match self.expect(p6, Token::Sym(Sym::Colon), "Expected `:`") {
            Err(f) => return Err(f),
            Ok(x) => x,
        };
        proof {
            lemma_budget(self.cs(), pos as int, p7 as int);
        }
        let (fun_type, p8) = match self.parse_type(p7, f1) {
            Err(f) => return Err(f),
            Ok(x) => x,
        };
        let (_, p9) = match self.expect(p8, Token::Keyword(Keyword::Is), "Expected `is` before function body") {
            Err(f) => return Err(f),
            Ok(x) => x,
        };
        proof {
            lemma_budget(self.cs(), pos as int, p9 as int);
        }
        match self.parse_expr(p9, 255, f1) {
            Err(f) => Err(f),
            Ok((body, p10)) => Ok((fun(name, arg, arg_type, fun_type, body), p10)),
        }
    }

    /// `fun name(arg: type): type is body`.
    fn parse_fun_kw(&self, pos: usize, Ghost(fuel): Ghost<nat>) -> (r: Parsed<Fun>)
        requires
            self.wf(),
            pos <= self.len(),
            fuel >= budget(self.cs(), pos as int) + 6,
        ensures
            error_within(r, self.len()),
            agrees_fun(r, p_fun_kw(self.cs(), pos as int, fuel)),
            ends_within(r, pos as int, self.len(), true),
            r matches Ok((f, p)) ==> 3 + ident_count(f.body) <= p - pos,
        decreases fuel, 0nat,
    {
        match self.expect(pos, Token::Keyword(Keyword::Fun), "Expected `fun`") {
            Err(f) => Err(f),
            Ok((_, p1)) => {
                proof {
                    lemma_budget(self.cs(), pos as int, p1 as int);
                }
                self.parse_fun(p1, Ghost((fuel - 1) as nat))
            },
        }
    }

    /// More `and fun ...` after the functions `funs` of a `let rec`.
    fn parse_rec_funs(&self, funs: Vec<Fun>, pos: usize, Ghost(fuel): Ghost<nat>) -> (r: Parsed<Vec<Fun>>)
        requires
            self.wf(),
            pos <= self.len(),
            fuel >= budget(self.cs(), pos as int) + 6,
        ensures
            error_within(r, self.len()),
            agrees_funs(r, p_rec_funs(self.cs(), funs_view(funs@, funs@.len() as int), pos as int, fuel)),
            ends_within(r, pos as int, self.len(), false),
            r matches Ok((fs, p)) ==> {
                &&& fs@.len() >= funs@.len()
                &&& funs_ident_count(fs@, fs@.len() as int) <= funs_ident_count(funs@, funs@.len() as int) + p - pos
            },
        decreases fuel, 0nat,
    {
        proof {
            lemma_scan(self.cs(), pos as int);
        }
        match scan_at(&self.chars, pos) {
            None => Err(Failure::NumberTooLarge),
            Some((Token::Keyword(Keyword::And), l)) => {
                let p0 = ws_end_at(&self.chars, pos + l);
                proof {
                    lemma_run_ends(self.cs(), pos + l);
                    lemma_budget(self.cs(), pos as int, p0 as int);
                }
                match self.parse_fun_kw(p0, Ghost((fuel - 1) as nat)) {
                    Err(f) => Err(f),
                    Ok((f, p1)) => {
                        let mut funs = funs;
                        proof {
                            lemma_funs_push_last(funs@, f);
                            lemma_budget(self.cs(), pos as int, p1 as int);
                        }
                        funs.push(f);
                        self.parse_rec_funs(funs, p1, Ghost((fuel - 1) as nat))
                    },
                }
            },
            Some(_) => Ok((funs, pos)),
        }
    }

    /// `fun ... in body` or `rec fun ... and fun ... in body`, after `let`.
    #[verifier::rlimit(30)]
    fn parse_let(&self, pos: usize, Ghost(fuel): Ghost<nat>) -> (r: Parsed<Expr>)
        requires
            self.wf(),
            pos <= self.len(),
            fuel >= budget(self.cs(), pos as int) + 7,
        ensures
            error_within(r, self.len()),
            agrees_expr(r, p_let(self.cs(), pos as int, fuel)),
            ends_within(r, pos as int, self.len(), true),
            r matches Ok((e, p)) ==> ident_count(e) <= p - pos,
        decreases fuel, 0nat,
    {
        let f1 = Ghost((fuel - 1) as nat);
        proof {
            lemma_scan(self.cs(), pos as int);
        }
        match scan_at(&self.chars, pos) {
            None => Err(Failure::NumberTooLarge),
            Some((Token::Keyword(Keyword::Rec), l)) => {
                let p0 = ws_end_at(&self.chars, pos + l);
                proof {
                    lemma_run_ends(self.cs(), pos + l);
                    lemma_budget(self.cs(), pos as int, p0 as int);
                }
                let (first, p1) = match self.parse_fun_kw(p0, f1) {
                    Err(f) => return Err(f),
                    Ok(x) => x,
                };
                let mut funs: Vec<Fun> = Vec::new();
                proof {
                    lemma_funs_push_last(funs@, first);
                    lemma_budget(self.cs(), pos as int, p1 as int);
                }
                funs.push(first);
                proof {
                    assert(funs_view(funs@, 1) == seq![fun_sview(first)]);
                }
                let (funs, p2) = match self.parse_rec_funs(funs, p1, f1) {
                    Err(f) => return Err(f),
                    Ok(x) => x,
                };
                let (_, p3) = match self.expect(p2, Token::Keyword(Keyword::In), "Expected `in`") {
                    Err(f) => return Err(f),
                    Ok(x) => x,
                };
                proof {
                    lemma_budget(self.cs(), pos as int, p3 as int);
                }
                match self.parse_expr(p3, 255, f1) {
                    Err(f) => Err(f),
                    Ok((body, p4)) => Ok((Expr::LetRec(Box::new(LetRec { funs, body })), p4)),
                }
            },
            Some(_) => {
                let (fun, p1) = match self.parse_fun_kw(pos, f1) {
                    Err(f) => return Err(f),
                    Ok(x) => x,
                };
                let (_, p2) = match self.expect(p1, Token::Keyword(Keyword::In), "Expected `in`") {
                    Err(f) => return Err(f),
                    Ok(x) => x,
                };
                proof {
                    lemma_budget(self.cs(), pos as int, p2 as int);
                }
                match self.parse_expr(p2, 255, f1) {
                    Err(f) => Err(f),
                    Ok((body, p3)) => Ok((let_fun_expr(fun, body), p3)),
                }
            },
        }
    }
}

// ---------------------------------------------------------------------------
// Positions in bytes

/// Where the character at `p` starts in the UTF-8 encoding of `cs`, in bytes.
pub open spec fn byte_offset(cs: Seq<char>, p: int) -> int {
    encode_utf8(cs.take(p)).len() as int
}

proof fn lemma_encode_concat(s: Seq<char>, t: Seq<char>)
    ensures
        encode_utf8(s + t) == encode_utf8(s) + encode_utf8(t),
    decreases s.len(),
{
    if s.len() == 0 {
        assert(s + t =~= t);
        assert(encode_utf8(s) + encode_utf8(t) =~= encode_utf8(t));
    } else {
        lemma_encode_concat(s.drop_first(), t);
        assert((s + t).drop_first() =~= s.drop_first() + t);
        assert((s + t)[0] == s[0]);
        assert(encode_utf8(s + t) =~= encode_utf8(s) + encode_utf8(t));
    }
}

proof fn lemma_byte_offset_step(cs: Seq<char>, p: int)
    requires
        0 <= p < cs.len(),
    ensures
        byte_offset(cs, p + 1) == byte_offset(cs, p) + encode_scalar(cs[p] as u32).len(),
        byte_offset(cs, p + 1) <= encode_utf8(cs).len(),
{
    assert(cs.take(p + 1) =~= cs.take(p) + seq![cs[p]]);
    lemma_encode_concat(cs.take(p), seq![cs[p]]);
    let one = seq![cs[p]];
    assert(one.drop_first() =~= Seq::<char>::empty());
    assert(one[0] == cs[p]);
    assert(encode_utf8(Seq::<char>::empty()) =~= Seq::<u8>::empty());
    assert(encode_utf8(one) =~= encode_scalar(cs[p] as u32));
    assert(cs =~= cs.take(p + 1) + cs.skip(p + 1));
    lemma_encode_concat(cs.take(p + 1), cs.skip(p + 1));
}

/// The number of bytes of the UTF-8 encoding of `c`.
fn utf8_width(c: char) -> (w: usize)
    ensures
        w == encode_scalar(c as u32).len(),
{
    proof {
        vstd::utf8::char_is_scalar(c);
    }
    let u = c as u32;
    if u <= 0x7F {
        1
    } else if u <= 0x7FF {
        2
    } else if u <= 0xFFFF {
        3
    } else {
        4
    }
}

impl<'a> Parser<'a> {
    /// Where the character at `p` starts, in bytes.
    fn byte_offset_of(&self, p: usize) -> (b: usize)
        requires
            self.wf(),
            p <= self.len(),
        ensures
            b == byte_offset(self.cs(), p as int),
    {
        let total = self.input.as_bytes().len();
        let mut b: usize = 0;
        let mut i: usize = 0;
        assert(self.cs().take(0) =~= Seq::<char>::empty());
        while i < p
            invariant
                self.wf(),
                i <= p <= self.len(),
                b == byte_offset(self.cs(), i as int),
                total == encode_utf8(self.cs()).len(),
            decreases p - i,
        {
            proof {
                lemma_byte_offset_step(self.cs(), i as int);
            }
            b = b + utf8_width(self.chars[i]);
            i += 1;
        }
        b
    }

    /// A failure with its position counted in bytes rather than characters.
    fn in_bytes(&self, f: Failure) -> (g: Failure)
        requires
            self.wf(),
            f matches Failure::Error(e) ==> e.spec_location() <= self.len(),
        ensures
            located(self.cs(), fail_view(f), g),
    {
        match f {
            Failure::Error(e) => {
                let b = self.byte_offset_of(e.location());
                Failure::Error(e.at(b))
            },
            Failure::NumberTooLarge => Failure::NumberTooLarge,
        }
    }
}

/// A failure of the grammar and the failure reported for it: the same, with
/// the position of an error counted in bytes.
pub open spec fn located(cs: Seq<char>, s: SFail, f: Failure) -> bool {
    match f {
        Failure::Error(e) => reported(cs, s, e),
        Failure::NumberTooLarge => s is NumberTooLarge,
    }
}

// ---------------------------------------------------------------------------
// Parsing a whole text

/// Whether parsing `text` as an expression reaches a number too large for
/// 64 bits.
pub open spec fn parse_overflows(text: Seq<char>) -> bool {
    spec_parse(text) == Err::<SExpr, SFail>(SFail::NumberTooLarge)
}

/// Whether parsing `text` as a type reaches a number too large for 64 bits.
pub open spec fn type_parse_overflows(text: Seq<char>) -> bool {
    spec_parse_type(text) == Err::<Type, SFail>(SFail::NumberTooLarge)
}

/// A syntax error of the grammar and the error reported for it: the same
/// message, at the same place counted in bytes.
pub open spec fn reported(text: Seq<char>, s: SFail, err: ParseError) -> bool {
    s matches SFail::Error(p, m) && err.spec_location() == byte_offset(text, p) && err.spec_message() == m
}

/// What parsing `text` gives: the expression of the grammar, or its syntax
/// error; an expression writes no more identifiers than `text` has
/// characters.
pub open spec fn parse_result(text: Seq<char>, r: Result<Expr, ParseError>) -> bool {
    match r {
        Ok(e) => spec_parse(text) == Ok::<SExpr, SFail>(expr_view(e)) && ident_count(e) <= text.len(),
        Err(err) => spec_parse(text) matches Err(s) && reported(text, s, err),
    }
}

/// What parsing `text` as a type gives.
pub open spec fn parse_type_result(text: Seq<char>, r: Result<Type, ParseError>) -> bool {
    match r {
        Ok(t) => spec_parse_type(text) == Ok::<Type, SFail>(t),
        Err(err) => spec_parse_type(text) matches Err(s) && reported(text, s, err),
    }
}

fn parse_text(input: &str) -> (r: Result<Expr, Failure>)
    ensures
        match r {
            Ok(e) => spec_parse(input@) == Ok::<SExpr, SFail>(expr_view(e)) && ident_count(e) <= input@.len(),
            Err(f) => spec_parse(input@) matches Err(s) && located(input@, s, f),
        },
{
    let p = Parser::new(input);
    proof {
        lemma_run_ends(p.cs(), 0);
    }
    let p0 = ws_end_at(&p.chars, 0);
    let res: Result<Expr, Failure> = match p.parse_expr(p0, 255, Ghost(budget(p.cs(), p0 as int) + 16)) {
        Err(f) => Err(f),
        Ok((e, p1)) => {
            proof {
                lemma_scan(p.cs(), p1 as int);
            }
            match scan_at(&p.chars, p1) {
                None => Err(Failure::NumberTooLarge),
                Some((Token::Eof, _)) => Ok(e),
                Some(_) => Err(p.error(p1, "Expected end of input")),
            }
        },
    };
    match res {
        Ok(e) => Ok(e),
        Err(f) => Err(p.in_bytes(f)),
    }
}

fn parse_type_text(input: &str) -> (r: Result<Type, Failure>)
    ensures
        match r {
            Ok(t) => spec_parse_type(input@) == Ok::<Type, SFail>(t),
            Err(f) => spec_parse_type(input@) matches Err(s) && located(input@, s, f),
        },
{
    let p = Parser::new(input);
    proof {
        lemma_run_ends(p.cs(), 0);
    }
    let p0 = ws_end_at(&p.chars, 0);
    let res: Result<Type, Failure> = match p.parse_type(p0, Ghost(budget(p.cs(), p0 as int) + 16)) {
        Err(f) => Err(f),
        Ok((t, p1)) => {
            proof {
                lemma_scan(p.cs(), p1 as int);
            }
            match scan_at(&p.chars, p1) {
                None => Err(Failure::NumberTooLarge),
                Some((Token::Eof, _)) => Ok(t),
                Some(_) => Err(p.error(p1, "Expected end of input")),
            }
        },
    };
    match res {
        Ok(t) => Ok(t),
        Err(f) => Err(p.in_bytes(f)),
    }
}

/// Parses the whole of `input` as one expression. The text must not lead
/// the parser to a number too large for 64 bits.
pub fn parse(input: &str) -> (r: Result<Expr, ParseError>)
    requires
        !parse_overflows(input@),
    ensures
        parse_result(input@, r),
{
    match parse_text(input) {
        Ok(e) => Ok(e),
        Err(Failure::Error(err)) => Err(err),
        Err(Failure::NumberTooLarge) => Err(ParseError::new(0, String::new())),
    }
}

/// Parses the whole of `input` as one expression, or gives `None` where the
/// parser reaches a number too large for 64 bits.
pub fn try_parse(input: &str) -> (r: Option<Result<Expr, ParseError>>)
    ensures
        r is None <==> parse_overflows(input@),
        r matches Some(res) ==> parse_result(input@, res),
{
    match parse_text(input) {
        Err(Failure::NumberTooLarge) => None,
        _ => Some(parse(input)),
    }
}

/// Parses the whole of `input` as one type. The text must not lead the
/// parser to a number too large for 64 bits.
pub fn parse_type(input: &str) -> (r: Result<Type, ParseError>)
    requires
        !type_parse_overflows(input@),
    ensures
        parse_type_result(input@, r),
{
    match parse_type_text(input) {
        Ok(t) => Ok(t),
        Err(Failure::Error(err)) => Err(err),
        Err(Failure::NumberTooLarge) => Err(ParseError::new(0, String::new())),
    }
}

/// Parses the whole of `input` as one type, or gives `None` where the
/// parser reaches a number too large for 64 bits.
pub fn try_parse_type(input: &str) -> (r: Option<Result<Type, ParseError>>)
    ensures
        r is None <==> type_parse_overflows(input@),
        r matches Some(res) ==> parse_type_result(input@, res),
{
    match parse_type_text(input) {
        Err(Failure::NumberTooLarge) => None,
        _ => Some(parse_type(input)),
    }
}

} // verus!
