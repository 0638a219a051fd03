//! The expressions of the language.
use vstd::prelude::*;
use crate::syntax::ident::Ident;
use crate::syntax::types::Type;

verus! {

/// An expression.
#[derive(Debug)]
pub enum Expr {
    Var(Ident),
    Literal(Literal),
    ArithBinOp(Box<ArithBinOp>),
    CmpBinOp(Box<CmpBinOp>),
    If(Box<If>),
    Fun(Box<Fun>),
    LetFun(Box<LetFun>),
    LetRec(Box<LetRec>),
    Apply(Box<Apply>),
}

/// A binary operation of kind `T`.
#[derive(Debug)]
pub struct BinOp<T> {
    pub kind: T,
    pub lhs: Expr,
    pub rhs: Expr,
}

/// Arithmetic operators.
#[derive(Clone, Copy, Debug, PartialEq, Eq)]
pub enum ArithOp {
    Mul,
    Div,
    Add,
    Sub,
}

pub type ArithBinOp = BinOp<ArithOp>;

/// Comparison operators.
#[derive(Clone, Copy, Debug, PartialEq, Eq)]
pub enum CmpOp {
    Eq,
    Lt,
    Gt,
}

pub type CmpBinOp = BinOp<CmpOp>;

/// `if cond then tru else fls`.
#[derive(Debug)]
pub struct If {
    pub cond: Expr,
    pub tru: Expr,
    pub fls: Expr,
}

/// `fun fun_name(arg_name: arg_type): fun_type is body`: a function that
/// may call itself by its name; `fun_type` is the type of its result.
#[derive(Debug)]
pub struct Fun {
    pub fun_name: Ident,
    pub arg_name: Ident,
    pub arg_type: Type,
    pub fun_type: Type,
    pub body: Expr,
}

/// `let fun ... in body`.
#[derive(Debug)]
pub struct LetFun {
    pub fun: Fun,
    pub body: Expr,
}

/// `let rec fun ... and fun ... in body`: functions that may call each other.
#[derive(Debug)]
pub struct LetRec {
    pub funs: Vec<Fun>,
    pub body: Expr,
}

/// The application of a function to an argument.
#[derive(Debug)]
pub struct Apply {
    pub fun: Expr,
    pub arg: Expr,
}

/// A literal.
#[derive(Clone, Copy, Debug, PartialEq, Eq)]
pub enum Literal {
    Number(i64),
    Bool(bool),
}

/// The number of places where an identifier is written in `e`.
pub open spec fn ident_count(e: Expr) -> nat
    decreases e,
{
    match e {
        Expr::Var(_) => 1,
        Expr::Literal(_) => 0,
        Expr::ArithBinOp(b) => ident_count(b.lhs) + ident_count(b.rhs),
        Expr::CmpBinOp(b) => ident_count(b.lhs) + ident_count(b.rhs),
        Expr::If(i) => ident_count(i.cond) + ident_count(i.tru) + ident_count(i.fls),
        Expr::Fun(f) => 2 + ident_count(f.body),
        Expr::LetFun(l) => 3 + ident_count(l.fun.body) + ident_count(l.body),
        Expr::LetRec(l) => funs_ident_count(l.funs@, l.funs@.len() as int) + ident_count(l.body),
        Expr::Apply(a) => ident_count(a.fun) + ident_count(a.arg),
    }
}

/// The number of places where an identifier is written in the first `n`
/// functions of `funs`.
pub open spec fn funs_ident_count(funs: Seq<Fun>, n: int) -> nat
    decreases funs, n,
{
    if n <= 0 || n > funs.len() {
        0
    } else {
        funs_ident_count(funs, n - 1) + 2 + ident_count(funs[n - 1].body)
    }
}

} // verus!
