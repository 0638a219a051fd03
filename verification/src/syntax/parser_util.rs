//! Constructors of expressions, as the parser builds them.
use vstd::prelude::*;
use crate::syntax::exprs::{ArithBinOp, ArithOp, Apply, CmpBinOp, CmpOp, Expr, Fun, If, LetFun, LetRec};
use crate::syntax::ident::Ident;
use crate::syntax::types::Type;

verus! {

/// `l op r`.
pub fn arith_op(l: Expr, op: ArithOp, r: Expr) -> (e: Expr)
    ensures
        e == Expr::ArithBinOp(Box::new(ArithBinOp { kind: op, lhs: l, rhs: r })),
{
    Expr::ArithBinOp(Box::new(ArithBinOp { kind: op, lhs: l, rhs: r }))
}

/// `l op r`.
pub fn cmp_op(l: Expr, op: CmpOp, r: Expr) -> (e: Expr)
    ensures
        e == Expr::CmpBinOp(Box::new(CmpBinOp { kind: op, lhs: l, rhs: r })),
{
    Expr::CmpBinOp(Box::new(CmpBinOp { kind: op, lhs: l, rhs: r }))
}

/// `if cond then tru else fls`.
pub fn if_expr(cond: Expr, tru: Expr, fls: Expr) -> (e: Expr)
    ensures
        e == Expr::If(Box::new(If { cond, tru, fls })),
{
    Expr::If(Box::new(If { cond, tru, fls }))
}

/// `fun name(arg_name: arg_type): fun_type is body`.
pub fn fun(name: Ident, arg_name: Ident, arg_type: Type, fun_type: Type, body: Expr) -> (f: Fun)
    ensures
        f == (Fun { fun_name: name, arg_name, arg_type, fun_type, body }),
{
    Fun { fun_name: name, arg_name, arg_type, fun_type, body }
}

/// `let fun ... in body`.
pub fn let_fun_expr(fun: Fun, body: Expr) -> (e: Expr)
    ensures
        e == Expr::LetFun(Box::new(LetFun { fun, body })),
{
    Expr::LetFun(Box::new(LetFun { fun, body }))
}

/// `let rec` of `funs` followed by `last_fun`, in `body`.
pub fn let_rec_expr(funs: Vec<Fun>, last_fun: Fun, body: Expr) -> (e: Expr)
    ensures
        e matches Expr::LetRec(l) && l.funs@ == funs@.push(last_fun) && l.body == body,
{
    let mut funs = funs;
    funs.push(last_fun);
    Expr::LetRec(Box::new(LetRec { funs, body }))
}

/// `fun arg`.
pub fn application(fun: Expr, arg: Expr) -> (e: Expr)
    ensures
        e == Expr::Apply(Box::new(Apply { fun, arg })),
{
    Expr::Apply(Box::new(Apply { fun, arg }))
}

} // verus!
