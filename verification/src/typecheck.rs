//! The type checker.
use vstd::prelude::*;
use crate::context::{Context, StackContext, ctx_lookup};
use crate::syntax::exprs::{Apply as SynApply, ArithOp, BinOp as SynBinOp, CmpOp, Expr, Fun, If as SynIf, LetRec, Literal};
use crate::syntax::ident::Ident;
use crate::syntax::show::{show_expr, show_type};
use crate::syntax::types::Type;

verus! {

/// A type error, with a message that says what is wrong.
#[derive(Debug)]
pub struct TypeError {
    pub message: String,
}

/// Variables and their types, the most recent last.
pub type TypeContext = Seq<(Seq<char>, Type)>;

pub open spec fn arrow(a: Type, r: Type) -> Type {
    Type::Arrow(Box::new(a), Box::new(r))
}

pub open spec fn expected_message(want: Type, got: Type) -> Seq<char> {
    "Expected "@ + show_type(want) + ", got "@ + show_type(got)
}

pub open spec fn arms_message(t1: Type, t2: Type) -> Seq<char> {
    "Arms of an if have different types: "@ + show_type(t1) + " "@ + show_type(t2)
}

/// The type of `e` in `ctx`, or the message of the first error met, checking
/// subexpressions from left to right:
/// - a variable has the type of its most recent binding;
/// - `+ - * /` take and give integers; `== < >` take integers and give a
///   boolean;
/// - `if` takes a boolean condition and two arms of one type;
/// - `fun f(x: a): r is body` has type `a -> r` where `body` has type `r`
///   with `x: a` and then `f: a -> r` bound;
/// - `let fun` binds the function's name to its type in the body;
/// - `let rec` binds all its functions' names to their declared types, in
///   the functions and in the body;
/// - an application takes a function of type `a -> r` and an argument of
///   type `a`, and gives `r`.
pub open spec fn type_of(ctx: TypeContext, e: Expr) -> Result<Type, Seq<char>>
    decreases e, 0nat,
{
    match e {
        Expr::Var(x) => match ctx_lookup(ctx, x@) {
            Some(t) => Ok(t),
            None => Err("Unbound variable: "@ + x@),
        },
        Expr::Literal(Literal::Number(_)) => Ok(Type::Int),
        Expr::Literal(Literal::Bool(_)) => Ok(Type::Bool),
        Expr::ArithBinOp(b) => match expect_type(ctx, b.lhs, Type::Int) {
            Err(m) => Err(m),
            Ok(_) => match expect_type(ctx, b.rhs, Type::Int) {
                Err(m) => Err(m),
                Ok(_) => Ok(Type::Int),
            },
        },
        Expr::CmpBinOp(b) => match expect_type(ctx, b.lhs, Type::Int) {
            Err(m) => Err(m),
            Ok(_) => match expect_type(ctx, b.rhs, Type::Int) {
                Err(m) => Err(m),
                Ok(_) => Ok(Type::Bool),
            },
        },
        Expr::If(i) => match expect_type(ctx, i.cond, Type::Bool) {
            Err(m) => Err(m),
            Ok(_) => match type_of(ctx, i.tru) {
                Err(m) => Err(m),
                Ok(t1) => match type_of(ctx, i.fls) {
                    Err(m) => Err(m),
                    Ok(t2) => if t1 != t2 { Err(arms_message(t1, t2)) } else { Ok(t1) },
                },
            },
        },
        Expr::Fun(f) => fun_type(ctx, f.fun_name@, f.arg_name@, f.arg_type, f.fun_type, f.body),
        Expr::LetFun(l) => match fun_type(ctx, l.fun.fun_name@, l.fun.arg_name@, l.fun.arg_type, l.fun.fun_type, l.fun.body) {
            Err(m) => Err(m),
            Ok(t) => type_of(ctx.push((l.fun.fun_name@, t)), l.body),
        },
        Expr::LetRec(l) => {
            let inner = rec_context(ctx, l.funs@, l.funs@.len() as int);
            match funs_check(inner, l.funs@, l.funs@.len() as int) {
                Err(m) => Err(m),
                Ok(_) => type_of(inner, l.body),
            }
        },
        Expr::Apply(a) => match type_of(ctx, a.fun) {
            Err(m) => Err(m),
            Ok(Type::Arrow(arg, ret)) => match expect_type(ctx, a.arg, *arg) {
                Err(m) => Err(m),
                Ok(_) => Ok(*ret),
            },
            Ok(_) => Err("Not a function "@ + show_expr(a.fun)),
        },
    }
}

/// `want` if `e` has type `want` in `ctx`; an error otherwise.
pub open spec fn expect_type(ctx: TypeContext, e: Expr, want: Type) -> Result<Type, Seq<char>>
    decreases e, 1nat,
{
    match type_of(ctx, e) {
        Err(m) => Err(m),
        Ok(t) => if t != want { Err(expected_message(want, t)) } else { Ok(want) },
    }
}

/// The type of a function, `arg_type -> fun_type`, if its body has type
/// `fun_type` with its argument and then its own name bound.
pub open spec fn fun_type(ctx: TypeContext, name: Seq<char>, arg: Seq<char>, arg_type: Type, ret: Type, body: Expr) -> Result<Type, Seq<char>>
    decreases body, 2nat,
{
    let t = arrow(arg_type, ret);
    match expect_type(ctx.push((arg, arg_type)).push((name, t)), body, ret) {
        Err(m) => Err(m),
        Ok(_) => Ok(t),
    }
}

/// `ctx` with the first `n` functions of `funs` bound to their declared types.
pub open spec fn rec_context(ctx: TypeContext, funs: Seq<Fun>, n: int) -> TypeContext
    decreases n,
{
    if n <= 0 || n > funs.len() {
        ctx
    } else {
        rec_context(ctx, funs, n - 1).push((funs[n - 1].fun_name@, arrow(funs[n - 1].arg_type, funs[n - 1].fun_type)))
    }
}

/// The first `n` functions of `funs` checked in `ctx`, in order.
pub open spec fn funs_check(ctx: TypeContext, funs: Seq<Fun>, n: int) -> Result<(), Seq<char>>
    decreases funs, n,
{
    if n <= 0 || n > funs.len() {
        Ok(())
    } else {
        match funs_check(ctx, funs, n - 1) {
            Err(m) => Err(m),
            Ok(_) => {
                let f = funs[n - 1];
                match fun_type(ctx, f.fun_name@, f.arg_name@, f.arg_type, f.fun_type, f.body) {
                    Err(m) => Err(m),
                    Ok(_) => Ok(()),
                }
            },
        }
    }
}

/// An error among the first `k` functions is the error of the whole group.
pub proof fn lemma_funs_check_err(ctx: TypeContext, funs: Seq<Fun>, k: int, n: int)
    requires
        0 < k <= n <= funs.len(),
        funs_check(ctx, funs, k) is Err,
    ensures
        funs_check(ctx, funs, n) == funs_check(ctx, funs, k),
    decreases n - k,
{
    if k < n {
        lemma_funs_check_err(ctx, funs, k, n - 1);
    }
}

// ---------------------------------------------------------------------------
// The checker

fn error_expected(want: &Type, got: &Type) -> (e: TypeError)
    ensures
        e.message@ == expected_message(*want, *got),
{
    let mut s = String::from_str("Expected ");
    want.write(&mut s);
    s.append(", got ");
    got.write(&mut s);
    assert(s@ =~= expected_message(*want, *got));
    TypeError { message: s }
}

fn error_arms(t1: &Type, t2: &Type) -> (e: TypeError)
    ensures
        e.message@ == arms_message(*t1, *t2),
{
    let mut s = String::from_str("Arms of an if have different types: ");
    t1.write(&mut s);
    s.append(" ");
    t2.write(&mut s);
    assert(s@ =~= arms_message(*t1, *t2));
    TypeError { message: s }
}

fn error_unbound(x: &Ident) -> (e: TypeError)
    ensures
        e.message@ == "Unbound variable: "@ + x@,
{
    let mut s = String::from_str("Unbound variable: ");
    s.append(x.as_str());
    TypeError { message: s }
}

fn error_not_a_function(f: &Expr) -> (e: TypeError)
    ensures
        e.message@ == "Not a function "@ + show_expr(*f),
{
    let mut s = String::from_str("Not a function ");
    f.write(&mut s);
    TypeError { message: s }
}

pub open spec fn spec_result(r: Result<Type, TypeError>) -> Result<Type, Seq<char>> {
    match r {
        Ok(t) => Ok(t),
        Err(e) => Err(e.message@),
    }
}

/// `want` if `expr` has type `want`.
fn expect(expr: &Expr, want: Type, ctx: &mut StackContext<Type>) -> (r: Result<Type, TypeError>)
    ensures
        spec_result(r) == expect_type(old(ctx).bindings(), *expr, want),
        r is Ok ==> final(ctx).bindings() == old(ctx).bindings(),
    decreases expr, 1nat,
{
    let t = match check(expr, ctx) {
        Ok(t) => t,
        Err(e) => return Err(e),
    };
    if !t.same(&want) {
        return Err(error_expected(&want, &t));
    }
    Ok(want)
}

/// Checks a function: its body must have its result type with its argument
/// and then its own name bound.
fn check_fun(fun: &Fun, ctx: &mut StackContext<Type>) -> (r: Result<Type, TypeError>)
    ensures
        spec_result(r) == fun_type(old(ctx).bindings(), fun.fun_name@, fun.arg_name@, fun.arg_type, fun.fun_type, fun.body),
        r is Ok ==> final(ctx).bindings() == old(ctx).bindings(),
    decreases fun.body, 2nat,
{
    let result = Type::arrow(fun.arg_type.copy(), fun.fun_type.copy());
    ctx.push(&fun.arg_name, fun.arg_type.copy());
    ctx.push(&fun.fun_name, result.copy());
    match expect(&fun.body, fun.fun_type.copy(), ctx) {
        Ok(_) => {},
        Err(e) => return Err(e),
    }
    ctx.pop();
    ctx.pop();
    assert(ctx.bindings() =~= old(ctx).bindings());
    Ok(result)
}

/// Checks a group of functions that may call each other, then its body.
fn check_let_rec(let_rec: &LetRec, ctx: &mut StackContext<Type>) -> (r: Result<Type, TypeError>)
    ensures
        spec_result(r) == type_of(old(ctx).bindings(), Expr::LetRec(Box::new(*let_rec))),
        r is Ok ==> final(ctx).bindings() == old(ctx).bindings(),
    decreases let_rec, 0nat,
{
    let ghost ctx0 = ctx.bindings();
    let n = let_rec.funs.len();
    let mut i: usize = 0;
    while i < n
        invariant
            n == let_rec.funs@.len(),
            i <= n,
            ctx0 == old(ctx).bindings(),
            ctx.bindings() == rec_context(ctx0, let_rec.funs@, i as int),
        decreases n - i,
    {
        let f = &let_rec.funs[i];
        ctx.push(&f.fun_name, Type::arrow(f.arg_type.copy(), f.fun_type.copy()));
        i += 1;
    }
    let ghost inner = ctx.bindings();
    let mut i: usize = 0;
    while i < n
        invariant
            n == let_rec.funs@.len(),
            i <= n,
            ctx0 == old(ctx).bindings(),
            ctx.bindings() == inner,
            inner == rec_context(ctx0, let_rec.funs@, n as int),
            funs_check(inner, let_rec.funs@, i as int) == Ok::<(), Seq<char>>(()),
        decreases n - i,
    {
        proof {
            assert(decreases_to!(let_rec => let_rec.funs@[i as int].body));
        }
        match check_fun(&let_rec.funs[i], ctx) {
            Ok(_) => {},
            Err(e) => {
                proof {
                    lemma_funs_check_err(inner, let_rec.funs@, i + 1, n as int);
                }
                return Err(e);
            },
        }
        i += 1;
    }
    let t = match check(&let_rec.body, ctx) {
        Ok(t) => t,
        Err(e) => return Err(e),
    };
    let mut i: usize = 0;
    while i < n
        invariant
            n == let_rec.funs@.len(),
            i <= n,
            ctx0 == old(ctx).bindings(),
            ctx.bindings() == rec_context(ctx0, let_rec.funs@, (n - i) as int),
        decreases n - i,
    {
        ctx.pop();
        i += 1;
    }
    Ok(t)
}

/// The type of `expr` in `ctx`.
fn check(expr: &Expr, ctx: &mut StackContext<Type>) -> (r: Result<Type, TypeError>)
    ensures
        spec_result(r) == type_of(old(ctx).bindings(), *expr),
        r is Ok ==> final(ctx).bindings() == old(ctx).bindings(),
    decreases expr, 0nat,
{
    match expr {
        Expr::Var(ident) => match ctx.lookup(ident) {
            Some(t) => Ok(t.copy()),
            None => Err(error_unbound(ident)),
        },
        Expr::Literal(Literal::Number(_)) => Ok(Type::Int),
        Expr::Literal(Literal::Bool(_)) => Ok(Type::Bool),
        Expr::ArithBinOp(op) => {
            match expect(&op.lhs, Type::Int, ctx) {
                Ok(_) => {},
                Err(e) => return Err(e),
            }
            match expect(&op.rhs, Type::Int, ctx) {
                Ok(_) => {},
                Err(e) => return Err(e),
            }
            Ok(Type::Int)
        },
        Expr::CmpBinOp(op) => {
            match expect(&op.lhs, Type::Int, ctx) {
                Ok(_) => {},
                Err(e) => return Err(e),
            }
            match expect(&op.rhs, Type::Int, ctx) {
                Ok(_) => {},
                Err(e) => return Err(e),
            }
            Ok(Type::Bool)
        },
        Expr::If(if_) => {
            match expect(&if_.cond, Type::Bool, ctx) {
                Ok(_) => {},
                Err(e) => return Err(e),
            }
            let t1 = match check(&if_.tru, ctx) {
                Ok(t) => t,
                Err(e) => return Err(e),
            };
            let t2 = match check(&if_.fls, ctx) {
                Ok(t) => t,
                Err(e) => return Err(e),
            };
            if !t1.same(&t2) {
                return Err(error_arms(&t1, &t2));
            }
            Ok(t1)
        },
        Expr::Fun(fun) => check_fun(fun, ctx),
        Expr::LetFun(let_fun) => {
            let fun_type = match check_fun(&let_fun.fun, ctx) {
                Ok(t) => t,
                Err(e) => return Err(e),
            };
            ctx.push(&let_fun.fun.fun_name, fun_type);
            let result = match check(&let_fun.body, ctx) {
                Ok(t) => t,
                Err(e) => return Err(e),
            };
            ctx.pop();
            assert(ctx.bindings() =~= old(ctx).bindings());
            Ok(result)
        },
        Expr::LetRec(let_rec) => check_let_rec(let_rec, ctx),
        Expr::Apply(apply) => {
            let t = match check(&apply.fun, ctx) {
                Ok(t) => t,
                Err(e) => return Err(e),
            };
            match t {
                Type::Arrow(arg, ret) => {
                    match expect(&apply.arg, *arg, ctx) {
                        Ok(_) => {},
                        Err(e) => return Err(e),
                    }
                    Ok(*ret)
                },
                _ => Err(error_not_a_function(&apply.fun)),
            }
        },
    }
}

/// The type of `expr`, or the first type error in it.
pub fn typecheck(expr: &Expr) -> (r: Result<Type, TypeError>)
    ensures
        spec_result(r) == type_of(Seq::empty(), *expr),
{
    let mut ctx: StackContext<Type> = StackContext::new();
    check(expr, &mut ctx)
}

// ---------------------------------------------------------------------------
// The typing rules, as the checker applies them

/// An application whose function has type `a -> r` and whose argument has
/// type `a` has type `r`, whatever type `a` is, a function type included;
/// and an application has a type only if its function has a function type
/// whose argument type is that of the argument.
pub proof fn law_application_type(ctx: TypeContext, f: Expr, x: Expr, a: Type, r: Type)
    ensures
        type_of(ctx, f) == Ok::<Type, Seq<char>>(arrow(a, r)) && type_of(ctx, x) == Ok::<Type, Seq<char>>(a)
            ==> type_of(ctx, Expr::Apply(Box::new(SynApply { fun: f, arg: x }))) == Ok::<Type, Seq<char>>(r),
        type_of(ctx, Expr::Apply(Box::new(SynApply { fun: f, arg: x }))) == Ok::<Type, Seq<char>>(r)
            ==> (type_of(ctx, f) matches Ok(Type::Arrow(ta, tr)) && *tr == r && type_of(ctx, x) == Ok::<Type, Seq<char>>(*ta)),
{
    reveal_with_fuel(type_of, 2);
    reveal_with_fuel(expect_type, 2);
    reveal_with_fuel(fun_type, 2);
}

/// Arithmetic takes two integers and gives an integer; a comparison takes
/// two integers and gives a boolean; and neither has a type otherwise.
pub proof fn law_operation_types(ctx: TypeContext, op: ArithOp, cop: CmpOp, l: Expr, r: Expr)
    ensures
        ({
            let a = type_of(ctx, Expr::ArithBinOp(Box::new(SynBinOp { kind: op, lhs: l, rhs: r })));
            let c = type_of(ctx, Expr::CmpBinOp(Box::new(SynBinOp { kind: cop, lhs: l, rhs: r })));
            let ints = type_of(ctx, l) == Ok::<Type, Seq<char>>(Type::Int) && type_of(ctx, r) == Ok::<Type, Seq<char>>(Type::Int);
            &&& (ints ==> a == Ok::<Type, Seq<char>>(Type::Int) && c == Ok::<Type, Seq<char>>(Type::Bool))
            &&& (!ints ==> a is Err && c is Err)
        }),
{
    reveal_with_fuel(type_of, 2);
    reveal_with_fuel(expect_type, 2);
    reveal_with_fuel(fun_type, 2);
}

/// A conditional with a boolean condition and two arms of type `t` has type
/// `t`, whatever `t` is; it has no type where the condition is not a
/// boolean or the arms differ.
pub proof fn law_if_type(ctx: TypeContext, c: Expr, x: Expr, y: Expr, t: Type)
    ensures
        ({
            let e = type_of(ctx, Expr::If(Box::new(SynIf { cond: c, tru: x, fls: y })));
            &&& (type_of(ctx, c) == Ok::<Type, Seq<char>>(Type::Bool) && type_of(ctx, x) == Ok::<Type, Seq<char>>(t)
                && type_of(ctx, y) == Ok::<Type, Seq<char>>(t) ==> e == Ok::<Type, Seq<char>>(t))
            &&& (e == Ok::<Type, Seq<char>>(t) ==> type_of(ctx, c) == Ok::<Type, Seq<char>>(Type::Bool)
                && type_of(ctx, x) == Ok::<Type, Seq<char>>(t) && type_of(ctx, y) == Ok::<Type, Seq<char>>(t))
        }),
{
    reveal_with_fuel(type_of, 2);
    reveal_with_fuel(expect_type, 2);
    reveal_with_fuel(fun_type, 2);
}

/// A function `fun f(x: a): r is body` has type `a -> r` exactly where its
/// body has type `r` with `x` bound to `a` and then `f` to `a -> r`.
pub proof fn law_function_type(ctx: TypeContext, f: Fun)
    ensures
        type_of(ctx, Expr::Fun(Box::new(f))) is Ok <==> type_of(
            ctx.push((f.arg_name@, f.arg_type)).push((f.fun_name@, arrow(f.arg_type, f.fun_type))),
            f.body,
        ) == Ok::<Type, Seq<char>>(f.fun_type),
        type_of(ctx, Expr::Fun(Box::new(f))) is Ok ==> type_of(ctx, Expr::Fun(Box::new(f)))
            == Ok::<Type, Seq<char>>(arrow(f.arg_type, f.fun_type)),
{
    let ctx2 = ctx.push((f.arg_name@, f.arg_type)).push((f.fun_name@, arrow(f.arg_type, f.fun_type)));
    let ft = fun_type(ctx, f.fun_name@, f.arg_name@, f.arg_type, f.fun_type, f.body);
    assert(type_of(ctx, Expr::Fun(Box::new(f))) == ft);
    assert(expect_type(ctx2, f.body, f.fun_type) is Ok <==> type_of(ctx2, f.body) == Ok::<Type, Seq<char>>(f.fun_type));
    assert(ft is Ok <==> expect_type(ctx2, f.body, f.fun_type) is Ok);
}

/// A variable has the type of its most recent binding, and a literal the
/// type of its kind.
pub proof fn law_leaf_types(ctx: TypeContext, x: Ident, n: i64, b: bool)
    ensures
        ctx_lookup(ctx, x@) matches Some(t) ==> type_of(ctx, Expr::Var(x)) == Ok::<Type, Seq<char>>(t),
        ctx_lookup(ctx, x@) is None ==> type_of(ctx, Expr::Var(x)) is Err,
        type_of(ctx, Expr::Literal(Literal::Number(n))) == Ok::<Type, Seq<char>>(Type::Int),
        type_of(ctx, Expr::Literal(Literal::Bool(b))) == Ok::<Type, Seq<char>>(Type::Bool),
{
    reveal_with_fuel(type_of, 2);
    reveal_with_fuel(expect_type, 2);
    reveal_with_fuel(fun_type, 2);
}

} // verus!
