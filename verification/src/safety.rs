//! Type safety: the code of a well-typed expression without `let rec` runs
//! to a value of its type, or stops on a division by zero, an arithmetic
//! overflow or the step limit, and never on a run-time type error.
//!
//! The proof types machine code as a transformer of the types on the value
//! stack, shows that the compiled code of a well-typed expression has such a
//! type, and keeps a typing of the whole machine state through every step.
use vstd::prelude::*;
use crate::compile::{code_len, compiled};
use crate::context::{ctx_lookup, lemma_lookup_push, lemma_lookup_push_other};
use crate::ir::{lemma_name_pos_from, lemma_rename_lookup, name_pos_from, rename_lookup, spec_desugar, spec_desugar_fun, ANON_NAME, Ir, MAX_IDENTS};
use crate::machine::program::{Frame, Instruction, Name};
use crate::machine::semantics::{fetch, initial_state, outcome, run, step, step_budget, Fault, MState, Observed, Outcome, SEnv, Stop, SValue};
use crate::syntax::exprs::{Expr, Fun, Literal, ident_count};
use crate::syntax::types::Type;
use crate::typecheck::{arrow, expect_type, fun_type, type_of, TypeContext};

verus! {

/// The types of the variables of an environment.
pub type TyEnv = Map<Name, Type>;

/// What the typing of an instruction cannot read off the code: the types
/// of a closure, and the annotations of nested frames.
pub enum Ann {
    Plain,
    Branch(Seq<Ann>, Seq<Ann>),
    Closure(Type, Type, Seq<Ann>),
}

/// The types on the value stack after `c`, started on a stack of types `s`
/// in an environment typed by `g`, with the annotations `ann`; `None` where
/// the code is not typed so.
pub open spec fn seq_out(c: Seq<Instruction>, g: TyEnv, s: Seq<Type>, ann: Seq<Ann>) -> Option<Seq<Type>>
    decreases c, 0nat,
{
    if c.len() == 0 {
        Some(s)
    } else if ann.len() == 0 {
        None
    } else {
        match inst_out(c[0], g, s, ann[0]) {
            None => None,
            Some(s1) => seq_out(c.drop_first(), g, s1, ann.drop_first()),
        }
    }
}

/// The types on the value stack after one instruction.
pub open spec fn inst_out(i: Instruction, g: TyEnv, s: Seq<Type>, a: Ann) -> Option<Seq<Type>>
    decreases i, 1nat,
{
    let n = s.len();
    match i {
        Instruction::ArithInstruction(_) => if n >= 2 && s[n - 1] == Type::Int && s[n - 2] == Type::Int {
            Some(s.drop_last().drop_last().push(Type::Int))
        } else {
            None
        },
        Instruction::CmpInstruction(_) => if n >= 2 && s[n - 1] == Type::Int && s[n - 2] == Type::Int {
            Some(s.drop_last().drop_last().push(Type::Bool))
        } else {
            None
        },
        Instruction::PushInt(_) => Some(s.push(Type::Int)),
        Instruction::PushBool(_) => Some(s.push(Type::Bool)),
        Instruction::Branch(x, y) => match a {
            Ann::Branch(ax, ay) => if n >= 1 && s[n - 1] == Type::Bool && x@.len() > 0 && y@.len() > 0 {
                let o = seq_out(x@, g, s.drop_last(), ax);
                if o is Some && o == seq_out(y@, g, s.drop_last(), ay) {
                    o
                } else {
                    None
                }
            } else {
                None
            },
            _ => None,
        },
        Instruction::Var(x) => if g.contains_key(x) {
            Some(s.push(g[x]))
        } else {
            None
        },
        Instruction::Closure { name, arg, frame } => match a {
            Ann::Closure(ta, tr, af) => {
                let f = frame@;
                if f.len() > 0 && f.last() == Instruction::PopEnv
                    && seq_out(f.drop_last(), g.insert(name, arrow(ta, tr)).insert(arg, ta), seq![], af) == Some(seq![tr]) {
                    Some(s.push(arrow(ta, tr)))
                } else {
                    None
                }
            },
            _ => None,
        },
        Instruction::Call => if n >= 2 && s[n - 2] is Arrow && *s[n - 2]->Arrow_0 == s[n - 1] {
            Some(s.drop_last().drop_last().push(*s[n - 2]->Arrow_1))
        } else {
            None
        },
        Instruction::PopEnv => None,
    }
}

/// Code keeps its type below any values that it does not reach.
pub proof fn lemma_seq_frame(c: Seq<Instruction>, g: TyEnv, s: Seq<Type>, ann: Seq<Ann>, p: Seq<Type>)
    requires
        seq_out(c, g, s, ann) is Some,
    ensures
        seq_out(c, g, p + s, ann) == Some(p + seq_out(c, g, s, ann)->0),
    decreases c, 0nat,
{
    if c.len() > 0 {
        let s1 = inst_out(c[0], g, s, ann[0])->0;
        lemma_inst_frame(c[0], g, s, ann[0], p);
        lemma_seq_frame(c.drop_first(), g, s1, ann.drop_first(), p);
    }
}

pub proof fn lemma_inst_frame(i: Instruction, g: TyEnv, s: Seq<Type>, a: Ann, p: Seq<Type>)
    requires
        inst_out(i, g, s, a) is Some,
    ensures
        inst_out(i, g, p + s, a) == Some(p + inst_out(i, g, s, a)->0),
    decreases i, 1nat,
{
    let n = s.len();
    let ps = p + s;
    let t = inst_out(i, g, s, a)->0;
    match i {
        Instruction::ArithInstruction(_) | Instruction::CmpInstruction(_) | Instruction::Call => {
            assert(ps[ps.len() - 1] == s[n - 1]);
            assert(ps[ps.len() - 2] == s[n - 2]);
            assert(p + t =~= ps.drop_last().drop_last().push(t.last()));
        },
        Instruction::PushInt(_) | Instruction::PushBool(_) | Instruction::Var(_) | Instruction::Closure { .. } => {
            assert(p + t =~= ps.push(t.last()));
        },
        Instruction::Branch(x, y) => {
            let ax = a->Branch_0;
            let ay = a->Branch_1;
            assert(ps[ps.len() - 1] == s[n - 1]);
            assert(ps.drop_last() =~= p + s.drop_last());
            lemma_seq_frame(x@, g, s.drop_last(), ax, p);
            lemma_seq_frame(y@, g, s.drop_last(), ay, p);
        },
        Instruction::PopEnv => {},
    }
}

/// Code typed from `s` to `m`, followed by code typed from `m` to `t`, is
/// typed from `s` to `t`.
pub proof fn lemma_seq_concat(c1: Seq<Instruction>, c2: Seq<Instruction>, g: TyEnv, s: Seq<Type>, a1: Seq<Ann>, a2: Seq<Ann>)
    requires
        a1.len() == c1.len(),
        seq_out(c1, g, s, a1) is Some,
    ensures
        seq_out(c1 + c2, g, s, a1 + a2) == seq_out(c2, g, seq_out(c1, g, s, a1)->0, a2),
    decreases c1.len(),
{
    if c1.len() == 0 {
        assert(c1 + c2 =~= c2);
        assert(a1 + a2 =~= a2);
    } else {
        let s1 = inst_out(c1[0], g, s, a1[0])->0;
        lemma_seq_concat(c1.drop_first(), c2, g, s1, a1.drop_first(), a2);
        assert((c1 + c2).drop_first() =~= c1.drop_first() + c2);
        assert((a1 + a2).drop_first() =~= a1.drop_first() + a2);
        assert((c1 + c2)[0] == c1[0]);
        assert((a1 + a2)[0] == a1[0]);
    }
}

/// One instruction on its own.
pub proof fn lemma_seq_one(i: Instruction, g: TyEnv, s: Seq<Type>, a: Ann)
    ensures
        seq_out(seq![i], g, s, seq![a]) == inst_out(i, g, s, a),
{
    assert(seq![i].drop_first() =~= Seq::<Instruction>::empty());
    assert(seq![a].drop_first() =~= Seq::<Ann>::empty());
    if let Some(s1) = inst_out(i, g, s, a) {
        assert(seq_out(Seq::<Instruction>::empty(), g, s1, Seq::<Ann>::empty()) == Some(s1));
    }
}

// ---------------------------------------------------------------------------
// The code of a well-typed expression

/// `e` holds no `let rec`, and no function whose argument is spelled like
/// the function itself (the argument would hide the function in its body,
/// while the machine binds the argument first and the function over it).
pub open spec fn no_rec_no_shadow(e: Expr) -> bool
    decreases e,
{
    match e {
        Expr::Var(_) => true,
        Expr::Literal(_) => true,
        Expr::ArithBinOp(b) => no_rec_no_shadow(b.lhs) && no_rec_no_shadow(b.rhs),
        Expr::CmpBinOp(b) => no_rec_no_shadow(b.lhs) && no_rec_no_shadow(b.rhs),
        Expr::If(i) => no_rec_no_shadow(i.cond) && no_rec_no_shadow(i.tru) && no_rec_no_shadow(i.fls),
        Expr::Fun(f) => f.fun_name@ != f.arg_name@ && no_rec_no_shadow(f.body),
        Expr::LetFun(l) => l.fun.fun_name@ != l.fun.arg_name@ && no_rec_no_shadow(l.fun.body) && no_rec_no_shadow(l.body),
        Expr::LetRec(_) => false,
        Expr::Apply(a) => no_rec_no_shadow(a.fun) && no_rec_no_shadow(a.arg),
    }
}

/// The name that the renamer gives `y` once it has met the identifiers
/// `names`.
pub open spec fn name_of(names: Seq<Seq<char>>, y: Seq<char>) -> Name {
    (2 * name_pos_from(names, y, 0)) as Name
}

/// The environment typing `g` gives each variable of `ctx` its type under
/// the name that the renamer gives it.
pub open spec fn ctx_ok(ctx: TypeContext, names: Seq<Seq<char>>, g: TyEnv) -> bool {
    forall|y: Seq<char>| #[trigger] ctx_lookup(ctx, y) is Some ==> {
        &&& name_pos_from(names, y, 0) < names.len()
        &&& g.contains_key(name_of(names, y))
        &&& g[name_of(names, y)] == ctx_lookup(ctx, y)->0
    }
}

pub open spec fn extends(n: Seq<Seq<char>>, n1: Seq<Seq<char>>) -> bool {
    n.len() <= n1.len() && forall|i: int| 0 <= i < n.len() ==> n1[i] == n[i]
}

proof fn lemma_pos_at(n: Seq<Seq<char>>, y: Seq<char>, k: int)
    requires
        n.no_duplicates(),
        0 <= k < n.len(),
        n[k] == y,
    ensures
        name_pos_from(n, y, 0) == k,
{
    lemma_name_pos_from(n, y, 0);
}

proof fn lemma_pos_extends(n: Seq<Seq<char>>, n1: Seq<Seq<char>>, y: Seq<char>)
    requires
        extends(n, n1),
        name_pos_from(n, y, 0) < n.len(),
    ensures
        name_pos_from(n1, y, 0) == name_pos_from(n, y, 0),
{
    lemma_name_pos_from(n, y, 0);
    lemma_name_pos_from(n1, y, 0);
    let p = name_pos_from(n, y, 0);
    let p1 = name_pos_from(n1, y, 0);
    assert(n1[p] == y);
    assert(p1 <= p);
    assert(n[p1] == y);
}

/// Distinct identifiers that the renamer has met get distinct names.
proof fn lemma_names_differ(n: Seq<Seq<char>>, x: Seq<char>, y: Seq<char>)
    requires
        n.len() <= MAX_IDENTS,
        x != y,
        name_pos_from(n, x, 0) < n.len(),
        name_pos_from(n, y, 0) < n.len(),
    ensures
        name_of(n, x) != name_of(n, y),
        name_of(n, x) % 2 == 0,
{
    lemma_name_pos_from(n, x, 0);
    lemma_name_pos_from(n, y, 0);
}

proof fn lemma_ctx_extends(ctx: TypeContext, n: Seq<Seq<char>>, n1: Seq<Seq<char>>, g: TyEnv)
    requires
        ctx_ok(ctx, n, g),
        extends(n, n1),
    ensures
        ctx_ok(ctx, n1, g),
{
    assert forall|y: Seq<char>| #[trigger] ctx_lookup(ctx, y) is Some implies {
        &&& name_pos_from(n1, y, 0) < n1.len()
        &&& g.contains_key(name_of(n1, y))
        &&& g[name_of(n1, y)] == ctx_lookup(ctx, y)->0
    } by {
        lemma_pos_extends(n, n1, y);
    }
}

/// What the renamer does when it meets `x`, in the terms above.
proof fn lemma_lookup_extends(n: Seq<Seq<char>>, x: Seq<char>)
    requires
        n.no_duplicates(),
        n.len() < MAX_IDENTS,
    ensures
        ({
            let (n1, a) = rename_lookup(n, x);
            &&& n1.no_duplicates()
            &&& extends(n, n1)
            &&& n1.len() <= n.len() + 1
            &&& name_pos_from(n1, x, 0) < n1.len()
            &&& a == name_of(n1, x)
        }),
{
    lemma_rename_lookup(n, x);
    let (n1, a) = rename_lookup(n, x);
    lemma_pos_at(n1, x, (a / 2) as int);
}

/// The translation only adds identifiers to those met so far.
pub proof fn lemma_desugar_extends(e: Expr, names: Seq<Seq<char>>)
    requires
        no_rec_no_shadow(e),
        names.no_duplicates(),
        names.len() + ident_count(e) <= MAX_IDENTS,
    ensures
        spec_desugar(e, names).1.no_duplicates(),
        extends(names, spec_desugar(e, names).1),
        spec_desugar(e, names).1.len() <= names.len() + ident_count(e),
    decreases e, 0nat,
{
    match e {
        Expr::Var(v) => {
            lemma_lookup_extends(names, v@);
        },
        Expr::Literal(_) => {},
        Expr::ArithBinOp(b) => {
            lemma_desugar_extends(b.lhs, names);
            lemma_desugar_extends(b.rhs, spec_desugar(b.lhs, names).1);
        },
        Expr::CmpBinOp(b) => {
            lemma_desugar_extends(b.lhs, names);
            lemma_desugar_extends(b.rhs, spec_desugar(b.lhs, names).1);
        },
        Expr::If(i) => {
            lemma_desugar_extends(i.cond, names);
            let n1 = spec_desugar(i.cond, names).1;
            lemma_desugar_extends(i.tru, n1);
            lemma_desugar_extends(i.fls, spec_desugar(i.tru, n1).1);
        },
        Expr::Fun(f) => {
            lemma_fun_extends(f.fun_name@, f.arg_name@, f.body, names);
        },
        Expr::LetFun(l) => {
            lemma_fun_extends(l.fun.fun_name@, l.fun.arg_name@, l.fun.body, names);
            let n1 = spec_desugar_fun(l.fun.fun_name@, l.fun.arg_name@, l.fun.body, names).1;
            lemma_desugar_extends(l.body, n1);
            lemma_lookup_extends(spec_desugar(l.body, n1).1, l.fun.fun_name@);
        },
        Expr::LetRec(_) => {},
        Expr::Apply(a) => {
            lemma_desugar_extends(a.fun, names);
            lemma_desugar_extends(a.arg, spec_desugar(a.fun, names).1);
        },
    }
}

proof fn lemma_fun_extends(f: Seq<char>, x: Seq<char>, body: Expr, names: Seq<Seq<char>>)
    requires
        no_rec_no_shadow(body),
        names.no_duplicates(),
        names.len() + 2 + ident_count(body) <= MAX_IDENTS,
    ensures
        spec_desugar_fun(f, x, body, names).1.no_duplicates(),
        extends(names, spec_desugar_fun(f, x, body, names).1),
        spec_desugar_fun(f, x, body, names).1.len() <= names.len() + 2 + ident_count(body),
        ({
            let n2 = rename_lookup(rename_lookup(names, f).0, x).0;
            &&& extends(n2, spec_desugar_fun(f, x, body, names).1)
            &&& n2.no_duplicates()
            &&& n2.len() <= names.len() + 2
        }),
    decreases body, 1nat,
{
    lemma_lookup_extends(names, f);
    let n1 = rename_lookup(names, f).0;
    lemma_lookup_extends(n1, x);
    let n2 = rename_lookup(n1, x).0;
    lemma_desugar_extends(body, n2);
}

/// The code of a function: one closure instruction, whose frame has the
/// function's type.
proof fn lemma_fun_typed(ctx: TypeContext, fun: Fun, names: Seq<Seq<char>>, g: TyEnv, code: Seq<Instruction>) -> (ann: Seq<Ann>)
    requires
        fun.fun_name@ != fun.arg_name@,
        no_rec_no_shadow(fun.body),
        names.no_duplicates(),
        names.len() + 2 + ident_count(fun.body) <= MAX_IDENTS,
        ctx_ok(ctx, names, g),
        fun_type(ctx, fun.fun_name@, fun.arg_name@, fun.arg_type, fun.fun_type, fun.body) is Ok,
        compiled(Ir::Fun(Box::new(spec_desugar_fun(fun.fun_name@, fun.arg_name@, fun.body, names).0)), code),
    ensures
        ann.len() == code.len(),
        seq_out(code, g, seq![], ann) == Some(seq![arrow(fun.arg_type, fun.fun_type)]),
    decreases fun.body, 3nat,
{
    let f = fun.fun_name@;
    let x = fun.arg_name@;
    let a = fun.arg_type;
    let r = fun.fun_type;
    let ta = arrow(a, r);
    lemma_fun_extends(f, x, fun.body, names);
    lemma_lookup_extends(names, f);
    let (n1, nf) = rename_lookup(names, f);
    lemma_lookup_extends(n1, x);
    let (n2, nx) = rename_lookup(n1, x);
    lemma_pos_extends(n1, n2, f);
    lemma_names_differ(n2, f, x);
    let ctx2 = ctx.push((x, a)).push((f, ta));
    let g2 = g.insert(nf, ta).insert(nx, a);
    lemma_ctx_extends(ctx, names, n1, g);
    lemma_ctx_extends(ctx, n1, n2, g);
    assert forall|y: Seq<char>| #[trigger] ctx_lookup(ctx2, y) is Some implies {
        &&& name_pos_from(n2, y, 0) < n2.len()
        &&& g2.contains_key(name_of(n2, y))
        &&& g2[name_of(n2, y)] == ctx_lookup(ctx2, y)->0
    } by {
        if y == f {
            lemma_lookup_push(ctx.push((x, a)), f, ta);
        } else {
            lemma_lookup_push_other(ctx.push((x, a)), y, f, ta);
            if y == x {
                lemma_lookup_push(ctx, x, a);
            } else {
                lemma_lookup_push_other(ctx, y, x, a);
                assert(ctx_lookup(ctx, y) is Some);
                lemma_names_differ(n2, y, f);
                lemma_names_differ(n2, y, x);
            }
        }
    }
    let i = code[0];
    let frame = i->frame;
    assert(expect_type(ctx2, fun.body, r) is Ok);
    let ab = lemma_code_typed(ctx2, fun.body, n2, g2, r, frame@.drop_last());
    let an = Ann::Closure(a, r, ab);
    assert(inst_out(i, g, seq![], an) == Some(seq![ta]));
    lemma_seq_one(i, g, seq![], an);
    assert(code =~= seq![i]);
    seq![an]
}

/// The code of a well-typed expression without `let rec` leaves one value
/// of the expression's type on the stack, in an environment that types the
/// expression's variables as the type checker's context does.
#[verifier::rlimit(60)]
pub proof fn lemma_code_typed(ctx: TypeContext, e: Expr, names: Seq<Seq<char>>, g: TyEnv, t: Type, code: Seq<Instruction>) -> (ann: Seq<Ann>)
    requires
        no_rec_no_shadow(e),
        names.no_duplicates(),
        names.len() + ident_count(e) <= MAX_IDENTS,
        ctx_ok(ctx, names, g),
        type_of(ctx, e) == Ok::<Type, Seq<char>>(t),
        compiled(spec_desugar(e, names).0, code),
    ensures
        ann.len() == code.len(),
        seq_out(code, g, seq![], ann) == Some(seq![t]),
    decreases e, 2nat,
{
    match e {
        Expr::Var(v) => {
            assert(ctx_lookup(ctx, v@) == Some(t));
            assert(name_pos_from(names, v@, 0) < names.len());
            lemma_name_pos_from(names, v@, 0);
            lemma_pos_at(names, v@, name_pos_from(names, v@, 0));
            assert(code =~= seq![code[0]]);
            lemma_seq_one(code[0], g, seq![], Ann::Plain);
            seq![Ann::Plain]
        },
        Expr::Literal(Literal::Number(_)) | Expr::Literal(Literal::Bool(_)) => {
            assert(code =~= seq![code[0]]);
            lemma_seq_one(code[0], g, seq![], Ann::Plain);
            seq![Ann::Plain]
        },
        Expr::ArithBinOp(b) => {
            let (l, n1) = spec_desugar(b.lhs, names);
            lemma_desugar_extends(b.lhs, names);
            lemma_ctx_extends(ctx, names, n1, g);
            let kk = code_len(l) as int;
            assert(expect_type(ctx, b.lhs, Type::Int) is Ok);
            assert(expect_type(ctx, b.rhs, Type::Int) is Ok);
            let al = lemma_code_typed(ctx, b.lhs, names, g, Type::Int, code.take(kk));
            let ar = lemma_code_typed(ctx, b.rhs, n1, g, Type::Int, code.subrange(kk, code.len() - 1));
            assert(seq![Type::Int, Type::Int].drop_last().drop_last().push(Type::Int) =~= seq![Type::Int]);
            binary_code(code, kk, g, al, ar, Type::Int, Type::Int, Type::Int)
        },
        Expr::CmpBinOp(b) => {
            let (l, n1) = spec_desugar(b.lhs, names);
            lemma_desugar_extends(b.lhs, names);
            lemma_ctx_extends(ctx, names, n1, g);
            let kk = code_len(l) as int;
            assert(expect_type(ctx, b.lhs, Type::Int) is Ok);
            assert(expect_type(ctx, b.rhs, Type::Int) is Ok);
            let al = lemma_code_typed(ctx, b.lhs, names, g, Type::Int, code.take(kk));
            let ar = lemma_code_typed(ctx, b.rhs, n1, g, Type::Int, code.subrange(kk, code.len() - 1));
            assert(seq![Type::Int, Type::Int].drop_last().drop_last().push(Type::Bool) =~= seq![Type::Bool]);
            binary_code(code, kk, g, al, ar, Type::Int, Type::Int, Type::Bool)
        },
        Expr::If(i) => {
            let (c, n1) = spec_desugar(i.cond, names);
            lemma_desugar_extends(i.cond, names);
            lemma_ctx_extends(ctx, names, n1, g);
            let (tt, n2) = spec_desugar(i.tru, n1);
            lemma_desugar_extends(i.tru, n1);
            lemma_ctx_extends(ctx, n1, n2, g);
            let br = code.last();
            let tc = br->Branch_0;
            let fc = br->Branch_1;
            assert(expect_type(ctx, i.cond, Type::Bool) is Ok);
            let ac = lemma_code_typed(ctx, i.cond, names, g, Type::Bool, code.drop_last());
            let at = lemma_code_typed(ctx, i.tru, n1, g, t, tc@);
            let af = lemma_code_typed(ctx, i.fls, n2, g, t, fc@);
            let an = Ann::Branch(at, af);
            assert(inst_out(br, g, seq![Type::Bool], an) == Some(seq![t])) by {
                assert(seq![Type::Bool].drop_last() =~= Seq::<Type>::empty());
            }
            lemma_seq_one(br, g, seq![Type::Bool], an);
            lemma_seq_concat(code.drop_last(), seq![br], g, seq![], ac, seq![an]);
            assert(code.drop_last() + seq![br] =~= code);
            ac + seq![an]
        },
        Expr::Fun(f) => {
            lemma_fun_typed(ctx, *f, names, g, code)
        },
        Expr::LetFun(_) => {
            lemma_let_fun_typed(ctx, e, names, g, t, code)
        },
        Expr::LetRec(_) => {
            Seq::empty()
        },
        Expr::Apply(a) => {
            let (fi, n1) = spec_desugar(a.fun, names);
            lemma_desugar_extends(a.fun, names);
            lemma_ctx_extends(ctx, names, n1, g);
            let ft = type_of(ctx, a.fun)->Ok_0;
            let ta = *ft->Arrow_0;
            assert(ft is Arrow && *ft->Arrow_1 == t);
            assert(expect_type(ctx, a.arg, ta) is Ok);
            assert(seq![ft, ta].drop_last().drop_last().push(t) =~= seq![t]);
            let kk = code_len(fi) as int;
            let af = lemma_code_typed(ctx, a.fun, names, g, ft, code.take(kk));
            let aa = lemma_code_typed(ctx, a.arg, n1, g, ta, code.subrange(kk, code.len() - 1));
            binary_code(code, kk, g, af, aa, ft, ta, t)
        },
    }
}

/// The code of `let fun f ... in body`: a closure of `f` whose body is the
/// body of the `let`, the closure of the function, and the call.
proof fn lemma_let_fun_typed(ctx: TypeContext, e: Expr, names: Seq<Seq<char>>, g: TyEnv, t: Type, code: Seq<Instruction>) -> (ann: Seq<Ann>)
    requires
        e is LetFun,
        no_rec_no_shadow(e),
        names.no_duplicates(),
        names.len() + ident_count(e) <= MAX_IDENTS,
        ctx_ok(ctx, names, g),
        type_of(ctx, e) == Ok::<Type, Seq<char>>(t),
        compiled(spec_desugar(e, names).0, code),
    ensures
        ann.len() == code.len(),
        seq_out(code, g, seq![], ann) == Some(seq![t]),
    decreases e, 1nat,
{
    let l = e->LetFun_0;
    let fun = l.fun;
    let ft = arrow(fun.arg_type, fun.fun_type);
    let (fir, n1) = spec_desugar_fun(fun.fun_name@, fun.arg_name@, fun.body, names);
    lemma_fun_extends(fun.fun_name@, fun.arg_name@, fun.body, names);
    let (bd, n2) = spec_desugar(l.body, n1);
    lemma_desugar_extends(l.body, n1);
    lemma_lookup_extends(names, fun.fun_name@);
    lemma_lookup_extends(rename_lookup(names, fun.fun_name@).0, fun.arg_name@);
    let nn = rename_lookup(rename_lookup(names, fun.fun_name@).0, fun.arg_name@).0;
    lemma_pos_extends(rename_lookup(names, fun.fun_name@).0, nn, fun.fun_name@);
    lemma_pos_extends(nn, n1, fun.fun_name@);
    lemma_pos_extends(n1, n2, fun.fun_name@);
    let fv = name_of(n1, fun.fun_name@);
    assert(rename_lookup(n2, fun.fun_name@).1 == fv);
    // The function itself.
    let k1 = 1int;
    let code2 = code.subrange(1, code.len() - 1);
    let a2 = lemma_fun_typed(ctx, fun, names, g, code2);
    // The function of `f` whose body is the body of the `let`.
    let ctx1 = ctx.push((fun.fun_name@, ft));
    let bt = arrow(ft, t);
    let g1 = g.insert(ANON_NAME, bt).insert(fv, ft);
    lemma_ctx_extends(ctx, names, n1, g);
    assert forall|y: Seq<char>| #[trigger] ctx_lookup(ctx1, y) is Some implies {
        &&& name_pos_from(n1, y, 0) < n1.len()
        &&& g1.contains_key(name_of(n1, y))
        &&& g1[name_of(n1, y)] == ctx_lookup(ctx1, y)->0
    } by {
        if y == fun.fun_name@ {
            lemma_lookup_push(ctx, y, ft);
        } else {
            lemma_lookup_push_other(ctx, y, fun.fun_name@, ft);
            assert(ctx_lookup(ctx, y) is Some);
            lemma_names_differ(n1, y, fun.fun_name@);
        }
    }
    let i1 = code[0];
    assert(code.take(1)[0] == i1);
    let f1 = Ir::Fun(Box::new(crate::ir::mk_fun(ANON_NAME, fv, bd)));
    assert(spec_desugar(e, names).0 == crate::ir::mk_apply(f1, Ir::Fun(Box::new(fir))));
    assert(compiled(f1, code.take(1)));
    assert(code.last() == Instruction::Call);
    let frame1 = i1->frame;
    let ab = lemma_code_typed(ctx1, l.body, n1, g1, t, frame1@.drop_last());
    let an1 = Ann::Closure(ft, t, ab);
    assert(inst_out(i1, g, seq![], an1) == Some(seq![bt]));
    lemma_seq_one(i1, g, seq![], an1);
    assert(code.take(1) =~= seq![i1]);
    lemma_seq_frame(code2, g, seq![], a2, seq![bt]);
    assert(seq![bt] + seq![] =~= seq![bt]);
    assert(seq![bt] + seq![ft] =~= seq![bt, ft]);
    assert(seq![bt, ft].drop_last().drop_last().push(t) =~= seq![t]);
    binary_tail(code, 1, g, seq![an1], a2, seq![bt], seq![bt, ft], seq![t])
}

/// Code made of a part that leaves a value of type `x`, a part that leaves
/// one of type `y` and a last instruction that turns them into one of type
/// `z`.
proof fn binary_code(code: Seq<Instruction>, k: int, g: TyEnv, a1: Seq<Ann>, a2: Seq<Ann>, x: Type, y: Type, z: Type) -> (ann: Seq<Ann>)
    requires
        0 <= k < code.len(),
        a1.len() == k,
        a2.len() == code.len() - 1 - k,
        seq_out(code.take(k), g, seq![], a1) == Some(seq![x]),
        seq_out(code.subrange(k, code.len() - 1), g, seq![], a2) == Some(seq![y]),
        inst_out(code.last(), g, seq![x, y], Ann::Plain) == Some(seq![z]),
    ensures
        ann.len() == code.len(),
        seq_out(code, g, seq![], ann) == Some(seq![z]),
{
    let c2 = code.subrange(k, code.len() - 1);
    lemma_seq_frame(c2, g, seq![], a2, seq![x]);
    assert(seq![x] + seq![] =~= seq![x]);
    assert(seq![x] + seq![] =~= seq![x]);
    assert(seq![x] + seq![y] =~= seq![x, y]);
    binary_tail(code, k, g, a1, a2, seq![x], seq![x, y], seq![z])
}

proof fn binary_tail(code: Seq<Instruction>, k: int, g: TyEnv, a1: Seq<Ann>, a2: Seq<Ann>, sx: Seq<Type>, sy: Seq<Type>, sz: Seq<Type>) -> (ann: Seq<Ann>)
    requires
        0 <= k < code.len(),
        a1.len() == k,
        a2.len() == code.len() - 1 - k,
        seq_out(code.take(k), g, seq![], a1) == Some(sx),
        seq_out(code.subrange(k, code.len() - 1), g, sx, a2) == Some(sy),
        inst_out(code.last(), g, sy, Ann::Plain) == Some(sz),
    ensures
        ann.len() == code.len(),
        seq_out(code, g, seq![], ann) == Some(sz),
{
    let c1 = code.take(k);
    let c2 = code.subrange(k, code.len() - 1);
    lemma_seq_one(code.last(), g, sy, Ann::Plain);
    lemma_seq_concat(c2, seq![code.last()], g, sx, a2, seq![Ann::Plain]);
    lemma_seq_concat(c1, c2 + seq![code.last()], g, seq![], a1, a2 + seq![Ann::Plain]);
    assert(c1 + (c2 + seq![code.last()]) =~= code);
    a1 + (a2 + seq![Ann::Plain])
}

// ---------------------------------------------------------------------------
// Typed machine states

/// `v` has type `t`, where entry `i` of `st` types the environment that the
/// closures with store index `i` captured.
pub open spec fn value_ok(st: Seq<TyEnv>, v: SValue, t: Type) -> bool {
    match v {
        SValue::Int(_) => t == Type::Int,
        SValue::Bool(_) => t == Type::Bool,
        SValue::Clo(arg, frame, idx) => idx < st.len() && t is Arrow
            && frame_ok(frame@, st[idx as int].insert(arg, *t->Arrow_0), *t->Arrow_1),
    }
}

/// A closure's frame: a body that leaves one value of type `r` on an empty
/// stack, then the instruction that leaves the closure's environment.
pub open spec fn frame_ok(f: Seq<Instruction>, g: TyEnv, r: Type) -> bool {
    exists|a: Seq<Ann>| f.len() > 0 && f.last() == Instruction::PopEnv
        && #[trigger] seq_out(f.drop_last(), g, seq![], a) == Some(seq![r])
}

pub open spec fn env_ok(st: Seq<TyEnv>, e: SEnv, g: TyEnv) -> bool {
    forall|n: Name| #[trigger] g.contains_key(n) ==> e.contains_key(n) && value_ok(st, e[n], g[n])
}

pub open spec fn values_ok(st: Seq<TyEnv>, vs: Seq<SValue>, ts: Seq<Type>) -> bool {
    vs.len() == ts.len() && forall|j: int| 0 <= j < vs.len() ==> value_ok(st, #[trigger] vs[j], ts[j])
}

pub open spec fn store_ok(st: Seq<TyEnv>, storage: Seq<SEnv>) -> bool {
    st.len() == storage.len() && forall|i: int| 0 <= i < st.len() ==> env_ok(st, #[trigger] storage[i], st[i])
}

/// The typing of an activation: the environment it runs in, whether it is
/// the body of a call (its code ends by leaving the environment), the
/// annotations of the code it has left, and the types on the value stack
/// before and after that code.
pub struct ActTy {
    pub g: TyEnv,
    pub body: bool,
    pub ann: Seq<Ann>,
    pub inp: Seq<Type>,
    pub out: Seq<Type>,
}

/// The code that an activation has left to run.
pub open spec fn rest(a: (Frame, usize)) -> Seq<Instruction> {
    a.0@.subrange(a.1 as int, a.0@.len() as int)
}

/// The code of an activation before it leaves its environment, if it does.
pub open spec fn own_code(a: (Frame, usize), w: ActTy) -> Seq<Instruction> {
    if w.body { rest(a).drop_last() } else { rest(a) }
}

pub open spec fn act_ok(a: (Frame, usize), w: ActTy) -> bool {
    &&& a.1 < a.0@.len()
    &&& (w.body ==> rest(a).last() == Instruction::PopEnv)
    &&& seq_out(own_code(a, w), w.g, w.inp, w.ann) == Some(w.out)
}

/// The number of bodies of calls among the first `n` activations.
pub open spec fn count_body(w: Seq<ActTy>, n: int) -> nat
    decreases n,
{
    if n <= 0 {
        0
    } else {
        count_body(w, n - 1) + if w[n - 1].body { 1nat } else { 0nat }
    }
}

/// The types that the topmost activation expects on the value stack: those
/// of the result once every activation is done.
pub open spec fn top_in(w: Seq<ActTy>, t: Type) -> Seq<Type> {
    if w.len() > 0 { w.last().inp } else { seq![t] }
}

/// `s` is typed by the store typing `st` and the activation typings `w`,
/// its value stack aside: the activations hand their results down to the
/// one below, the lowest leaves one value of type `t`, and each activation
/// runs in an environment of the types it expects.
pub open spec fn frame_typed(s: MState, t: Type, st: Seq<TyEnv>, w: Seq<ActTy>) -> bool {
    &&& store_ok(st, s.storage)
    &&& w.len() == s.acts.len()
    &&& forall|i: int| 0 <= i < w.len() ==> act_ok(#[trigger] s.acts[i], w[i])
    &&& forall|i: int| 0 < i < w.len() ==> (#[trigger] w[i]).out == w[i - 1].inp
    &&& (w.len() > 0 ==> w[0].out == seq![t])
    &&& s.envs.len() == 1 + count_body(w, w.len() as int)
    &&& forall|i: int| 0 <= i < w.len() ==> env_ok(st, s.envs[count_body(w, i + 1) as int], (#[trigger] w[i]).g)
}

pub open spec fn state_typed(s: MState, t: Type, st: Seq<TyEnv>, w: Seq<ActTy>) -> bool {
    frame_typed(s, t, st, w) && values_ok(st, s.values, top_in(w, t))
}

/// `st2` types every closure that `st` types, as `st` does.
pub open spec fn st_extends(st: Seq<TyEnv>, st2: Seq<TyEnv>) -> bool {
    st.len() <= st2.len() && forall|i: int| 0 <= i < st.len() ==> st2[i] == st[i]
}

proof fn lemma_value_mono(st: Seq<TyEnv>, st2: Seq<TyEnv>, v: SValue, t: Type)
    requires
        st_extends(st, st2),
        value_ok(st, v, t),
    ensures
        value_ok(st2, v, t),
{
    if let SValue::Clo(_, _, idx) = v {
        assert(st2[idx as int] == st[idx as int]);
    }
}

proof fn lemma_env_mono(st: Seq<TyEnv>, st2: Seq<TyEnv>, e: SEnv, g: TyEnv)
    requires
        st_extends(st, st2),
        env_ok(st, e, g),
    ensures
        env_ok(st2, e, g),
{
    assert forall|n: Name| #[trigger] g.contains_key(n) implies e.contains_key(n) && value_ok(st2, e[n], g[n]) by {
        lemma_value_mono(st, st2, e[n], g[n]);
    }
}

proof fn lemma_values_mono(st: Seq<TyEnv>, st2: Seq<TyEnv>, vs: Seq<SValue>, ts: Seq<Type>)
    requires
        st_extends(st, st2),
        values_ok(st, vs, ts),
    ensures
        values_ok(st2, vs, ts),
{
    assert forall|j: int| 0 <= j < vs.len() implies value_ok(st2, #[trigger] vs[j], ts[j]) by {
        lemma_value_mono(st, st2, vs[j], ts[j]);
    }
}

/// The count of bodies depends only on which activations are bodies.
proof fn lemma_count_same(w1: Seq<ActTy>, w2: Seq<ActTy>, n: int)
    requires
        n <= w1.len(),
        n <= w2.len(),
        forall|j: int| 0 <= j < n ==> w1[j].body == w2[j].body,
    ensures
        count_body(w1, n) == count_body(w2, n),
    decreases n,
{
    if n > 0 {
        lemma_count_same(w1, w2, n - 1);
    }
}

proof fn lemma_count_mono(w: Seq<ActTy>, m: int, n: int)
    requires
        0 <= m <= n,
    ensures
        count_body(w, m) <= count_body(w, n),
    decreases n,
{
    if m < n {
        lemma_count_mono(w, m, n - 1);
    }
}

/// What an instruction that neither enters nor leaves code does to a typed
/// state: only the value stack changes, as the instruction's type says.
proof fn lemma_step_simple(s1: MState, t: Type, st: Seq<TyEnv>, w1: Seq<ActTy>, inst: Instruction, g: TyEnv, a0: Ann, inp: Seq<Type>)
    requires
        frame_typed(s1, t, st, w1),
        values_ok(st, s1.values, inp),
        inst is ArithInstruction || inst is CmpInstruction || inst is PushInt || inst is PushBool || inst is Var,
        inst_out(inst, g, inp, a0) == Some(top_in(w1, t)),
        env_ok(st, s1.envs.last(), g),
    ensures
        match step(s1, inst) {
            Ok(s2) => state_typed(s2, t, st, w1),
            Err(Stop::Fault(f)) => f == Fault::DivisionByZero,
            Err(Stop::Crash) => inst is ArithInstruction,
        },
{
    let vs = s1.values;
    let n = vs.len();
    let out = top_in(w1, t);
    match inst {
        Instruction::ArithInstruction(_) | Instruction::CmpInstruction(_) => {
            assert(value_ok(st, vs[n - 1], inp[n - 1]));
            assert(value_ok(st, vs[n - 2], inp[n - 2]));
            assert(vs.drop_last().last() == vs[n - 2]);
            if let Ok(s2) = step(s1, inst) {
                assert(s2.values =~= vs.drop_last().drop_last().push(s2.values.last()));
                assert forall|j: int| 0 <= j < s2.values.len() implies value_ok(st, #[trigger] s2.values[j], out[j]) by {
                    if j < n - 2 {
                        assert(s2.values[j] == vs[j]);
                    }
                }
            }
        },
        _ => {
            if inst is Var {
                assert(s1.envs.len() > 0);
            }
            if let Ok(s2) = step(s1, inst) {
                assert forall|j: int| 0 <= j < s2.values.len() implies value_ok(st, #[trigger] s2.values[j], out[j]) by {
                    if j < n {
                        assert(s2.values[j] == vs[j]);
                    }
                }
            }
        },
    }
}

/// A branch pushes the activation of the chosen arm, in the same
/// environment.
proof fn lemma_step_branch(s1: MState, t: Type, st: Seq<TyEnv>, w1: Seq<ActTy>, inst: Instruction, g: TyEnv, a0: Ann, inp: Seq<Type>) -> (w2: Seq<ActTy>)
    requires
        frame_typed(s1, t, st, w1),
        values_ok(st, s1.values, inp),
        inst is Branch,
        inst_out(inst, g, inp, a0) == Some(top_in(w1, t)),
        env_ok(st, s1.envs.last(), g),
    ensures
        step(s1, inst) matches Ok(s2) && state_typed(s2, t, st, w2),
{
    let vs = s1.values;
    let n = vs.len();
    let out = top_in(w1, t);
    let x = inst->Branch_0;
    let y = inst->Branch_1;
    assert(value_ok(st, vs[n - 1], inp[n - 1]));
    let c = vs[n - 1]->Bool_0;
    let frm = if c { x } else { y };
    let af = if c { a0->Branch_0 } else { a0->Branch_1 };
    let nw = ActTy { g, body: false, ann: af, inp: inp.drop_last(), out };
    let w2 = w1.push(nw);
    let s2 = step(s1, inst)->Ok_0;
    assert(s2.acts == s1.acts.push((frm, 0usize)));
    assert(rest((frm, 0usize)) =~= frm@);
    assert(act_ok(s2.acts[w1.len() as int], w2[w1.len() as int]));
    lemma_count_same(w1, w2, w1.len() as int);
    assert(count_body(w2, w2.len() as int) == count_body(w1, w1.len() as int));
    assert forall|i: int| 0 <= i < w2.len() implies act_ok(#[trigger] s2.acts[i], w2[i]) by {
        if i < w1.len() {
            assert(s2.acts[i] == s1.acts[i]);
        }
    }
    assert forall|i: int| 0 <= i < w2.len() implies env_ok(st, s2.envs[count_body(w2, i + 1) as int], (#[trigger] w2[i]).g) by {
        if i < w1.len() {
            lemma_count_same(w1, w2, i + 1);
            assert(w2[i] == w1[i]);
        }
    }
    assert forall|i: int| 0 < i < w2.len() implies (#[trigger] w2[i]).out == w2[i - 1].inp by {
        if i < w1.len() {
            assert(w2[i] == w1[i]);
        }
    }
    assert(s2.values =~= vs.drop_last());
    assert forall|j: int| 0 <= j < s2.values.len() implies value_ok(st, #[trigger] s2.values[j], inp.drop_last()[j]) by {
        assert(s2.values[j] == vs[j]);
    }
    w2
}

/// A closure instruction stores its environment, extended with the closure
/// itself, and the store typing grows by that environment's typing.
proof fn lemma_step_closure(s1: MState, t: Type, st: Seq<TyEnv>, w1: Seq<ActTy>, inst: Instruction, g: TyEnv, a0: Ann, inp: Seq<Type>) -> (st2: Seq<TyEnv>)
    requires
        frame_typed(s1, t, st, w1),
        values_ok(st, s1.values, inp),
        inst is Closure,
        inst_out(inst, g, inp, a0) == Some(top_in(w1, t)),
        env_ok(st, s1.envs.last(), g),
    ensures
        step(s1, inst) matches Ok(s2) && state_typed(s2, t, st2, w1),
{
    let name = inst->name;
    let arg = inst->arg;
    let frame = inst->frame;
    let ta = a0->Closure_0;
    let tr = a0->Closure_1;
    let af = a0->Closure_2;
    let a = arrow(ta, tr);
    let out = top_in(w1, t);
    let e = s1.envs.last();
    let gc = g.insert(name, a);
    let st2 = st.push(gc);
    let v = SValue::Clo(arg, frame, s1.storage.len());
    let env = e.insert(name, v);
    let s2 = step(s1, inst)->Ok_0;
    assert(s2.storage == s1.storage.push(env));
    assert(s2.values == s1.values.push(v));
    assert(st_extends(st, st2));
    assert(st2[st.len() as int] == gc);
    assert(seq_out(frame@.drop_last(), gc.insert(arg, ta), seq![], af) == Some(seq![tr]));
    assert(value_ok(st2, v, a));
    assert forall|m: Name| #[trigger] gc.contains_key(m) implies env.contains_key(m) && value_ok(st2, env[m], gc[m]) by {
        if m != name {
            lemma_value_mono(st, st2, e[m], g[m]);
        }
    }
    assert forall|i: int| 0 <= i < st2.len() implies env_ok(st2, #[trigger] s2.storage[i], st2[i]) by {
        if i < st.len() {
            assert(s2.storage[i] == s1.storage[i]);
            lemma_env_mono(st, st2, s1.storage[i], st[i]);
        }
    }
    assert forall|i: int| 0 <= i < w1.len() implies env_ok(st2, s2.envs[count_body(w1, i + 1) as int], (#[trigger] w1[i]).g) by {
        lemma_env_mono(st, st2, s1.envs[count_body(w1, i + 1) as int], w1[i].g);
    }
    lemma_values_mono(st, st2, s1.values, inp);
    assert forall|j: int| 0 <= j < s2.values.len() implies value_ok(st2, #[trigger] s2.values[j], out[j]) by {
        if j < s1.values.len() {
            assert(s2.values[j] == s1.values[j]);
        }
    }
    st2
}

/// A call enters the closure's frame in the closure's environment extended
/// with the argument; the frame's typing comes from the closure's type.
proof fn lemma_step_call(s1: MState, t: Type, st: Seq<TyEnv>, w1: Seq<ActTy>, g: TyEnv, a0: Ann, inp: Seq<Type>) -> (w2: Seq<ActTy>)
    requires
        frame_typed(s1, t, st, w1),
        values_ok(st, s1.values, inp),
        inst_out(Instruction::Call, g, inp, a0) == Some(top_in(w1, t)),
    ensures
        step(s1, Instruction::Call) matches Ok(s2) && state_typed(s2, t, st, w2),
{
    let vs = s1.values;
    let n = vs.len();
    let out = top_in(w1, t);
    let ft = inp[n - 2];
    let ta = *ft->Arrow_0;
    let tr = *ft->Arrow_1;
    assert(value_ok(st, vs[n - 1], inp[n - 1]));
    assert(value_ok(st, vs[n - 2], inp[n - 2]));
    let argv = vs[n - 1];
    let clo = vs[n - 2];
    let arg = clo->Clo_0;
    let frame = clo->Clo_1;
    let idx = clo->Clo_2;
    let gb = st[idx as int].insert(arg, ta);
    assert(frame_ok(frame@, gb, tr));
    let af = choose|af: Seq<Ann>| frame@.len() > 0 && frame@.last() == Instruction::PopEnv
        && #[trigger] seq_out(frame@.drop_last(), gb, seq![], af) == Some(seq![tr]);
    let below = inp.drop_last().drop_last();
    lemma_seq_frame(frame@.drop_last(), gb, seq![], af, below);
    assert(below + seq![] =~= below);
    assert(below + seq![tr] =~= out);
    let nw = ActTy { g: gb, body: true, ann: af, inp: below, out };
    let w2 = w1.push(nw);
    let env = s1.storage[idx as int].insert(arg, argv);
    assert(vs.drop_last().last() == clo);
    let s2 = step(s1, Instruction::Call)->Ok_0;
    assert(s2.envs == s1.envs.push(env));
    assert(s2.acts == s1.acts.push((frame, 0usize)));
    assert(s2.values =~= vs.drop_last().drop_last());
    assert(rest((frame, 0usize)) =~= frame@);
    assert(act_ok(s2.acts[w1.len() as int], w2[w1.len() as int]));
    lemma_count_same(w1, w2, w1.len() as int);
    assert(count_body(w2, w2.len() as int) == count_body(w1, w1.len() as int) + 1);
    assert forall|i: int| 0 <= i < w2.len() implies act_ok(#[trigger] s2.acts[i], w2[i]) by {
        if i < w1.len() {
            assert(s2.acts[i] == s1.acts[i]);
        }
    }
    assert(env_ok(st, s1.storage[idx as int], st[idx as int]));
    assert forall|m: Name| #[trigger] gb.contains_key(m) implies env.contains_key(m) && value_ok(st, env[m], gb[m]) by {
        if m == arg {
            assert(value_ok(st, argv, inp[n - 1]));
        }
    }
    assert forall|i: int| 0 <= i < w2.len() implies env_ok(st, s2.envs[count_body(w2, i + 1) as int], (#[trigger] w2[i]).g) by {
        if i < w1.len() {
            lemma_count_same(w1, w2, i + 1);
            lemma_count_mono(w1, i + 1, w1.len() as int);
            assert(w2[i] == w1[i]);
            assert(s2.envs[count_body(w1, i + 1) as int] == s1.envs[count_body(w1, i + 1) as int]);
        }
    }
    assert forall|i: int| 0 < i < w2.len() implies (#[trigger] w2[i]).out == w2[i - 1].inp by {
        if i < w1.len() {
            assert(w2[i] == w1[i]);
        }
    }
    assert forall|j: int| 0 <= j < s2.values.len() implies value_ok(st, #[trigger] s2.values[j], below[j]) by {
        assert(s2.values[j] == vs[j]);
    }
    w2
}

/// One step of a typed state: the topmost activation's next instruction,
/// executed, gives a typed state again, or stops on a division by zero, or
/// crashes on an arithmetic overflow.
#[verifier::rlimit(60)]
proof fn lemma_step_typed(s: MState, t: Type, st: Seq<TyEnv>, w: Seq<ActTy>) -> (res: (Seq<TyEnv>, Seq<ActTy>))
    requires
        state_typed(s, t, st, w),
        fetch(s) is Some,
    ensures
        ({
            let (inst, s1) = fetch(s)->Some_0;
            match step(s1, inst) {
                Ok(s2) => state_typed(s2, t, res.0, res.1),
                Err(Stop::Fault(f)) => f == Fault::DivisionByZero,
                Err(Stop::Crash) => inst is ArithInstruction,
            }
        }),
{
    let k = w.len() - 1;
    let a = s.acts.last();
    let frame = a.0;
    let pc = a.1;
    let wk = w[k];
    assert(act_ok(s.acts[k], wk));
    let r = rest(a);
    let (inst, s1) = fetch(s)->Some_0;
    assert(inst == r[0]);
    assert(env_ok(st, s.envs[count_body(w, k + 1) as int], wk.g));
    let e = s.envs.last();
    if wk.body && r.len() == 1 {
        assert(r.drop_last() =~= Seq::<Instruction>::empty());
        assert(wk.out == wk.inp);
        let w2 = w.drop_last();
        let s2 = step(s1, inst)->Ok_0;
        assert(s1.acts =~= s.acts.drop_last());
        lemma_count_same(w, w2, k);
        assert forall|i: int| 0 <= i < w2.len() implies act_ok(#[trigger] s2.acts[i], w2[i]) by {
            assert(s2.acts[i] == s.acts[i]);
        }
        assert forall|i: int| 0 <= i < w2.len() implies env_ok(st, s2.envs[count_body(w2, i + 1) as int], (#[trigger] w2[i]).g) by {
            lemma_count_same(w, w2, i + 1);
            lemma_count_mono(w, i + 1, k);
            assert(w2[i] == w[i]);
        }
        assert forall|i: int| 0 < i < w2.len() implies (#[trigger] w2[i]).out == w2[i - 1].inp by {
            assert(w2[i] == w[i]);
        }
        if k > 0 {
            assert(w[k].out == w[k - 1].inp);
        }
        (st, w2)
    } else {
        let c = own_code(a, wk);
        assert(c[0] == inst);
        let a0 = wk.ann[0];
        let o1 = inst_out(inst, wk.g, wk.inp, a0)->Some_0;
        assert(seq_out(c.drop_first(), wk.g, o1, wk.ann.drop_first()) == Some(wk.out));
        let w1 = if r.len() >= 2 {
            w.update(k, ActTy { ann: wk.ann.drop_first(), inp: o1, ..wk })
        } else {
            w.drop_last()
        };
        if r.len() >= 2 {
            assert(frame.len() == frame@.len());
            assert(s1.acts =~= s.acts.update(k, (frame, (pc + 1) as usize)));
            assert(rest((frame, (pc + 1) as usize)) =~= r.drop_first());
            if wk.body {
                assert(r.drop_first().drop_last() =~= c.drop_first());
            }
            assert(act_ok(s1.acts[k], w1[k]));
            lemma_count_same(w, w1, w.len() as int);
            assert forall|i: int| 0 <= i < w1.len() implies act_ok(#[trigger] s1.acts[i], w1[i]) by {
                if i < k {
                    assert(s1.acts[i] == s.acts[i]);
                }
            }
            assert forall|i: int| 0 <= i < w1.len() implies env_ok(st, s1.envs[count_body(w1, i + 1) as int], (#[trigger] w1[i]).g) by {
                lemma_count_same(w, w1, i + 1);
                assert(w1[i].g == w[i].g);
            }
            assert forall|i: int| 0 < i < w1.len() implies (#[trigger] w1[i]).out == w1[i - 1].inp by {
                assert(w1[i].out == w[i].out);
                if i - 1 < k {
                    assert(w1[i - 1] == w[i - 1]);
                }
            }
        } else {
            assert(c.drop_first() =~= Seq::<Instruction>::empty());
            assert(s1.acts =~= s.acts.drop_last());
            lemma_count_same(w, w1, k);
            assert forall|i: int| 0 <= i < w1.len() implies act_ok(#[trigger] s1.acts[i], w1[i]) by {
                assert(s1.acts[i] == s.acts[i]);
            }
            assert forall|i: int| 0 <= i < w1.len() implies env_ok(st, s1.envs[count_body(w1, i + 1) as int], (#[trigger] w1[i]).g) by {
                lemma_count_same(w, w1, i + 1);
                assert(w1[i] == w[i]);
            }
            assert forall|i: int| 0 < i < w1.len() implies (#[trigger] w1[i]).out == w1[i - 1].inp by {
                assert(w1[i] == w[i]);
            }
            if k > 0 {
                assert(w[k].out == w[k - 1].inp);
            }
        }
        assert(frame_typed(s1, t, st, w1));
        assert(o1 == top_in(w1, t));
        match inst {
            Instruction::Branch(_, _) => {
                let w2 = lemma_step_branch(s1, t, st, w1, inst, wk.g, a0, wk.inp);
                (st, w2)
            },
            Instruction::Closure { .. } => {
                let st2 = lemma_step_closure(s1, t, st, w1, inst, wk.g, a0, wk.inp);
                (st2, w1)
            },
            Instruction::Call => {
                let w2 = lemma_step_call(s1, t, st, w1, wk.g, a0, wk.inp);
                (st, w2)
            },
            Instruction::PopEnv => {
                (st, w1)
            },
            _ => {
                lemma_step_simple(s1, t, st, w1, inst, wk.g, a0, wk.inp);
                (st, w1)
            },
        }
    }
}

/// How a run of a program may end without being called unsafe: with a
/// value of the program's type, a division by zero, an arithmetic overflow
/// (a crash), or after the step limit.
pub open spec fn outcome_ok(o: Outcome, t: Type) -> bool {
    match o {
        Outcome::Value(Observed::Int(_)) => t == Type::Int,
        Outcome::Value(Observed::Bool(_)) => t == Type::Bool,
        Outcome::Value(Observed::Closure(_, _)) => t is Arrow,
        Outcome::Fault(f) => f == Fault::DivisionByZero || f == Fault::StepLimit,
        Outcome::Crash => true,
    }
}

/// The instruction on which a run from `s` with at most `fuel` steps
/// crashes, if it does.
pub open spec fn crashing_instruction(s: MState, fuel: nat) -> Option<Instruction>
    decreases fuel,
{
    match fetch(s) {
        None => None,
        Some((inst, s1)) => {
            if fuel == 0 {
                None
            } else {
                match step(s1, inst) {
                    Ok(s2) => crashing_instruction(s2, (fuel - 1) as nat),
                    Err(Stop::Crash) => Some(inst),
                    Err(Stop::Fault(_)) => None,
                }
            }
        },
    }
}

proof fn lemma_outcome_typed(s: MState, t: Type, st: Seq<TyEnv>, w: Seq<ActTy>, fuel: nat)
    requires
        state_typed(s, t, st, w),
    ensures
        outcome_ok(crate::machine::semantics::observe_halt(outcome(s, fuel)), t),
        outcome(s, fuel) is Crash ==> (crashing_instruction(s, fuel) matches Some(i) && i is ArithInstruction),
    decreases fuel,
{
    match fetch(s) {
        None => {
            if w.len() > 0 {
                let k = w.len() - 1;
                assert(act_ok(s.acts[k], w[k]));
            }
            assert(value_ok(st, s.values[0], t));
        },
        Some((inst, s1)) => {
            if fuel > 0 {
                let (st2, w2) = lemma_step_typed(s, t, st, w);
                if let Ok(s2) = step(s1, inst) {
                    lemma_outcome_typed(s2, t, st2, w2, (fuel - 1) as nat);
                }
            }
        },
    }
}

/// Type safety. A program without `let rec` (and without a function whose
/// argument is spelled like the function) that the type checker gives type
/// `t`, translated and compiled, runs to a value of type `t` (an integer, a
/// boolean or a closure as `t` says), or stops on a division by zero, on an
/// arithmetic overflow (the only crash it can meet) or at the step limit. It
/// never stops on a run-time type error, an empty stack, an unbound
/// variable, a missing environment or values left over.
pub proof fn law_type_safety(e: Expr, t: Type, program: Frame)
    requires
        no_rec_no_shadow(e),
        ident_count(e) <= MAX_IDENTS,
        type_of(Seq::empty(), e) == Ok::<Type, Seq<char>>(t),
        compiled(spec_desugar(e, Seq::empty()).0, program@),
    ensures
        outcome_ok(run(initial_state(program)), t),
        run(initial_state(program)) is Crash ==> (crashing_instruction(initial_state(program), step_budget())
            matches Some(i) && i is ArithInstruction),
{
    let names = Seq::<Seq<char>>::empty();
    let g = Map::<Name, Type>::empty();
    let ctx = Seq::<(Seq<char>, Type)>::empty();
    assert(ctx_ok(ctx, names, g));
    let ann = lemma_code_typed(ctx, e, names, g, t, program@);
    let s = initial_state(program);
    let w = seq![ActTy { g, body: false, ann, inp: seq![], out: seq![t] }];
    let st = Seq::<TyEnv>::empty();
    assert(program@.len() > 0);
    assert(rest(s.acts[0]) =~= program@);
    assert(act_ok(s.acts[0], w[0]));
    assert(count_body(w, 0) == 0);
    assert(count_body(w, 1) == 0);
    assert(env_ok(st, s.envs[0], g));
    assert(frame_typed(s, t, st, w));
    assert(values_ok(st, s.values, top_in(w, t)));
    lemma_outcome_typed(s, t, st, w, step_budget());
}

} // verus!
