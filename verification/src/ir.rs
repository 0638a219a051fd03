//! The intermediate representation: expressions without types, with
//! numbered names, and without `let`; and the translation into it.
//!
//! The renamer numbers identifiers in the order in which it first meets
//! them and gives the `i`-th one the even name `2 * i`. The odd names 1, 3
//! and 5 stand for an anonymous function, the dispatcher of a `let rec` and
//! the dispatcher's argument.
use vstd::prelude::*;
use crate::machine::program::Name;
use crate::syntax::exprs as syn;
use crate::syntax::exprs::{Expr, ident_count, funs_ident_count};
use crate::syntax::ident::Ident;

verus! {

/// An expression of the intermediate representation.
pub enum Ir {
    Var(Name),
    IntLiteral(i64),
    BoolLiteral(bool),
    BinOp(Box<BinOp>),
    If(Box<If>),
    Fun(Box<Fun>),
    Apply(Box<Apply>),
}

pub struct BinOp {
    pub lhs: Ir,
    pub rhs: Ir,
    pub kind: BinOpKind,
}

#[derive(Clone, Copy, PartialEq, Eq, Debug)]
pub enum BinOpKind {
    Add,
    Sub,
    Div,
    Mul,
    Lt,
    Eq,
    Gt,
}

pub struct If {
    pub cond: Ir,
    pub tru: Ir,
    pub fls: Ir,
}

pub struct Fun {
    pub fun_name: Name,
    pub arg_name: Name,
    pub body: Ir,
}

pub struct Apply {
    pub fun: Ir,
    pub arg: Ir,
}

/// The name of an anonymous function.
pub const ANON_NAME: Name = 1;

/// The name of the dispatcher of a `let rec`.
pub const DISPATCH_NAME: Name = 3;

/// The name of the dispatcher's argument.
pub const DISPATCH_ARG: Name = 5;

/// The most identifiers, counted with repetitions, that one expression to
/// be translated may hold, so that their names fit in a machine word.
pub const MAX_IDENTS: usize = usize::MAX / 4;

// ---------------------------------------------------------------------------
// The renamer

/// The first position from `i` on where `names` holds `x`, or the length.
pub open spec fn name_pos_from(names: Seq<Seq<char>>, x: Seq<char>, i: int) -> int
    decreases names.len() - i,
{
    if i < 0 || i >= names.len() {
        names.len() as int
    } else if names[i] == x {
        i
    } else {
        name_pos_from(names, x, i + 1)
    }
}

/// The identifiers met so far, and the name of `x`: twice its position
/// among them, where it is added at the end if it is new.
pub open spec fn rename_lookup(names: Seq<Seq<char>>, x: Seq<char>) -> (Seq<Seq<char>>, Name) {
    let p = name_pos_from(names, x, 0);
    if p < names.len() {
        (names, (2 * p) as usize)
    } else {
        (names.push(x), (2 * names.len()) as usize)
    }
}

pub proof fn lemma_name_pos_from(names: Seq<Seq<char>>, x: Seq<char>, i: int)
    requires
        0 <= i,
    ensures
        i <= name_pos_from(names, x, i) <= names.len() || names.len() < i,
        name_pos_from(names, x, i) < names.len() ==> names[name_pos_from(names, x, i)] == x,
        forall|j: int| i <= j < name_pos_from(names, x, i) ==> names[j] != x,
    decreases names.len() - i,
{
    if 0 <= i < names.len() && names[i] != x {
        lemma_name_pos_from(names, x, i + 1);
    }
}

pub proof fn lemma_rename_lookup(names: Seq<Seq<char>>, x: Seq<char>)
    requires
        names.no_duplicates(),
        names.len() < MAX_IDENTS,
    ensures
        ({
            let (n1, a) = rename_lookup(names, x);
            &&& n1.no_duplicates()
            &&& names.len() <= n1.len() <= names.len() + 1
            &&& forall|i: int| 0 <= i < names.len() ==> n1[i] == names[i]
            &&& a % 2 == 0
            &&& 0 <= a / 2 < n1.len()
            &&& n1[(a / 2) as int] == x
        }),
{
    lemma_name_pos_from(names, x, 0);
    let p = name_pos_from(names, x, 0);
    if p >= names.len() {
        let n1 = names.push(x);
        assert forall|i: int, j: int| 0 <= i < n1.len() && 0 <= j < n1.len() && i != j implies n1[i] != n1[j] by {
            if i < names.len() && j < names.len() {
            } else if i == names.len() {
                assert(names[j] != x);
            } else {
                assert(names[i] != x);
            }
        }
    }
}

/// Where `x` stands in a table without repetitions, the renamer gives it
/// twice that position and leaves the table as it is.
proof fn lemma_rename_known(names: Seq<Seq<char>>, x: Seq<char>, k: int)
    requires
        names.no_duplicates(),
        names.len() < MAX_IDENTS,
        0 <= k < names.len(),
        names[k] == x,
    ensures
        rename_lookup(names, x) == (names, (2 * k) as usize),
{
    lemma_name_pos_from(names, x, 0);
    let p = name_pos_from(names, x, 0);
    assert(p <= k);
    assert(p == k);
}

/// Renaming is consistent. The table of identifiers met so far never holds
/// one twice; an identifier met again gets the name that it got the first
/// time; two identifiers get the same name exactly when they are spelled
/// alike; and every name is even, so that none is one of the odd names that
/// the translation keeps for its own functions.
pub proof fn law_rename_consistent(names: Seq<Seq<char>>, x: Seq<char>, y: Seq<char>)
    requires
        names.no_duplicates(),
        names.len() + 2 < MAX_IDENTS,
    ensures
        ({
            let (n1, a) = rename_lookup(names, x);
            let (n2, b) = rename_lookup(n1, y);
            &&& n1.no_duplicates()
            &&& n2.no_duplicates()
            &&& rename_lookup(n2, x) == (n2, a)
            &&& (a == b <==> x == y)
            &&& a % 2 == 0
            &&& b % 2 == 0
        }),
{
    lemma_rename_lookup(names, x);
    let (n1, a) = rename_lookup(names, x);
    lemma_rename_lookup(n1, y);
    let (n2, b) = rename_lookup(n1, y);
    assert(n2[(a / 2) as int] == x);
    lemma_rename_known(n2, x, (a / 2) as int);
    if x == y {
        lemma_rename_known(n1, x, (a / 2) as int);
    }
}

/// Gives each identifier its number. The identifiers are kept in the order
/// in which they were first met, none twice, and the number of one is twice
/// its position. They are kept in a vector rather than a hash map because
/// vstd models the keys of a hash map for integer types only, not for
/// strings.
struct Renamer {
    names: Vec<String>,
}

impl View for Renamer {
    type V = Seq<Seq<char>>;

    closed spec fn view(&self) -> Seq<Seq<char>> {
        self.names@.map_values(|s: String| s@)
    }
}

impl Renamer {
    fn empty() -> (r: Renamer)
        ensures
            r@ == Seq::<Seq<char>>::empty(),
    {
        let r = Renamer { names: Vec::new() };
        assert(r@ =~= Seq::<Seq<char>>::empty());
        r
    }

    /// The name of `name`; a new identifier is numbered next. No identifier
    /// is ever numbered twice.
    fn lookup(&mut self, name: &Ident) -> (n: Name)
        requires
            old(self)@.len() < MAX_IDENTS,
            old(self)@.no_duplicates(),
        ensures
            final(self)@.no_duplicates(),
            (final(self)@, n) == rename_lookup(old(self)@, name@),
            final(self)@.len() <= old(self)@.len() + 1,
    {
        let ghost names = self@;
        proof {
            lemma_rename_lookup(names, name@);
        }
        let mut i: usize = 0;
        while i < self.names.len()
            invariant
                i <= self.names@.len(),
                self@ == names,
                names.no_duplicates(),
                self@.len() < MAX_IDENTS,
                name_pos_from(names, name@, 0) == name_pos_from(names, name@, i as int),
            decreases self.names@.len() - i,
        {
            if self.names[i] == *name.as_string() {
                return 2 * i;
            }
            i += 1;
        }
        let n = self.names.len();
        self.names.push(name.as_string().clone());
        assert(self@ =~= names.push(name@));
        2 * n
    }
}

// ---------------------------------------------------------------------------
// The translation

pub open spec fn arith_kind(op: syn::ArithOp) -> BinOpKind {
    match op {
        syn::ArithOp::Add => BinOpKind::Add,
        syn::ArithOp::Sub => BinOpKind::Sub,
        syn::ArithOp::Mul => BinOpKind::Mul,
        syn::ArithOp::Div => BinOpKind::Div,
    }
}

pub open spec fn comparison_kind(op: syn::CmpOp) -> BinOpKind {
    match op {
        syn::CmpOp::Lt => BinOpKind::Lt,
        syn::CmpOp::Eq => BinOpKind::Eq,
        syn::CmpOp::Gt => BinOpKind::Gt,
    }
}

pub open spec fn mk_binop(lhs: Ir, rhs: Ir, kind: BinOpKind) -> Ir {
    Ir::BinOp(Box::new(BinOp { lhs, rhs, kind }))
}

pub open spec fn mk_fun(fun_name: Name, arg_name: Name, body: Ir) -> Fun {
    Fun { fun_name, arg_name, body }
}

pub open spec fn mk_apply(fun: Ir, arg: Ir) -> Ir {
    Ir::Apply(Box::new(Apply { fun, arg }))
}

/// `let f = fun in body`: a call of an anonymous function of `f`.
pub open spec fn spec_let(fun: Fun, body: Ir) -> Ir {
    mk_apply(Ir::Fun(Box::new(mk_fun(ANON_NAME, fun.fun_name, body))), Ir::Fun(Box::new(fun)))
}

/// The bindings of `bindings`, innermost last, around `body`.
pub open spec fn spec_lets(bindings: Seq<Fun>, body: Ir) -> Ir
    decreases bindings.len(),
{
    if bindings.len() == 0 {
        body
    } else {
        spec_lets(bindings.drop_last(), spec_let(bindings.last(), body))
    }
}

/// `if lhs == rhs then tru else fls`.
pub open spec fn spec_if_eq(lhs: Ir, rhs: Ir, tru: Ir, fls: Ir) -> Ir {
    Ir::If(Box::new(If { cond: mk_binop(lhs, rhs, BinOpKind::Eq), tru, fls }))
}

/// An expression whose evaluation fails: `0 / 0`.
pub open spec fn spec_undefined() -> Ir {
    mk_binop(Ir::IntLiteral(0), Ir::IntLiteral(0), BinOpKind::Div)
}

/// The call of the dispatcher with tag `tag` and then `arg`.
pub open spec fn dispatch_call(tag: int, arg: Ir) -> Ir {
    mk_apply(mk_apply(Ir::Var(DISPATCH_NAME), Ir::IntLiteral(tag as i64)), arg)
}

/// For the first `n` names other than the one at `my_tag`, a function of
/// that name that calls the dispatcher with the name's tag.
pub open spec fn wrapper_bindings(fun_names: Seq<Name>, my_tag: int, n: int) -> Seq<Fun>
    decreases n,
{
    if n <= 0 {
        Seq::empty()
    } else if n - 1 == my_tag {
        wrapper_bindings(fun_names, my_tag, n - 1)
    } else {
        wrapper_bindings(fun_names, my_tag, n - 1).push(
            mk_fun(fun_names[n - 1], ANON_NAME, dispatch_call(n - 1, Ir::Var(ANON_NAME))),
        )
    }
}

/// The function of a `let rec` with tag `my_tag`, with the other functions
/// of the group bound around its body.
pub open spec fn spec_fun_wrapper(my_tag: int, fun: Fun, fun_names: Seq<Name>) -> Ir {
    Ir::Fun(Box::new(mk_fun(
        fun.fun_name,
        fun.arg_name,
        spec_lets(wrapper_bindings(fun_names, my_tag, fun_names.len() as int), fun.body),
    )))
}

/// The body of the dispatcher for the first `n` functions: it selects the
/// function whose tag is its argument.
pub open spec fn spec_dispatch(funs: Seq<Fun>, fun_names: Seq<Name>, n: int) -> Ir
    decreases n,
{
    if n <= 0 {
        spec_undefined()
    } else {
        spec_if_eq(
            Ir::Var(DISPATCH_ARG),
            Ir::IntLiteral((n - 1) as i64),
            spec_fun_wrapper(n - 1, funs[n - 1], fun_names),
            spec_dispatch(funs, fun_names, n - 1),
        )
    }
}

/// `body` with the first `n` function names bound to the dispatcher's
/// results for their tags.
pub open spec fn spec_bind_names(fun_names: Seq<Name>, n: int, body: Ir) -> Ir
    decreases n,
{
    if n <= 0 {
        body
    } else {
        mk_apply(
            Ir::Fun(Box::new(mk_fun(ANON_NAME, fun_names[n - 1], spec_bind_names(fun_names, n - 1, body)))),
            mk_apply(Ir::Var(DISPATCH_NAME), Ir::IntLiteral((n - 1) as i64)),
        )
    }
}

/// The translation of `e`, with the identifiers met so far.
pub open spec fn spec_desugar(e: Expr, names: Seq<Seq<char>>) -> (Ir, Seq<Seq<char>>)
    decreases e, 0nat,
{
    match e {
        Expr::Var(v) => {
            let (n1, x) = rename_lookup(names, v@);
            (Ir::Var(x), n1)
        },
        Expr::Literal(syn::Literal::Number(n)) => (Ir::IntLiteral(n), names),
        Expr::Literal(syn::Literal::Bool(b)) => (Ir::BoolLiteral(b), names),
        Expr::ArithBinOp(b) => {
            let (l, n1) = spec_desugar(b.lhs, names);
            let (r, n2) = spec_desugar(b.rhs, n1);
            (mk_binop(l, r, arith_kind(b.kind)), n2)
        },
        Expr::CmpBinOp(b) => {
            let (l, n1) = spec_desugar(b.lhs, names);
            let (r, n2) = spec_desugar(b.rhs, n1);
            (mk_binop(l, r, comparison_kind(b.kind)), n2)
        },
        Expr::If(i) => {
            let (c, n1) = spec_desugar(i.cond, names);
            let (t, n2) = spec_desugar(i.tru, n1);
            let (f, n3) = spec_desugar(i.fls, n2);
            (Ir::If(Box::new(If { cond: c, tru: t, fls: f })), n3)
        },
        Expr::Fun(f) => {
            let (fun, n1) = spec_desugar_fun(f.fun_name@, f.arg_name@, f.body, names);
            (Ir::Fun(Box::new(fun)), n1)
        },
        Expr::LetFun(l) => {
            let (fun, n1) = spec_desugar_fun(l.fun.fun_name@, l.fun.arg_name@, l.fun.body, names);
            let (body, n2) = spec_desugar(l.body, n1);
            let (n3, f) = rename_lookup(n2, l.fun.fun_name@);
            (mk_apply(Ir::Fun(Box::new(mk_fun(ANON_NAME, f, body))), Ir::Fun(Box::new(fun))), n3)
        },
        Expr::LetRec(l) => {
            let (funs, n1) = spec_desugar_funs(l.funs@, l.funs@.len() as int, names);
            let fun_names = funs.map_values(|f: Fun| f.fun_name);
            let dispatch = Ir::Fun(Box::new(mk_fun(
                DISPATCH_NAME,
                DISPATCH_ARG,
                spec_dispatch(funs, fun_names, funs.len() as int),
            )));
            let (body, n2) = spec_desugar(l.body, n1);
            let bound = spec_bind_names(fun_names, fun_names.len() as int, body);
            (mk_apply(Ir::Fun(Box::new(mk_fun(ANON_NAME, DISPATCH_NAME, bound))), dispatch), n2)
        },
        Expr::Apply(a) => {
            let (f, n1) = spec_desugar(a.fun, names);
            let (x, n2) = spec_desugar(a.arg, n1);
            (mk_apply(f, x), n2)
        },
    }
}

/// The translation of a function: its name, then its argument, then its body.
pub open spec fn spec_desugar_fun(fun_name: Seq<char>, arg_name: Seq<char>, body: Expr, names: Seq<Seq<char>>) -> (Fun, Seq<Seq<char>>)
    decreases body, 1nat,
{
    let (n1, f) = rename_lookup(names, fun_name);
    let (n2, a) = rename_lookup(n1, arg_name);
    let (b, n3) = spec_desugar(body, n2);
    (mk_fun(f, a, b), n3)
}

/// The translations of the first `n` functions of `funs`, in order.
pub open spec fn spec_desugar_funs(funs: Seq<syn::Fun>, n: int, names: Seq<Seq<char>>) -> (Seq<Fun>, Seq<Seq<char>>)
    decreases funs, n,
{
    if n <= 0 || n > funs.len() {
        (Seq::empty(), names)
    } else {
        let (prev, n1) = spec_desugar_funs(funs, n - 1, names);
        let f = funs[n - 1];
        let (fun, n2) = spec_desugar_fun(f.fun_name@, f.arg_name@, f.body, n1);
        (prev.push(fun), n2)
    }
}

/// The arm that a dispatcher's body selects for tag `i`: the one behind the
/// first test of the dispatcher's argument against `i`; `None` where no test
/// matches (the dispatcher then divides zero by zero).
pub open spec fn selected_arm(d: Ir, i: int) -> Option<Ir>
    decreases d,
{
    match d {
        Ir::If(c) => match c.cond {
            Ir::BinOp(b) => if b.kind == BinOpKind::Eq && b.lhs == Ir::Var(DISPATCH_ARG) && b.rhs is IntLiteral {
                if b.rhs->IntLiteral_0 == i {
                    Some(c.tru)
                } else {
                    selected_arm(c.fls, i)
                }
            } else {
                None
            },
            _ => None,
        },
        _ => None,
    }
}

proof fn lemma_selected_arm(funs: Seq<Fun>, names: Seq<Name>, n: int, i: int)
    requires
        0 <= n <= funs.len(),
        funs.len() <= MAX_IDENTS,
    ensures
        selected_arm(spec_dispatch(funs, names, n), i)
            == if 0 <= i < n { Some(spec_fun_wrapper(i, funs[i], names)) } else { None::<Ir> },
    decreases n,
{
    if n > 0 {
        lemma_selected_arm(funs, names, n - 1, i);
        assert(((n - 1) as i64) as int == n - 1);
    }
}

/// Where the binding of the `j`-th name stands around the body of the
/// `i`-th function: the `i`-th name has none.
pub open spec fn binding_pos(i: int, j: int) -> int {
    if j < i { j } else { j - 1 }
}

proof fn lemma_wrapper_bindings(names: Seq<Name>, i: int, n: int)
    requires
        0 <= i < names.len(),
        0 <= n <= names.len(),
    ensures
        wrapper_bindings(names, i, n).len() == if n > i { n - 1 } else { n },
        forall|j: int| 0 <= j < n && j != i ==> #[trigger] wrapper_bindings(names, i, n)[binding_pos(i, j)]
            == mk_fun(names[j], ANON_NAME, dispatch_call(j, Ir::Var(ANON_NAME))),
    decreases n,
{
    if n > 0 {
        lemma_wrapper_bindings(names, i, n - 1);
        let prev = wrapper_bindings(names, i, n - 1);
        assert forall|j: int| 0 <= j < n && j != i implies #[trigger] wrapper_bindings(names, i, n)[binding_pos(i, j)]
            == mk_fun(names[j], ANON_NAME, dispatch_call(j, Ir::Var(ANON_NAME))) by {
            if j < n - 1 {
                assert(prev[binding_pos(i, j)] == mk_fun(names[j], ANON_NAME, dispatch_call(j, Ir::Var(ANON_NAME))));
            }
        }
    }
}

/// How the translation of `let rec` scopes its functions. The body of the
/// `let` is run with each function name bound to the dispatcher called with
/// the function's tag (`spec_bind_names`). The dispatcher called with tag
/// `i` selects the `i`-th function and no other tag selects anything; that
/// function keeps its own name, which therefore denotes the function inside
/// its body; and inside its body every other name of the group is bound, in
/// the order of the group, to a function that calls the dispatcher with
/// that name's tag.
pub proof fn law_let_rec_scoping(funs: Seq<Fun>, i: int, j: int)
    requires
        funs.len() <= MAX_IDENTS,
    ensures
        ({
            let names = fun_names_of(funs);
            let n = funs.len() as int;
            &&& selected_arm(spec_dispatch(funs, names, n), i)
                == if 0 <= i < n { Some(spec_fun_wrapper(i, funs[i], names)) } else { None::<Ir> }
            &&& 0 <= i < n ==> spec_fun_wrapper(i, funs[i], names) == Ir::Fun(Box::new(mk_fun(
                funs[i].fun_name,
                funs[i].arg_name,
                spec_lets(wrapper_bindings(names, i, n), funs[i].body),
            )))
            &&& 0 <= i < n ==> wrapper_bindings(names, i, n).len() == n - 1
            &&& 0 <= i < n && 0 <= j < n && j != i ==> wrapper_bindings(names, i, n)[binding_pos(i, j)]
                == mk_fun(names[j], ANON_NAME, dispatch_call(j, Ir::Var(ANON_NAME)))
        }),
{
    let names = fun_names_of(funs);
    let n = funs.len() as int;
    lemma_selected_arm(funs, names, n, i);
    if 0 <= i < n {
        lemma_wrapper_bindings(names, i, n);
    }
}

/// The translation keeps every operator: an arithmetic operation or a
/// comparison becomes the operation with the same operator (`+` to `Add`,
/// `-` to `Sub`, `*` to `Mul`, `/` to `Div`, `<` to `Lt`, `==` to `Eq`,
/// `>` to `Gt`) on the translations of its operands, the left one first.
pub proof fn law_desugar_keeps_operators(op: syn::ArithOp, cop: syn::CmpOp, l: Expr, r: Expr, names: Seq<Seq<char>>)
    ensures
        ({
            let (li, n1) = spec_desugar(l, names);
            let ri = spec_desugar(r, n1).0;
            let a = spec_desugar(Expr::ArithBinOp(Box::new(syn::BinOp { kind: op, lhs: l, rhs: r })), names).0;
            let c = spec_desugar(Expr::CmpBinOp(Box::new(syn::BinOp { kind: cop, lhs: l, rhs: r })), names).0;
            &&& a is BinOp && a->BinOp_0.lhs == li && a->BinOp_0.rhs == ri
            &&& (op == syn::ArithOp::Add ==> a->BinOp_0.kind == BinOpKind::Add)
            &&& (op == syn::ArithOp::Sub ==> a->BinOp_0.kind == BinOpKind::Sub)
            &&& (op == syn::ArithOp::Mul ==> a->BinOp_0.kind == BinOpKind::Mul)
            &&& (op == syn::ArithOp::Div ==> a->BinOp_0.kind == BinOpKind::Div)
            &&& c is BinOp && c->BinOp_0.lhs == li && c->BinOp_0.rhs == ri
            &&& (cop == syn::CmpOp::Lt ==> c->BinOp_0.kind == BinOpKind::Lt)
            &&& (cop == syn::CmpOp::Eq ==> c->BinOp_0.kind == BinOpKind::Eq)
            &&& (cop == syn::CmpOp::Gt ==> c->BinOp_0.kind == BinOpKind::Gt)
        }),
{
}

// ---------------------------------------------------------------------------
// Executable translation

impl From<syn::ArithOp> for BinOpKind {
    fn from(op: syn::ArithOp) -> (k: Self) {
        match op {
            syn::ArithOp::Add => BinOpKind::Add,
            syn::ArithOp::Sub => BinOpKind::Sub,
            syn::ArithOp::Mul => BinOpKind::Mul,
            syn::ArithOp::Div => BinOpKind::Div,
        }
    }
}

impl vstd::std_specs::convert::FromSpecImpl<syn::ArithOp> for BinOpKind {
    open spec fn obeys_from_spec() -> bool {
        true
    }

    open spec fn from_spec(op: syn::ArithOp) -> Self {
        arith_kind(op)
    }
}

impl From<syn::CmpOp> for BinOpKind {
    fn from(op: syn::CmpOp) -> (k: Self) {
        match op {
            syn::CmpOp::Lt => BinOpKind::Lt,
            syn::CmpOp::Eq => BinOpKind::Eq,
            syn::CmpOp::Gt => BinOpKind::Gt,
        }
    }
}

impl vstd::std_specs::convert::FromSpecImpl<syn::CmpOp> for BinOpKind {
    open spec fn obeys_from_spec() -> bool {
        true
    }

    open spec fn from_spec(op: syn::CmpOp) -> Self {
        comparison_kind(op)
    }
}

impl Ir {
    /// The application of `self` to `arg`.
    fn apply(self, arg: Ir) -> (r: Ir)
        ensures
            r == mk_apply(self, arg),
    {
        Ir::Apply(Box::new(Apply { fun: self, arg }))
    }
}

fn if_eq(lhs: Ir, rhs: Ir, tru: Ir, fls: Ir) -> (r: Ir)
    ensures
        r == spec_if_eq(lhs, rhs, tru, fls),
{
    Ir::If(Box::new(If { cond: Ir::BinOp(Box::new(BinOp { lhs, rhs, kind: BinOpKind::Eq })), tru, fls }))
}

fn undefined() -> (r: Ir)
    ensures
        r == spec_undefined(),
{
    Ir::BinOp(Box::new(BinOp { lhs: Ir::IntLiteral(0), rhs: Ir::IntLiteral(0), kind: BinOpKind::Div }))
}

fn let_(fun: Fun, body: Ir) -> (r: Ir)
    ensures
        r == spec_let(fun, body),
{
    let name = fun.fun_name;
    Ir::Apply(Box::new(Apply {
        fun: Ir::Fun(Box::new(Fun { fun_name: ANON_NAME, arg_name: name, body })),
        arg: Ir::Fun(Box::new(fun)),
    }))
}

fn lets(bindings: Vec<Fun>, body: Ir) -> (r: Ir)
    ensures
        r == spec_lets(bindings@, body),
    decreases bindings@.len(),
{
    let mut bindings = bindings;
    let ghost all = bindings@;
    match bindings.pop() {
        Some(head) => {
            assert(bindings@ =~= all.drop_last());
            lets(bindings, let_(head, body))
        },
        None => body,
    }
}

/// The function of a `let rec` with tag `my_tag`, with the other functions
/// of the group bound around its body.
fn fun_wrapper(my_tag: i64, fun: Fun, fun_names: &Vec<Name>) -> (r: Ir)
    requires
        fun_names@.len() <= MAX_IDENTS,
    ensures
        r == spec_fun_wrapper(my_tag as int, fun, fun_names@),
{
    let mut bindings: Vec<Fun> = Vec::new();
    let mut i: usize = 0;
    while i < fun_names.len()
        invariant
            i <= fun_names@.len(),
            fun_names@.len() <= MAX_IDENTS,
            bindings@ == wrapper_bindings(fun_names@, my_tag as int, i as int),
        decreases fun_names@.len() - i,
    {
        let fun_tag = i as i64;
        if fun_tag != my_tag {
            let x = ANON_NAME;
            bindings.push(Fun {
                fun_name: fun_names[i],
                arg_name: x,
                body: Ir::Var(DISPATCH_NAME).apply(Ir::IntLiteral(fun_tag)).apply(Ir::Var(x)),
            });
        }
        i += 1;
    }
    let name = fun.fun_name;
    let arg = fun.arg_name;
    Ir::Fun(Box::new(Fun { fun_name: name, arg_name: arg, body: lets(bindings, fun.body) }))
}

pub proof fn lemma_funs_ident_count(funs: Seq<syn::Fun>, n: int)
    requires
        0 <= n <= funs.len(),
    ensures
        funs_ident_count(funs, n) >= 2 * n,
        forall|i: int| 0 <= i < n ==> funs_ident_count(funs, i) + 2 + ident_count(#[trigger] funs[i].body)
            <= funs_ident_count(funs, n),
    decreases n,
{
    if n > 0 {
        lemma_funs_ident_count(funs, n - 1);
    }
}

/// The name of the `i`-th function of a group, as the translation lists them.
pub open spec fn fun_names_of(funs: Seq<Fun>) -> Seq<Name> {
    funs.map_values(|f: Fun| f.fun_name)
}

impl Expr {
    /// The translation of this expression, numbering new identifiers.
    fn desugar(&self, renamer: &mut Renamer) -> (ir: Ir)
        requires
            old(renamer)@.len() + ident_count(*self) <= MAX_IDENTS,
            old(renamer)@.no_duplicates(),
        ensures
            final(renamer)@.no_duplicates(),
            (ir, final(renamer)@) == spec_desugar(*self, old(renamer)@),
            final(renamer)@.len() <= old(renamer)@.len() + ident_count(*self),
        decreases self, 0nat,
    {
        match self {
            Expr::Var(v) => Ir::Var(renamer.lookup(v)),
            Expr::Literal(syn::Literal::Number(n)) => Ir::IntLiteral(*n),
            Expr::Literal(syn::Literal::Bool(b)) => Ir::BoolLiteral(*b),
            Expr::ArithBinOp(op) => {
                let lhs = op.lhs.desugar(renamer);
                let rhs = op.rhs.desugar(renamer);
                Ir::BinOp(Box::new(BinOp { lhs, rhs, kind: BinOpKind::from(op.kind) }))
            },
            Expr::CmpBinOp(op) => {
                let lhs = op.lhs.desugar(renamer);
                let rhs = op.rhs.desugar(renamer);
                Ir::BinOp(Box::new(BinOp { lhs, rhs, kind: BinOpKind::from(op.kind) }))
            },
            Expr::If(if_) => {
                let cond = if_.cond.desugar(renamer);
                let tru = if_.tru.desugar(renamer);
                let fls = if_.fls.desugar(renamer);
                Ir::If(Box::new(If { cond, tru, fls }))
            },
            Expr::Fun(fun) => Ir::Fun(Box::new(desugar_fun(fun, renamer))),
            Expr::LetFun(let_fun) => let_fun.desugar(renamer),
            Expr::LetRec(let_rec) => let_rec.desugar(renamer),
            Expr::Apply(apply) => {
                let fun = apply.fun.desugar(renamer);
                let arg = apply.arg.desugar(renamer);
                Ir::Apply(Box::new(Apply { fun, arg }))
            },
        }
    }
}

/// The translation of a function: its name, then its argument, then its body.
fn desugar_fun(fun: &syn::Fun, renamer: &mut Renamer) -> (f: Fun)
    requires
        old(renamer)@.len() + 2 + ident_count(fun.body) <= MAX_IDENTS,
        old(renamer)@.no_duplicates(),
    ensures
        final(renamer)@.no_duplicates(),
        (f, final(renamer)@) == spec_desugar_fun(fun.fun_name@, fun.arg_name@, fun.body, old(renamer)@),
        final(renamer)@.len() <= old(renamer)@.len() + 2 + ident_count(fun.body),
    decreases fun.body, 1nat,
{
    let fun_name = renamer.lookup(&fun.fun_name);
    let arg_name = renamer.lookup(&fun.arg_name);
    let body = fun.body.desugar(renamer);
    Fun { fun_name, arg_name, body }
}

impl syn::LetFun {
    /// `let fun f ... in body` becomes the call of a function of `f`,
    /// whose body is `body`, with the function itself.
    fn desugar(&self, renamer: &mut Renamer) -> (ir: Ir)
        requires
            old(renamer)@.len() + 3 + ident_count(self.fun.body) + ident_count(self.body) <= MAX_IDENTS,
            old(renamer)@.no_duplicates(),
        ensures
            final(renamer)@.no_duplicates(),
            (ir, final(renamer)@) == spec_desugar(Expr::LetFun(Box::new(*self)), old(renamer)@),
            final(renamer)@.len() <= old(renamer)@.len() + 3 + ident_count(self.fun.body) + ident_count(self.body),
        decreases self, 0nat,
    {
        let fun = desugar_fun(&self.fun, renamer);
        let expr = self.body.desugar(renamer);
        let name = renamer.lookup(&self.fun.fun_name);
        Ir::Apply(Box::new(Apply {
            fun: Ir::Fun(Box::new(Fun { fun_name: ANON_NAME, arg_name: name, body: expr })),
            arg: Ir::Fun(Box::new(fun)),
        }))
    }
}

impl syn::LetRec {
    /// A group of functions that call each other becomes one dispatcher:
    /// a function of a tag that returns the function with that tag, in
    /// whose body the other functions are bound to calls of the dispatcher.
    fn desugar(&self, renamer: &mut Renamer) -> (ir: Ir)
        requires
            old(renamer)@.len() + funs_ident_count(self.funs@, self.funs@.len() as int) + ident_count(self.body)
                <= MAX_IDENTS,
            old(renamer)@.no_duplicates(),
        ensures
            final(renamer)@.no_duplicates(),
            (ir, final(renamer)@) == spec_desugar(Expr::LetRec(Box::new(*self)), old(renamer)@),
            final(renamer)@.len() <= old(renamer)@.len() + funs_ident_count(self.funs@, self.funs@.len() as int)
                + ident_count(self.body),
        decreases self, 0nat,
    {
        let ghost names0 = renamer@;
        let ghost total = funs_ident_count(self.funs@, self.funs@.len() as int);
        proof {
            lemma_funs_ident_count(self.funs@, self.funs@.len() as int);
        }
        let mut funs: Vec<Fun> = Vec::new();
        let mut i: usize = 0;
        while i < self.funs.len()
            invariant
                i <= self.funs@.len(),
                (funs@, renamer@) == spec_desugar_funs(self.funs@, i as int, names0),
                renamer@.no_duplicates(),
                renamer@.len() <= names0.len() + funs_ident_count(self.funs@, i as int),
                names0.len() + total + ident_count(self.body) <= MAX_IDENTS,
                total == funs_ident_count(self.funs@, self.funs@.len() as int),
                forall|k: int| 0 <= k < self.funs@.len() ==> funs_ident_count(self.funs@, k) + 2
                    + ident_count(#[trigger] self.funs@[k].body) <= total,
            decreases self.funs@.len() - i,
        {
            proof {
                assert(decreases_to!(self => self.funs@[i as int].body));
            }
            let f = desugar_fun(&self.funs[i], renamer);
            funs.push(f);
            i += 1;
        }
        let ghost all = funs@;
        assert(all.len() == self.funs@.len()) by {
            lemma_desugar_funs_len(self.funs@, self.funs@.len() as int, names0);
        }
        let mut fun_names: Vec<Name> = Vec::new();
        let mut i: usize = 0;
        while i < funs.len()
            invariant
                i <= funs@.len(),
                funs@ == all,
                fun_names@ == fun_names_of(all).take(i as int),
            decreases funs@.len() - i,
        {
            fun_names.push(funs[i].fun_name);
            i += 1;
            assert(fun_names@ =~= fun_names_of(all).take(i as int));
        }
        assert(fun_names@ =~= fun_names_of(all));
        let mut result = undefined();
        let mut i: usize = 0;
        while funs.len() > 0
            invariant
                i <= all.len(),
                all.len() <= MAX_IDENTS,
                funs@ == all.skip(i as int),
                fun_names@ == fun_names_of(all),
                result == spec_dispatch(all, fun_names_of(all), i as int),
            decreases funs@.len(),
        {
            let fun = funs.remove(0);
            assert(fun == all[i as int]);
            result = if_eq(Ir::Var(DISPATCH_ARG), Ir::IntLiteral(i as i64), fun_wrapper(i as i64, fun, &fun_names), result);
            i += 1;
            assert(funs@ =~= all.skip(i as int));
        }
        let dispatch_fun = Ir::Fun(Box::new(Fun { fun_name: DISPATCH_NAME, arg_name: DISPATCH_ARG, body: result }));
        let mut result = self.body.desugar(renamer);
        let ghost body = result;
        let mut i: usize = 0;
        while i < fun_names.len()
            invariant
                i <= fun_names@.len(),
                fun_names@.len() <= MAX_IDENTS,
                result == spec_bind_names(fun_names@, i as int, body),
            decreases fun_names@.len() - i,
        {
            let f = Ir::Fun(Box::new(Fun { fun_name: ANON_NAME, arg_name: fun_names[i], body: result }));
            result = f.apply(Ir::Var(DISPATCH_NAME).apply(Ir::IntLiteral(i as i64)));
            i += 1;
        }
        let f = Ir::Fun(Box::new(Fun { fun_name: ANON_NAME, arg_name: DISPATCH_NAME, body: result }));
        f.apply(dispatch_fun)
    }
}

pub proof fn lemma_desugar_funs_len(funs: Seq<syn::Fun>, n: int, names: Seq<Seq<char>>)
    requires
        0 <= n <= funs.len(),
    ensures
        spec_desugar_funs(funs, n, names).0.len() == n,
    decreases n,
{
    if n > 0 {
        lemma_desugar_funs_len(funs, n - 1, names);
    }
}

/// The translation of `expr` into the intermediate representation.
pub fn desugar(expr: &Expr) -> (ir: Ir)
    requires
        ident_count(*expr) <= MAX_IDENTS,
    ensures
        ir == spec_desugar(*expr, Seq::empty()).0,
{
    let mut renamer = Renamer::empty();
    expr.desugar(&mut renamer)
}

} // verus!
