//! The compiler from the intermediate representation to machine code.
use vstd::prelude::*;
use crate::ir::{BinOpKind, Ir, desugar, spec_desugar, MAX_IDENTS};
use crate::machine::program::{ArithInstruction, CmpInstruction, Frame, Instruction, Name};
use crate::syntax::exprs::{ArithOp, BinOp as SynBinOp, CmpOp, Expr, Literal, ident_count};
use crate::machine::operations::{law_arithmetic_program, law_comparison_program, truncated_quotient};
use crate::machine::semantics::{initial_state, run, Fault, Observed, Outcome};

verus! {

/// The instruction that performs `kind` on the two topmost values.
pub open spec fn op_instruction(kind: BinOpKind) -> Instruction {
    match kind {
        BinOpKind::Add => Instruction::ArithInstruction(ArithInstruction::Add),
        BinOpKind::Sub => Instruction::ArithInstruction(ArithInstruction::Sub),
        BinOpKind::Mul => Instruction::ArithInstruction(ArithInstruction::Mul),
        BinOpKind::Div => Instruction::ArithInstruction(ArithInstruction::Div),
        BinOpKind::Lt => Instruction::CmpInstruction(CmpInstruction::Lt),
        BinOpKind::Eq => Instruction::CmpInstruction(CmpInstruction::Eq),
        BinOpKind::Gt => Instruction::CmpInstruction(CmpInstruction::Gt),
    }
}

/// The number of instructions that `ir` compiles to, nested frames not
/// counted.
pub open spec fn code_len(ir: Ir) -> nat
    decreases ir,
{
    match ir {
        Ir::Var(_) => 1,
        Ir::IntLiteral(_) => 1,
        Ir::BoolLiteral(_) => 1,
        Ir::BinOp(b) => code_len(b.lhs) + code_len(b.rhs) + 1,
        Ir::If(i) => code_len(i.cond) + 1,
        Ir::Fun(_) => 1,
        Ir::Apply(a) => code_len(a.fun) + code_len(a.arg) + 1,
    }
}

/// `code` is the compiled form of `ir`:
/// - a variable, a literal: the instruction that pushes it;
/// - an operation: its left operand, its right operand, the operation;
/// - `if`: the condition, then a branch to the compiled arms;
/// - a function: a closure whose frame is the compiled body followed by
///   leaving the environment;
/// - an application: the function, the argument, the call.
pub open spec fn compiled(ir: Ir, code: Seq<Instruction>) -> bool
    decreases ir,
{
    code.len() == code_len(ir) && match ir {
        Ir::Var(n) => code[0] == Instruction::Var(n),
        Ir::IntLiteral(i) => code[0] == Instruction::PushInt(i),
        Ir::BoolLiteral(b) => code[0] == Instruction::PushBool(b),
        Ir::BinOp(b) => {
            let k = code_len(b.lhs) as int;
            &&& compiled(b.lhs, code.take(k))
            &&& compiled(b.rhs, code.subrange(k, code.len() - 1))
            &&& code.last() == op_instruction(b.kind)
        },
        Ir::If(i) => {
            &&& compiled(i.cond, code.drop_last())
            &&& code.last() matches Instruction::Branch(t, f)
            &&& compiled(i.tru, t@)
            &&& compiled(i.fls, f@)
        },
        Ir::Fun(f) => {
            &&& code[0] matches Instruction::Closure { name, arg, frame }
            &&& name == f.fun_name
            &&& arg == f.arg_name
            &&& compiled(f.body, frame@.drop_last())
            &&& frame@.len() > 0
            &&& frame@.last() == Instruction::PopEnv
        },
        Ir::Apply(a) => {
            let k = code_len(a.fun) as int;
            &&& compiled(a.fun, code.take(k))
            &&& compiled(a.arg, code.subrange(k, code.len() - 1))
            &&& code.last() == Instruction::Call
        },
    }
}

/// An instruction with its nested frames taken by their contents.
pub enum Code {
    Arith(ArithInstruction),
    Cmp(CmpInstruction),
    PushInt(i64),
    PushBool(bool),
    Branch(Seq<Code>, Seq<Code>),
    Var(Name),
    Closure(Name, Name, Seq<Code>),
    Call,
    PopEnv,
}

/// The contents of an instruction, its nested frames included.
pub open spec fn code_of(i: Instruction) -> Code
    decreases i,
{
    match i {
        Instruction::ArithInstruction(op) => Code::Arith(op),
        Instruction::CmpInstruction(op) => Code::Cmp(op),
        Instruction::PushInt(n) => Code::PushInt(n),
        Instruction::PushBool(b) => Code::PushBool(b),
        Instruction::Branch(t, f) => Code::Branch(
            Seq::new(t@.len(), |j: int| if 0 <= j < t@.len() { code_of(t@[j]) } else { Code::Call }),
            Seq::new(f@.len(), |j: int| if 0 <= j < f@.len() { code_of(f@[j]) } else { Code::Call }),
        ),
        Instruction::Var(n) => Code::Var(n),
        Instruction::Closure { name, arg, frame } => Code::Closure(
            name,
            arg,
            Seq::new(frame@.len(), |j: int| if 0 <= j < frame@.len() { code_of(frame@[j]) } else { Code::Call }),
        ),
        Instruction::Call => Code::Call,
        Instruction::PopEnv => Code::PopEnv,
    }
}

/// The contents of a sequence of instructions.
pub open spec fn codes_of(c: Seq<Instruction>) -> Seq<Code> {
    c.map_values(|i: Instruction| code_of(i))
}

/// Two sequences of instructions hold the same contents where they do at
/// every place.
proof fn lemma_codes_agree(c1: Seq<Instruction>, c2: Seq<Instruction>)
    requires
        c1.len() == c2.len(),
        forall|j: int| 0 <= j < c1.len() ==> code_of(#[trigger] c1[j]) == code_of(c2[j]),
    ensures
        codes_of(c1) == codes_of(c2),
{
    assert(codes_of(c1) =~= codes_of(c2));
}

/// From equal contents of two sequences, equal contents at each place.
proof fn lemma_codes_at(c1: Seq<Instruction>, c2: Seq<Instruction>)
    requires
        codes_of(c1) == codes_of(c2),
    ensures
        c1.len() == c2.len(),
        forall|j: int| 0 <= j < c1.len() ==> code_of(#[trigger] c1[j]) == code_of(c2[j]),
{
    assert(codes_of(c1).len() == c1.len());
    assert(codes_of(c2).len() == c2.len());
    assert forall|j: int| 0 <= j < c1.len() implies code_of(#[trigger] c1[j]) == code_of(c2[j]) by {
        assert(codes_of(c1)[j] == code_of(c1[j]));
        assert(codes_of(c2)[j] == code_of(c2[j]));
    }
}

/// The code of an IR expression is one: two codes compiled from the same
/// expression hold the same instructions, nested frames included.
pub proof fn law_compiled_unique(ir: Ir, c1: Seq<Instruction>, c2: Seq<Instruction>)
    requires
        compiled(ir, c1),
        compiled(ir, c2),
    ensures
        codes_of(c1) == codes_of(c2),
    decreases ir,
{
    match ir {
        Ir::BinOp(b) => {
            let k = code_len(b.lhs) as int;
            law_compiled_unique(b.lhs, c1.take(k), c2.take(k));
            law_compiled_unique(b.rhs, c1.subrange(k, c1.len() - 1), c2.subrange(k, c2.len() - 1));
            lemma_codes_at(c1.take(k), c2.take(k));
            lemma_codes_at(c1.subrange(k, c1.len() - 1), c2.subrange(k, c2.len() - 1));
            assert forall|j: int| 0 <= j < c1.len() implies code_of(#[trigger] c1[j]) == code_of(c2[j]) by {
                if j < k {
                    assert(c1.take(k)[j] == c1[j] && c2.take(k)[j] == c2[j]);
                } else if j < c1.len() - 1 {
                    assert(c1.subrange(k, c1.len() - 1)[j - k] == c1[j]);
                    assert(c2.subrange(k, c2.len() - 1)[j - k] == c2[j]);
                }
            }
            lemma_codes_agree(c1, c2);
        },
        Ir::Apply(a) => {
            let k = code_len(a.fun) as int;
            law_compiled_unique(a.fun, c1.take(k), c2.take(k));
            law_compiled_unique(a.arg, c1.subrange(k, c1.len() - 1), c2.subrange(k, c2.len() - 1));
            lemma_codes_at(c1.take(k), c2.take(k));
            lemma_codes_at(c1.subrange(k, c1.len() - 1), c2.subrange(k, c2.len() - 1));
            assert forall|j: int| 0 <= j < c1.len() implies code_of(#[trigger] c1[j]) == code_of(c2[j]) by {
                if j < k {
                    assert(c1.take(k)[j] == c1[j] && c2.take(k)[j] == c2[j]);
                } else if j < c1.len() - 1 {
                    assert(c1.subrange(k, c1.len() - 1)[j - k] == c1[j]);
                    assert(c2.subrange(k, c2.len() - 1)[j - k] == c2[j]);
                }
            }
            lemma_codes_agree(c1, c2);
        },
        Ir::If(i) => {
            law_compiled_unique(i.cond, c1.drop_last(), c2.drop_last());
            lemma_codes_at(c1.drop_last(), c2.drop_last());
            let b1 = c1.last();
            let b2 = c2.last();
            let t1 = b1->Branch_0;
            let f1 = b1->Branch_1;
            let t2 = b2->Branch_0;
            let f2 = b2->Branch_1;
            law_compiled_unique(i.tru, t1@, t2@);
            law_compiled_unique(i.fls, f1@, f2@);
            lemma_codes_at(t1@, t2@);
            lemma_codes_at(f1@, f2@);
            assert(b1 == Instruction::Branch(t1, f1));
            assert(b2 == Instruction::Branch(t2, f2));
            assert(code_of(b1)->Branch_0 =~= code_of(b2)->Branch_0);
            assert(code_of(b1)->Branch_1 =~= code_of(b2)->Branch_1);
            assert(code_of(b1) == code_of(b2));
            assert forall|j: int| 0 <= j < c1.len() implies code_of(#[trigger] c1[j]) == code_of(c2[j]) by {
                if j < c1.len() - 1 {
                    assert(c1.drop_last()[j] == c1[j] && c2.drop_last()[j] == c2[j]);
                }
            }
            lemma_codes_agree(c1, c2);
        },
        Ir::Fun(f) => {
            let i1 = c1[0];
            let i2 = c2[0];
            let fr1 = i1->frame;
            let fr2 = i2->frame;
            law_compiled_unique(f.body, fr1@.drop_last(), fr2@.drop_last());
            lemma_codes_at(fr1@.drop_last(), fr2@.drop_last());
            assert forall|j: int| 0 <= j < fr1@.len() implies code_of(#[trigger] fr1@[j]) == code_of(fr2@[j]) by {
                if j < fr1@.len() - 1 {
                    assert(fr1@.drop_last()[j] == fr1@[j] && fr2@.drop_last()[j] == fr2@[j]);
                }
            }
            assert(code_of(i1)->Closure_2 =~= code_of(i2)->Closure_2);
            assert(code_of(i1) == code_of(i2));
            lemma_codes_agree(c1, c2);
        },
        _ => {
            lemma_codes_agree(c1, c2);
        },
    }
}

/// Compiled code is the composition of the code of the parts: for an
/// operation and an application, the code of the left part, then of the
/// right part, then the operation or the call.
pub proof fn law_compile_by_parts(
    l: Ir,
    r: Ir,
    kind: BinOpKind,
    c: Seq<Instruction>,
    d: Seq<Instruction>,
    c1: Seq<Instruction>,
    c2: Seq<Instruction>,
)
    requires
        compiled(crate::ir::mk_binop(l, r, kind), c),
        compiled(crate::ir::mk_apply(l, r), d),
        compiled(l, c1),
        compiled(r, c2),
    ensures
        codes_of(c) == codes_of(c1 + c2.push(op_instruction(kind))),
        codes_of(d) == codes_of(c1 + c2.push(Instruction::Call)),
{
    law_compiled_composes(l, r, kind, c1, c2);
    law_compiled_unique(crate::ir::mk_binop(l, r, kind), c, c1 + c2.push(op_instruction(kind)));
    law_compiled_unique(crate::ir::mk_apply(l, r), d, c1 + c2.push(Instruction::Call));
}

/// The code of an operation or an application is the code of its left part,
/// then the code of its right part, then one instruction: the operation, or
/// the call.
pub proof fn law_compiled_composes(l: Ir, r: Ir, kind: BinOpKind, c1: Seq<Instruction>, c2: Seq<Instruction>)
    requires
        compiled(l, c1),
        compiled(r, c2),
    ensures
        compiled(crate::ir::mk_binop(l, r, kind), c1 + c2.push(op_instruction(kind))),
        compiled(crate::ir::mk_apply(l, r), c1 + c2.push(Instruction::Call)),
{
    let a = c1 + c2.push(op_instruction(kind));
    let b = c1 + c2.push(Instruction::Call);
    assert(a.take(c1.len() as int) =~= c1);
    assert(a.subrange(c1.len() as int, a.len() - 1) =~= c2);
    assert(b.take(c1.len() as int) =~= c1);
    assert(b.subrange(c1.len() as int, b.len() - 1) =~= c2);
}

fn op_to_instruction(kind: BinOpKind) -> (i: Instruction)
    ensures
        i == op_instruction(kind),
{
    match kind {
        BinOpKind::Add => Instruction::ArithInstruction(ArithInstruction::Add),
        BinOpKind::Sub => Instruction::ArithInstruction(ArithInstruction::Sub),
        BinOpKind::Mul => Instruction::ArithInstruction(ArithInstruction::Mul),
        BinOpKind::Div => Instruction::ArithInstruction(ArithInstruction::Div),
        BinOpKind::Lt => Instruction::CmpInstruction(CmpInstruction::Lt),
        BinOpKind::Eq => Instruction::CmpInstruction(CmpInstruction::Eq),
        BinOpKind::Gt => Instruction::CmpInstruction(CmpInstruction::Gt),
    }
}

/// A closure of `body` named `fun_name` with argument `arg_name`.
fn make_closure(fun_name: Name, arg_name: Name, body: &Ir) -> (i: Instruction)
    ensures
        i matches Instruction::Closure { name, arg, frame } && name == fun_name && arg == arg_name
            && frame@.len() > 0 && compiled(*body, frame@.drop_last()) && frame@.last() == Instruction::PopEnv,
    decreases body, 1nat,
{
    let mut frame = body.compile();
    let ghost code = frame@;
    frame.push(Instruction::PopEnv);
    assert(frame@.drop_last() =~= code);
    Instruction::Closure { name: fun_name, arg: arg_name, frame }
}

impl Ir {
    /// The machine code of this expression.
    pub fn compile(&self) -> (f: Frame)
        ensures
            compiled(*self, f@),
        decreases self, 0nat,
    {
        match self {
            Ir::Var(name) => vec![Instruction::Var(*name)],
            Ir::IntLiteral(i) => vec![Instruction::PushInt(*i)],
            Ir::BoolLiteral(b) => vec![Instruction::PushBool(*b)],
            Ir::BinOp(op) => {
                let mut result = op.lhs.compile();
                let ghost l = result@;
                let mut rhs = op.rhs.compile();
                let ghost r = rhs@;
                result.append(&mut rhs);
                result.push(op_to_instruction(op.kind));
                proof {
                    let k = l.len() as int;
                    assert(result@.take(k) =~= l);
                    assert(result@.subrange(k, result@.len() - 1) =~= r);
                }
                result
            },
            Ir::If(if_) => {
                let mut result = if_.cond.compile();
                let ghost c = result@;
                result.push(Instruction::Branch(if_.tru.compile(), if_.fls.compile()));
                assert(result@.drop_last() =~= c);
                result
            },
            Ir::Fun(fun) => vec![make_closure(fun.fun_name, fun.arg_name, &fun.body)],
            Ir::Apply(apply) => {
                let mut result = apply.fun.compile();
                let ghost l = result@;
                let mut arg = apply.arg.compile();
                let ghost r = arg@;
                result.append(&mut arg);
                result.push(Instruction::Call);
                proof {
                    let k = l.len() as int;
                    assert(result@.take(k) =~= l);
                    assert(result@.subrange(k, result@.len() - 1) =~= r);
                }
                result
            },
        }
    }
}

/// The machine code of `expr`: its translation into the intermediate
/// representation, compiled.
pub fn compile(expr: &Expr) -> (f: Frame)
    requires
        ident_count(*expr) <= MAX_IDENTS,
    ensures
        compiled(spec_desugar(*expr, Seq::empty()).0, f@),
{
    let ir = desugar(expr);
    ir.compile()
}

/// The expression `a OP b` of two number literals.
pub open spec fn literal_operation<T>(op: T, a: i64, b: i64) -> SynBinOp<T> {
    SynBinOp { kind: op, lhs: Expr::Literal(Literal::Number(a)), rhs: Expr::Literal(Literal::Number(b)) }
}

proof fn lemma_literal_code(a: i64, b: i64, k: BinOpKind, program: Frame)
    requires
        compiled(crate::ir::mk_binop(Ir::IntLiteral(a), Ir::IntLiteral(b), k), program@),
    ensures
        program@ == seq![Instruction::PushInt(a), Instruction::PushInt(b), op_instruction(k)],
{
    let c = program@;
    assert(compiled(Ir::IntLiteral(a), c.take(1)));
    assert(compiled(Ir::IntLiteral(b), c.subrange(1, c.len() - 1)));
    assert(c.take(1)[0] == c[0]);
    assert(c.subrange(1, c.len() - 1)[0] == c[1]);
    assert(c =~= seq![Instruction::PushInt(a), Instruction::PushInt(b), op_instruction(k)]);
}

/// A comparison of two number literals, translated, compiled and run, ends
/// with whether `a < b`, `a == b` or `a > b`, as the operator says.
pub proof fn law_literal_comparison(op: CmpOp, a: i64, b: i64, program: Frame)
    requires
        compiled(spec_desugar(Expr::CmpBinOp(Box::new(literal_operation(op, a, b))), Seq::empty()).0, program@),
    ensures
        op == CmpOp::Lt ==> run(initial_state(program)) == Outcome::Value(Observed::Bool(a < b)),
        op == CmpOp::Eq ==> run(initial_state(program)) == Outcome::Value(Observed::Bool(a == b)),
        op == CmpOp::Gt ==> run(initial_state(program)) == Outcome::Value(Observed::Bool(a > b)),
{
    let la = Expr::Literal(Literal::Number(a));
    let lb = Expr::Literal(Literal::Number(b));
    assert(spec_desugar(la, Seq::empty()) == (Ir::IntLiteral(a), Seq::<Seq<char>>::empty()));
    assert(spec_desugar(lb, Seq::empty()) == (Ir::IntLiteral(b), Seq::<Seq<char>>::empty()));
    let k = crate::ir::comparison_kind(op);
    lemma_literal_code(a, b, k, program);
    law_comparison_program(a, b, op_instruction(k)->CmpInstruction_0, program);
}

/// An arithmetic operation on two number literals, translated, compiled and
/// run, ends with the sum, difference, product or quotient (rounded toward
/// zero), as the operator says; with a crash where it does not fit in 64
/// bits, and with the division-by-zero fault for a division by zero.
pub proof fn law_literal_arithmetic(op: ArithOp, a: i64, b: i64, program: Frame)
    requires
        compiled(spec_desugar(Expr::ArithBinOp(Box::new(literal_operation(op, a, b))), Seq::empty()).0, program@),
    ensures
        op == ArithOp::Add ==> run(initial_state(program)) == if i64::MIN <= a + b <= i64::MAX {
            Outcome::Value(Observed::Int((a + b) as i64))
        } else {
            Outcome::Crash
        },
        op == ArithOp::Sub ==> run(initial_state(program)) == if i64::MIN <= a - b <= i64::MAX {
            Outcome::Value(Observed::Int((a - b) as i64))
        } else {
            Outcome::Crash
        },
        op == ArithOp::Mul ==> run(initial_state(program)) == if i64::MIN <= a * b <= i64::MAX {
            Outcome::Value(Observed::Int((a * b) as i64))
        } else {
            Outcome::Crash
        },
        op == ArithOp::Div ==> if b == 0 {
            run(initial_state(program)) == Outcome::Fault(Fault::DivisionByZero)
        } else if a == i64::MIN && b == -1 {
            run(initial_state(program)) == Outcome::Crash
        } else {
            run(initial_state(program)) matches Outcome::Value(Observed::Int(q))
                && truncated_quotient(a as int, b as int, q as int)
        },
{
    let la = Expr::Literal(Literal::Number(a));
    let lb = Expr::Literal(Literal::Number(b));
    assert(spec_desugar(la, Seq::empty()) == (Ir::IntLiteral(a), Seq::<Seq<char>>::empty()));
    assert(spec_desugar(lb, Seq::empty()) == (Ir::IntLiteral(b), Seq::<Seq<char>>::empty()));
    let k = crate::ir::arith_kind(op);
    lemma_literal_code(a, b, k, program);
    law_arithmetic_program(a, b, op_instruction(k)->ArithInstruction_0, program);
}

} // verus!
