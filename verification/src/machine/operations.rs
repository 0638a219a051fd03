//! What the machine's operations compute, in terms of the integers.
use vstd::prelude::*;
use vstd::arithmetic::div_mod::{lemma_fundamental_div_mod, lemma_mod_pos_bound};
use crate::machine::program::{ArithInstruction, CmpInstruction, Frame, Instruction};
use crate::machine::semantics::{
    fetch, finish, initial_state, outcome, run, step, step_budget, Fault, Halt, MState, Observed, Outcome, SValue, Stop,
};

verus! {

/// A comparison pops its right operand `b`, then its left operand `a`, and
/// pushes whether `a < b`, `a == b` or `a > b`; nothing else changes.
pub proof fn law_comparison_step(s: MState, vs: Seq<SValue>, a: i64, b: i64)
    requires
        s.values == vs.push(SValue::Int(a)).push(SValue::Int(b)),
    ensures
        step(s, Instruction::CmpInstruction(CmpInstruction::Lt))
            == Ok::<MState, Stop>(MState { values: vs.push(SValue::Bool(a < b)), ..s }),
        step(s, Instruction::CmpInstruction(CmpInstruction::Eq))
            == Ok::<MState, Stop>(MState { values: vs.push(SValue::Bool(a == b)), ..s }),
        step(s, Instruction::CmpInstruction(CmpInstruction::Gt))
            == Ok::<MState, Stop>(MState { values: vs.push(SValue::Bool(a > b)), ..s }),
{
    assert(s.values.drop_last().drop_last() =~= vs);
    assert(s.values.drop_last().last() == SValue::Int(a));
}

/// `q` is the quotient of `a` by `b` rounded toward zero: the remainder
/// `a - q * b` is smaller than `b` in size and has the sign of `a`.
pub open spec fn truncated_quotient(a: int, b: int, q: int) -> bool {
    let r = a - q * b;
    &&& (if r < 0 { -r } else { r }) < (if b < 0 { -b } else { b })
    &&& (r == 0 || (r > 0) == (a > 0))
}

/// Division of a positive `x` by a positive `d`.
#[verifier::spinoff_prover]
proof fn lemma_div_pos(x: int, d: int)
    requires
        x > 0,
        d > 0,
    ensures
        0 <= x / d <= x,
        0 <= x - (x / d) * d < d,
        x - (x / d) * d == x % d,
        d >= 2 ==> 2 * (x / d) <= x,
{
    lemma_fundamental_div_mod(x, d);
    lemma_mod_pos_bound(x, d);
    let q = x / d;
    let r = x % d;
    assert(0 <= q <= x) by (nonlinear_arith)
        requires x == d * q + r, 0 <= r < d, x > 0, d > 0;
    assert(d >= 2 ==> 2 * q <= x) by (nonlinear_arith)
        requires x == d * q + r, 0 <= r < d, x > 0, q >= 0;
    assert(x - q * d == r) by (nonlinear_arith)
        requires x == d * q + r;
}

#[verifier::spinoff_prover]
proof fn lemma_checked_div(a: i64, b: i64)
    requires
        b != 0,
        !(a == i64::MIN && b == -1),
    ensures
        a.checked_div(b) matches Some(q) && truncated_quotient(a as int, b as int, q as int),
{
    let x = a as int;
    let d = b as int;
    if x == 0 {
        assert(a.checked_div(b) == Some(0i64));
        assert(x - 0 * d == 0) by (nonlinear_arith)
            requires x == 0;
        assert(truncated_quotient(x, d, 0));
    } else if x > 0 && d > 0 {
        lemma_div_pos(x, d);
        let q = x / d;
        assert(truncated_quotient(x, d, q));
        assert(((q as i64) as int) == q);
        assert(a.checked_div(b) == Some(q as i64));
    } else if x < 0 && d < 0 {
        let nx = x * -1;
        let nd = d * -1;
        lemma_div_pos(nx, nd);
        let q = nx / nd;
        assert(q <= i64::MAX);
        assert(x - q * d == -(nx - q * nd)) by (nonlinear_arith)
            requires nx == x * -1, nd == d * -1;
        assert(truncated_quotient(x, d, q));
        assert(((q as i64) as int) == q);
        assert(a.checked_div(b) == Some(q as i64));
    } else if x < 0 {
        let nx = x * -1;
        lemma_div_pos(nx, d);
        let q = nx / d;
        assert(x - (q * -1) * d == -(nx - q * d)) by (nonlinear_arith)
            requires nx == x * -1;
        assert(truncated_quotient(x, d, q * -1));
        assert((((q * -1) as i64) as int) == q * -1);
        assert(a.checked_div(b) == Some((q * -1) as i64));
    } else {
        let nd = d * -1;
        lemma_div_pos(x, nd);
        let q = x / nd;
        assert(x - (q * -1) * d == x - q * nd) by (nonlinear_arith)
            requires nd == d * -1;
        assert(truncated_quotient(x, d, q * -1));
        assert((((q * -1) as i64) as int) == q * -1);
        assert(a.checked_div(b) == Some((q * -1) as i64));
    }
}

/// An arithmetic instruction pops its right operand `b`, then its left
/// operand `a`, and pushes `a + b`, `a - b`, `a * b`, or `a / b` rounded
/// toward zero; a result beyond 64 bits crashes the machine, and a division
/// by zero stops the run with that fault.
pub proof fn law_arithmetic_step(s: MState, vs: Seq<SValue>, a: i64, b: i64)
    requires
        s.values == vs.push(SValue::Int(a)).push(SValue::Int(b)),
    ensures
        ({
            let r = step(s, Instruction::ArithInstruction(ArithInstruction::Add));
            if i64::MIN <= a + b <= i64::MAX {
                r == Ok::<MState, Stop>(MState { values: vs.push(SValue::Int((a + b) as i64)), ..s })
            } else {
                r == Err::<MState, Stop>(Stop::Crash)
            }
        }),
        ({
            let r = step(s, Instruction::ArithInstruction(ArithInstruction::Sub));
            if i64::MIN <= a - b <= i64::MAX {
                r == Ok::<MState, Stop>(MState { values: vs.push(SValue::Int((a - b) as i64)), ..s })
            } else {
                r == Err::<MState, Stop>(Stop::Crash)
            }
        }),
        ({
            let r = step(s, Instruction::ArithInstruction(ArithInstruction::Mul));
            if i64::MIN <= a * b <= i64::MAX {
                r == Ok::<MState, Stop>(MState { values: vs.push(SValue::Int((a * b) as i64)), ..s })
            } else {
                r == Err::<MState, Stop>(Stop::Crash)
            }
        }),
        ({
            let r = step(s, Instruction::ArithInstruction(ArithInstruction::Div));
            if b == 0 {
                r == Err::<MState, Stop>(Stop::Fault(Fault::DivisionByZero))
            } else if a == i64::MIN && b == -1 {
                r == Err::<MState, Stop>(Stop::Crash)
            } else {
                &&& r is Ok
                &&& r->Ok_0.values.len() == vs.len() + 1
                &&& r->Ok_0.values.drop_last() == vs
                &&& r->Ok_0.values.last() is Int
                &&& truncated_quotient(a as int, b as int, r->Ok_0.values.last()->Int_0 as int)
                &&& r->Ok_0 == MState { values: r->Ok_0.values, ..s }
            }
        }),
{
    assert(s.values.drop_last().drop_last() =~= vs);
    assert(s.values.drop_last().last() == SValue::Int(a));
    if b != 0 && !(a == i64::MIN && b == -1) {
        lemma_checked_div(a, b);
        let s2 = step(s, Instruction::ArithInstruction(ArithInstruction::Div))->Ok_0;
        assert(s2.values.drop_last() =~= vs);
    }
    if b == -1 && a == i64::MIN {
        assert((a as int) * -1 == 0x8000_0000_0000_0000int);
        assert((b as int) * -1 == 1);
        assert(0x8000_0000_0000_0000int / 1 == 0x8000_0000_0000_0000int);
        assert(a.checked_div(b) is None);
    }
}

/// The state of a run of `program` once it has pushed its first two values
/// `a` and `b` and fetched its third instruction, the last one.
pub open spec fn after_two_pushes(a: i64, b: i64) -> MState {
    MState {
        storage: Seq::empty(),
        values: seq![SValue::Int(a), SValue::Int(b)],
        envs: seq![Map::empty()],
        acts: Seq::empty(),
    }
}

proof fn lemma_two_pushes(a: i64, b: i64, inst: Instruction, program: Frame)
    requires
        program@ == seq![Instruction::PushInt(a), Instruction::PushInt(b), inst],
    ensures
        outcome(initial_state(program), step_budget()) == match step(after_two_pushes(a, b), inst) {
            Ok(s3) => finish(s3),
            Err(Stop::Fault(f)) => Halt::Fault(f),
            Err(Stop::Crash) => Halt::Crash,
        },
{
    let s0 = initial_state(program);
    assert(program.len() == program@.len());
    let s1 = MState { values: seq![SValue::Int(a)], acts: seq![(program, 1usize)], ..s0 };
    assert(fetch(s0) == Some((Instruction::PushInt(a), MState { acts: seq![(program, 1usize)], ..s0 }))) by {
        assert(s0.acts.drop_last().push((program, 1usize)) =~= seq![(program, 1usize)]);
    }
    assert(seq![SValue::Int(a)] =~= s0.values.push(SValue::Int(a)));
    assert(outcome(s0, step_budget()) == outcome(s1, (step_budget() - 1) as nat));
    let s2 = MState { values: seq![SValue::Int(a), SValue::Int(b)], acts: seq![(program, 2usize)], ..s0 };
    assert(fetch(s1) == Some((Instruction::PushInt(b), MState { acts: seq![(program, 2usize)], ..s1 }))) by {
        assert(s1.acts.drop_last().push((program, 2usize)) =~= seq![(program, 2usize)]);
    }
    assert(seq![SValue::Int(a), SValue::Int(b)] =~= s1.values.push(SValue::Int(b)));
    assert(outcome(s1, (step_budget() - 1) as nat) == outcome(s2, (step_budget() - 2) as nat));
    assert(fetch(s2) == Some((inst, after_two_pushes(a, b)))) by {
        assert(s2.acts.drop_last() =~= Seq::<(Frame, usize)>::empty());
    }
    let n = (step_budget() - 2) as nat;
    assert(outcome(s2, n) == match step(after_two_pushes(a, b), inst) {
        Ok(s3) => outcome(s3, (n - 1) as nat),
        Err(Stop::Fault(f)) => Halt::Fault(f),
        Err(Stop::Crash) => Halt::Crash,
    });
    if let Ok(s3) = step(after_two_pushes(a, b), inst) {
        assert(s3.acts == Seq::<(Frame, usize)>::empty());
        assert(fetch(s3) is None);
        assert(outcome(s3, (n - 1) as nat) == finish(s3));
    }
}

/// The program that pushes `a`, then `b`, then compares them ends with
/// whether `a < b`, `a == b` or `a > b`.
pub proof fn law_comparison_program(a: i64, b: i64, op: CmpInstruction, program: Frame)
    requires
        program@ == seq![Instruction::PushInt(a), Instruction::PushInt(b), Instruction::CmpInstruction(op)],
    ensures
        op == CmpInstruction::Lt ==> run(initial_state(program)) == Outcome::Value(Observed::Bool(a < b)),
        op == CmpInstruction::Eq ==> run(initial_state(program)) == Outcome::Value(Observed::Bool(a == b)),
        op == CmpInstruction::Gt ==> run(initial_state(program)) == Outcome::Value(Observed::Bool(a > b)),
{
    lemma_two_pushes(a, b, Instruction::CmpInstruction(op), program);
    let s = after_two_pushes(a, b);
    assert(s.values =~= Seq::<SValue>::empty().push(SValue::Int(a)).push(SValue::Int(b)));
    law_comparison_step(s, Seq::empty(), a, b);
    assert(Seq::<SValue>::empty().push(SValue::Bool(a < b)) =~= seq![SValue::Bool(a < b)]);
    assert(Seq::<SValue>::empty().push(SValue::Bool(a == b)) =~= seq![SValue::Bool(a == b)]);
    assert(Seq::<SValue>::empty().push(SValue::Bool(a > b)) =~= seq![SValue::Bool(a > b)]);
}

/// The program that pushes `a`, then `b`, then adds, subtracts, multiplies
/// or divides them ends with the result, rounded toward zero for a
/// division; with a crash where the result does not fit in 64 bits, and
/// with the division-by-zero fault where `b` is zero.
pub proof fn law_arithmetic_program(a: i64, b: i64, op: ArithInstruction, program: Frame)
    requires
        program@ == seq![Instruction::PushInt(a), Instruction::PushInt(b), Instruction::ArithInstruction(op)],
    ensures
        op == ArithInstruction::Add ==> run(initial_state(program)) == if i64::MIN <= a + b <= i64::MAX {
            Outcome::Value(Observed::Int((a + b) as i64))
        } else {
            Outcome::Crash
        },
        op == ArithInstruction::Sub ==> run(initial_state(program)) == if i64::MIN <= a - b <= i64::MAX {
            Outcome::Value(Observed::Int((a - b) as i64))
        } else {
            Outcome::Crash
        },
        op == ArithInstruction::Mul ==> run(initial_state(program)) == if i64::MIN <= a * b <= i64::MAX {
            Outcome::Value(Observed::Int((a * b) as i64))
        } else {
            Outcome::Crash
        },
        op == ArithInstruction::Div ==> if b == 0 {
            run(initial_state(program)) == Outcome::Fault(Fault::DivisionByZero)
        } else if a == i64::MIN && b == -1 {
            run(initial_state(program)) == Outcome::Crash
        } else {
            run(initial_state(program)) matches Outcome::Value(Observed::Int(q))
                && truncated_quotient(a as int, b as int, q as int)
        },
{
    lemma_two_pushes(a, b, Instruction::ArithInstruction(op), program);
    let s = after_two_pushes(a, b);
    let e = Seq::<SValue>::empty();
    assert(s.values =~= e.push(SValue::Int(a)).push(SValue::Int(b)));
    law_arithmetic_step(s, e, a, b);
    if let Ok(s3) = step(s, Instruction::ArithInstruction(op)) {
        assert(s3.values.len() == 1);
        assert(s3.values[0] == s3.values.last());
    }
}

} // verus!
