//! What the dispatcher of a `let rec` does on the machine: entered with tag
//! `i`, it returns the closure of the `i`-th function of the group.
use vstd::prelude::*;
use crate::compile::{code_len, compiled, op_instruction};
use crate::ir::{dispatch_call, fun_names_of, spec_dispatch, spec_fun_wrapper, spec_lets, wrapper_bindings, BinOpKind, Fun, Ir, ANON_NAME, DISPATCH_ARG, DISPATCH_NAME, MAX_IDENTS};
use crate::machine::program::{CmpInstruction, Frame, Instruction};
use crate::machine::semantics::{fetch, outcome, step, MState, SValue};

verus! {

/// The state `k` steps after `s`, if the run goes on that long.
pub open spec fn steps(s: MState, k: nat) -> Option<MState>
    decreases k,
{
    if k == 0 {
        Some(s)
    } else {
        match fetch(s) {
            None => None,
            Some((inst, s1)) => match step(s1, inst) {
                Ok(s2) => steps(s2, (k - 1) as nat),
                Err(_) => None,
            },
        }
    }
}

/// Steps compose.
pub proof fn lemma_steps_add(s: MState, a: nat, b: nat)
    requires
        steps(s, a) is Some,
    ensures
        steps(s, a + b) == steps(steps(s, a)->Some_0, b),
    decreases a,
{
    if a > 0 {
        let (inst, s1) = fetch(s)->Some_0;
        let s2 = step(s1, inst)->Ok_0;
        lemma_steps_add(s2, (a - 1) as nat, b);
        assert((a + b - 1) as nat == ((a - 1) as nat + b) as nat);
    }
}

/// A run that goes on for `k` steps ends as the run from where they lead.
pub proof fn lemma_steps_outcome(s: MState, k: nat, fuel: nat)
    requires
        steps(s, k) is Some,
        k <= fuel,
    ensures
        outcome(s, fuel) == outcome(steps(s, k)->Some_0, (fuel - k) as nat),
    decreases k,
{
    if k > 0 {
        let (inst, s1) = fetch(s)->Some_0;
        let s2 = step(s1, inst)->Ok_0;
        lemma_steps_outcome(s2, (k - 1) as nat, (fuel - 1) as nat);
    }
}

/// The activations once code of `len` instructions at `pc` in the topmost
/// activation's frame is done: the activation moves past it, or is gone
/// where the frame ends there.
pub open spec fn acts_after(acts: Seq<(Frame, usize)>, f: Frame, pc: int, len: int) -> Seq<(Frame, usize)> {
    if pc + len < f@.len() {
        acts.drop_last().push((f, (pc + len) as usize))
    } else {
        acts.drop_last()
    }
}

/// `frame` is the frame of the `i`-th function of the group `funs`: its
/// body with the other functions of the group bound around it, then the
/// instruction that leaves the function's environment.
pub open spec fn function_frame(frame: Frame, funs: Seq<Fun>, i: int) -> bool {
    let names = fun_names_of(funs);
    &&& frame@.len() > 0
    &&& frame@.last() == Instruction::PopEnv
    &&& compiled(spec_lets(wrapper_bindings(names, i, names.len() as int), funs[i].body), frame@.drop_last())
}

/// `s2` is `s` once the closure of the `i`-th function has been made in the
/// current environment and pushed, and the activations are `acts`.
pub open spec fn returned_function(s: MState, s2: MState, funs: Seq<Fun>, i: int, acts: Seq<(Frame, usize)>) -> bool {
    &&& s2.acts == acts
    &&& s2.envs == s.envs
    &&& s2.values.len() == s.values.len() + 1
    &&& s2.values.drop_last() == s.values
    &&& s2.values.last() matches SValue::Clo(arg, frame, idx)
    &&& arg == funs[i].arg_name
    &&& idx == s.storage.len()
    &&& function_frame(frame, funs, i)
    &&& s2.storage == s.storage.push(s.envs.last().insert(funs[i].fun_name, s2.values.last()))
}

proof fn lemma_one_step(s: MState, s1: MState)
    requires
        fetch(s) matches Some((inst, t)) && step(t, inst) == Ok::<MState, crate::machine::semantics::Stop>(s1),
    ensures
        steps(s, 1) == Some(s1),
{
    assert(steps(s1, 0) == Some(s1));
}

proof fn lemma_then_step(s: MState, a: nat, s1: MState, s2: MState)
    requires
        steps(s, a) == Some(s1),
        steps(s1, 1) == Some(s2),
    ensures
        steps(s, a + 1) == Some(s2),
{
    lemma_steps_add(s, a, 1);
}

/// The test of one arm of the dispatcher: four instructions that compare
/// the tag with the arm's number and enter the arm's function or the
/// remaining tests.
#[verifier::rlimit(60)]
proof fn lemma_select_test(s: MState, funs: Seq<Fun>, m: int, i: int, f: Frame, pc: int)
    requires
        1 <= m <= funs.len() <= MAX_IDENTS,
        0 <= i < m,
        s.acts.len() > 0,
        0 <= pc,
        s.acts.last() == (f, pc as usize),
        pc + 4 <= f@.len(),
        compiled(spec_dispatch(funs, fun_names_of(funs), m), f@.subrange(pc, pc + 4)),
        s.envs.len() > 0,
        s.envs.last().contains_key(DISPATCH_ARG),
        s.envs.last()[DISPATCH_ARG] == SValue::Int(i as i64),
    ensures
        f@[pc + 3] is Branch,
        compiled(spec_fun_wrapper(m - 1, funs[m - 1], fun_names_of(funs)), f@[pc + 3]->Branch_0@),
        compiled(spec_dispatch(funs, fun_names_of(funs), m - 1), f@[pc + 3]->Branch_1@),
        steps(s, 4) == Some(MState {
            acts: acts_after(s.acts, f, pc, 4).push((
                if i == m - 1 { f@[pc + 3]->Branch_0 } else { f@[pc + 3]->Branch_1 },
                0usize,
            )),
            ..s
        }),
{
    let names = fun_names_of(funs);
    let d = spec_dispatch(funs, names, m);
    let c = f@.subrange(pc, pc + 4);
    let cond = d->If_0.cond;
    assert(((m - 1) as i64) as int == m - 1);
    assert(compiled(cond, c.drop_last()));
    let c3 = c.drop_last();
    assert(compiled(Ir::Var(DISPATCH_ARG), c3.take(1)));
    assert(c3.take(1)[0] == c[0]);
    assert(compiled(Ir::IntLiteral((m - 1) as i64), c3.subrange(1, 2)));
    assert(c3.subrange(1, 2)[0] == c[1]);
    assert(c[2] == op_instruction(BinOpKind::Eq));
    assert(f@[pc] == Instruction::Var(DISPATCH_ARG));
    assert(f@[pc + 1] == Instruction::PushInt((m - 1) as i64));
    assert(f@[pc + 2] == Instruction::CmpInstruction(CmpInstruction::Eq));
    let br = c[3];
    assert(f@[pc + 3] == br);
    assert(f.len() == f@.len());
    let base = s.acts.drop_last();
    let s1 = MState { acts: base.push((f, (pc + 1) as usize)), values: s.values.push(SValue::Int(i as i64)), ..s };
    lemma_one_step(s, s1);
    let s2 = MState { acts: base.push((f, (pc + 2) as usize)), values: s1.values.push(SValue::Int((m - 1) as i64)), ..s };
    assert(s1.acts.last() == (f, (pc + 1) as usize));
    assert(s1.acts.drop_last() =~= base);
    lemma_one_step(s1, s2);
    lemma_then_step(s, 1, s1, s2);
    let s3 = MState { acts: base.push((f, (pc + 3) as usize)), values: s.values.push(SValue::Bool(i == m - 1)), ..s };
    assert(s2.acts.last() == (f, (pc + 2) as usize));
    assert(s2.acts.drop_last() =~= base);
    assert(s2.values.drop_last().drop_last() =~= s.values);
    assert(s2.values.drop_last().last() == SValue::Int(i as i64));
    lemma_one_step(s2, s3);
    lemma_then_step(s, 2, s2, s3);
    let arm = if i == m - 1 { br->Branch_0 } else { br->Branch_1 };
    let s4 = MState { acts: acts_after(s.acts, f, pc, 4).push((arm, 0usize)), ..s };
    assert(s3.acts.last() == (f, (pc + 3) as usize));
    assert(s3.acts.drop_last() =~= base);
    assert(s3.values.drop_last() =~= s.values);
    lemma_one_step(s3, s4);
    lemma_then_step(s, 3, s3, s4);
}

/// The dispatcher's selection among the first `m` functions, four
/// instructions at `pc` in the topmost activation's frame, run with a tag
/// `i` below `m` bound to the dispatcher's argument: it makes and pushes the
/// closure of the `i`-th function and leaves the code.
proof fn lemma_select(s: MState, funs: Seq<Fun>, m: int, i: int, f: Frame, pc: int) -> (k: nat)
    requires
        1 <= m <= funs.len() <= MAX_IDENTS,
        0 <= i < m,
        s.acts.len() > 0,
        0 <= pc,
        s.acts.last() == (f, pc as usize),
        pc + 4 <= f@.len(),
        compiled(spec_dispatch(funs, fun_names_of(funs), m), f@.subrange(pc, pc + 4)),
        s.envs.len() > 0,
        s.envs.last().contains_key(DISPATCH_ARG),
        s.envs.last()[DISPATCH_ARG] == SValue::Int(i as i64),
    ensures
        steps(s, k) matches Some(s2) && returned_function(s, s2, funs, i, acts_after(s.acts, f, pc, 4)),
    decreases m,
{
    lemma_select_test(s, funs, m, i, f, pc);
    let names = fun_names_of(funs);
    let br = f@[pc + 3];
    let t = br->Branch_0;
    let fb = br->Branch_1;
    let after = acts_after(s.acts, f, pc, 4);
    let arm = if i == m - 1 { t } else { fb };
    let s4 = MState { acts: after.push((arm, 0usize)), ..s };
    if i == m - 1 {
        let inst = t@[0];
        let v = SValue::Clo(inst->arg, inst->frame, s.storage.len());
        let s5 = MState {
            acts: after,
            values: s.values.push(v),
            storage: s.storage.push(s.envs.last().insert(inst->name, v)),
            ..s
        };
        assert(s4.acts.last() == (t, 0usize));
        assert(s4.acts.drop_last() =~= after);
        lemma_one_step(s4, s5);
        lemma_then_step(s, 4, s4, s5);
        assert(s5.values.drop_last() =~= s.values);
        5
    } else {
        let rest = spec_dispatch(funs, names, m - 1);
        assert(m - 1 >= 1);
        let cnd = rest->If_0.cond;
        assert(cnd == crate::ir::mk_binop(Ir::Var(DISPATCH_ARG), Ir::IntLiteral((m - 2) as i64), BinOpKind::Eq));
        assert(code_len(Ir::Var(DISPATCH_ARG)) == 1);
        assert(code_len(Ir::IntLiteral((m - 2) as i64)) == 1);
        assert(code_len(cnd) == 3);
        assert(code_len(rest) == 4);
        assert(fb@.subrange(0, 4) =~= fb@);
        assert(s4.acts.last() == (fb, 0usize));
        let k1 = lemma_select(s4, funs, m - 1, i, fb, 0);
        assert(acts_after(s4.acts, fb, 0, 4) =~= after);
        lemma_steps_add(s, 4, k1);
        4 + k1
    }
}

/// Calling the dispatcher of a `let rec` group with the tag of one of its
/// functions returns that function. Entered as a call enters it, with the
/// tag `i` bound to its argument, the dispatcher's frame runs to its end in
/// `k` steps: its activation and its environment are gone, the store has
/// one more entry, the current environment extended with the `i`-th
/// function's own name bound to the new closure, and the stack has that
/// closure on top: a closure of the `i`-th function's argument, whose frame
/// is the `i`-th function's body with the other functions of the group bound
/// around it (`law_let_rec_scoping` says to what), and which points to the
/// new entry. The run from the state entered ends as the run from the state
/// reached, with `k` steps less of budget (`lemma_steps_outcome`).
pub proof fn law_dispatch_returns_function(s: MState, funs: Seq<Fun>, i: int, dframe: Frame) -> (k: nat)
    requires
        0 <= i < funs.len() <= MAX_IDENTS,
        s.acts.len() > 0,
        s.acts.last() == (dframe, 0usize),
        dframe@.len() > 0,
        dframe@.last() == Instruction::PopEnv,
        compiled(spec_dispatch(funs, fun_names_of(funs), funs.len() as int), dframe@.drop_last()),
        s.envs.len() > 0,
        s.envs.last().contains_key(DISPATCH_ARG),
        s.envs.last()[DISPATCH_ARG] == SValue::Int(i as i64),
    ensures
        steps(s, k) matches Some(s2) && {
            &&& s2.acts == s.acts.drop_last()
            &&& s2.envs == s.envs.drop_last()
            &&& s2.values.len() == s.values.len() + 1
            &&& s2.values.drop_last() == s.values
            &&& s2.values.last() matches SValue::Clo(arg, frame, idx)
            &&& arg == funs[i].arg_name
            &&& idx == s.storage.len()
            &&& function_frame(frame, funs, i)
            &&& s2.storage == s.storage.push(s.envs.last().insert(funs[i].fun_name, s2.values.last()))
        },
{
    let n = funs.len() as int;
    let names = fun_names_of(funs);
    let d = spec_dispatch(funs, names, n);
    let cnd = d->If_0.cond;
    assert(cnd == crate::ir::mk_binop(Ir::Var(DISPATCH_ARG), Ir::IntLiteral((n - 1) as i64), BinOpKind::Eq));
    assert(code_len(Ir::Var(DISPATCH_ARG)) == 1);
    assert(code_len(Ir::IntLiteral((n - 1) as i64)) == 1);
    assert(code_len(cnd) == 3);
    assert(code_len(d) == 4);
    assert(dframe@.subrange(0, 4) =~= dframe@.drop_last());
    let k1 = lemma_select(s, funs, n, i, dframe, 0);
    let s2 = steps(s, k1)->Some_0;
    assert(dframe.len() == dframe@.len());
    assert(s2.acts == s.acts.drop_last().push((dframe, 4usize)));
    let s3 = MState { acts: s.acts.drop_last(), envs: s.envs.drop_last(), ..s2 };
    assert(s2.acts.drop_last() =~= s.acts.drop_last());
    assert(dframe@[4] == Instruction::PopEnv);
    lemma_one_step(s2, s3);
    lemma_then_step(s, k1, s2, s3);
    k1 + 1
}

/// Inside the body of a function of a `let rec` group, the name of another
/// function `j` of the group denotes function `j`. The name is bound to a
/// function of one argument that calls the dispatcher with `j` and then the
/// result with the argument (`law_let_rec_scoping`). Entered as a call
/// enters it, with the argument `v` bound and the dispatcher `d` in its
/// environment, that function's frame enters, after `k` steps, the frame of
/// function `j` with `v` bound to `j`'s argument, in the environment that
/// the dispatcher's closure of `j` captured: the dispatcher's own, with the
/// tag bound and `j`'s name bound to that closure. The value stack is as it
/// was, the store has that environment as one more entry, and the calling
/// frame waits at its last instruction.
pub proof fn law_bound_name_calls_function(s: MState, funs: Seq<Fun>, j: int, bframe: Frame) -> (k: nat)
    requires
        0 <= j < funs.len() <= MAX_IDENTS,
        s.acts.len() > 0,
        s.acts.last() == (bframe, 0usize),
        bframe@.len() > 0,
        bframe@.last() == Instruction::PopEnv,
        compiled(dispatch_call(j, Ir::Var(ANON_NAME)), bframe@.drop_last()),
        s.envs.len() > 0,
        s.envs.last().contains_key(ANON_NAME),
        s.envs.last().contains_key(DISPATCH_NAME),
        s.envs.last()[DISPATCH_NAME] matches SValue::Clo(a, dframe, d_idx)
            && a == DISPATCH_ARG
            && d_idx < s.storage.len()
            && dframe@.len() > 0
            && dframe@.last() == Instruction::PopEnv
            && compiled(spec_dispatch(funs, fun_names_of(funs), funs.len() as int), dframe@.drop_last()),
    ensures
        steps(s, k) matches Some(s2) && {
            let v = s.envs.last()[ANON_NAME];
            let d_idx = s.envs.last()[DISPATCH_NAME]->Clo_2;
            let clo = SValue::Clo(funs[j].arg_name, s2.acts.last().0, s.storage.len());
            let captured = s.storage[d_idx as int].insert(DISPATCH_ARG, SValue::Int(j as i64)).insert(funs[j].fun_name, clo);
            &&& s2.acts == s.acts.drop_last().push((bframe, 5usize)).push((s2.acts.last().0, 0usize))
            &&& function_frame(s2.acts.last().0, funs, j)
            &&& s2.values == s.values
            &&& s2.storage == s.storage.push(captured)
            &&& s2.envs == s.envs.push(captured.insert(funs[j].arg_name, v))
        },
{
    let e = s.envs.last();
    let v = e[ANON_NAME];
    let dclo = e[DISPATCH_NAME];
    let dframe = dclo->Clo_1;
    let d_idx = dclo->Clo_2;
    let c = bframe@.drop_last();
    let call_d = crate::ir::mk_apply(Ir::Var(DISPATCH_NAME), Ir::IntLiteral(j as i64));
    assert((j as i64) as int == j);
    assert(code_len(Ir::Var(DISPATCH_NAME)) == 1);
    assert(code_len(Ir::IntLiteral(j as i64)) == 1);
    assert(code_len(call_d) == 3);
    assert(compiled(call_d, c.take(3)));
    assert(compiled(Ir::Var(DISPATCH_NAME), c.take(3).take(1)));
    assert(compiled(Ir::IntLiteral(j as i64), c.take(3).subrange(1, 2)));
    assert(compiled(Ir::Var(ANON_NAME), c.subrange(3, 4)));
    assert(c.take(3).take(1)[0] == c[0]);
    assert(c.take(3).subrange(1, 2)[0] == c[1]);
    assert(c.take(3).last() == c[2]);
    assert(c.subrange(3, 4)[0] == c[3]);
    assert(bframe@[0] == Instruction::Var(DISPATCH_NAME));
    assert(bframe@[1] == Instruction::PushInt(j as i64));
    assert(bframe@[2] == Instruction::Call);
    assert(bframe@[3] == Instruction::Var(ANON_NAME));
    assert(bframe@[4] == Instruction::Call);
    assert(bframe@.len() == 6);
    assert(bframe.len() == bframe@.len());
    let base = s.acts.drop_last();
    // The dispatcher, then the tag.
    let s1 = MState { acts: base.push((bframe, 1usize)), values: s.values.push(dclo), ..s };
    lemma_one_step(s, s1);
    let s2 = MState { acts: base.push((bframe, 2usize)), values: s1.values.push(SValue::Int(j as i64)), ..s };
    assert(s1.acts.drop_last() =~= base);
    lemma_one_step(s1, s2);
    lemma_then_step(s, 1, s1, s2);
    // Call the dispatcher.
    let env_d = s.storage[d_idx as int].insert(DISPATCH_ARG, SValue::Int(j as i64));
    let s3 = MState { acts: base.push((bframe, 3usize)).push((dframe, 0usize)), envs: s.envs.push(env_d), ..s };
    assert(s2.acts.drop_last() =~= base);
    assert(s2.values.drop_last().drop_last() =~= s.values);
    assert(s2.values.drop_last().last() == dclo);
    lemma_one_step(s2, s3);
    lemma_then_step(s, 2, s2, s3);
    // The dispatcher returns the closure of function `j`.
    let k1 = law_dispatch_returns_function(s3, funs, j, dframe);
    lemma_steps_add(s, 3, k1);
    let s4 = steps(s3, k1)->Some_0;
    let clo = s4.values.last();
    let fj = clo->Clo_1;
    let captured = env_d.insert(funs[j].fun_name, clo);
    assert(s4.acts =~= base.push((bframe, 3usize)));
    assert(s3.envs.drop_last() =~= s.envs);
    // The argument, then the call of function `j`.
    let s5 = MState { acts: base.push((bframe, 4usize)), values: s4.values.push(v), ..s4 };
    assert(s4.acts.drop_last() =~= base);
    lemma_one_step(s4, s5);
    lemma_then_step(s, 3 + k1, s4, s5);
    let s6 = MState {
        acts: base.push((bframe, 5usize)).push((fj, 0usize)),
        values: s.values,
        envs: s.envs.push(captured.insert(funs[j].arg_name, v)),
        ..s4
    };
    assert(s5.acts.drop_last() =~= base);
    assert(s5.values.drop_last() == s4.values);
    assert(s5.values.drop_last().drop_last() =~= s.values);
    assert(s4.storage[s.storage.len() as int] == captured);
    lemma_one_step(s5, s6);
    lemma_then_step(s, 3 + k1 + 1, s5, s6);
    3 + k1 + 2
}

} // verus!
