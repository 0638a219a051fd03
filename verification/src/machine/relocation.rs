//! Moving captured environments to other places in the store does not change
//! what a run computes: states that differ only in where their captured
//! environments live step alike and end alike.
use vstd::prelude::*;
use crate::machine::program::{Instruction, Name};
use crate::machine::semantics::{
    MState, SEnv, SValue, Stop, env_get, env_insert, fetch, observe_halt, outcome, pop_int, pop_value,
    push_value, run, step, step_budget,
};

verus! {

/// A closure with its store index moved by `f`.
pub open spec fn rename_value(f: Map<nat, nat>, v: SValue) -> SValue {
    match v {
        SValue::Clo(a, fr, i) => SValue::Clo(a, fr, f[i]),
        _ => v,
    }
}

pub open spec fn rename_env(f: Map<nat, nat>, e: SEnv) -> SEnv {
    e.map_values(|v: SValue| rename_value(f, v))
}

pub open spec fn rename_values(f: Map<nat, nat>, vs: Seq<SValue>) -> Seq<SValue> {
    vs.map_values(|v: SValue| rename_value(f, v))
}

pub open spec fn rename_envs(f: Map<nat, nat>, es: Seq<SEnv>) -> Seq<SEnv> {
    es.map_values(|e: SEnv| rename_env(f, e))
}

/// A value whose closure, if any, points into `d`.
pub open spec fn value_in(v: SValue, d: Set<nat>) -> bool {
    match v {
        SValue::Clo(_, _, i) => d.contains(i),
        _ => true,
    }
}

pub open spec fn env_in(e: SEnv, d: Set<nat>) -> bool {
    forall|k: Name| #[trigger] e.contains_key(k) ==> value_in(e[k], d)
}

/// Every closure on the value stack and in the environment stack points
/// into `x`.
pub open spec fn holds_roots(s: MState, x: Set<nat>) -> bool {
    &&& forall|i: int| 0 <= i < s.values.len() ==> value_in(#[trigger] s.values[i], x)
    &&& forall|i: int| 0 <= i < s.envs.len() ==> env_in(#[trigger] s.envs[i], x)
}

/// The closures of the stored environments at the places of `x` point into
/// `x` again.
pub open spec fn closed_under(s: MState, x: Set<nat>) -> bool {
    forall|i: nat| #[trigger] x.contains(i) && i < s.storage.len() ==> env_in(s.storage[i as int], x)
}

/// `x` holds every place that the machine can reach from its stacks.
pub open spec fn keeps(s: MState, x: Set<nat>) -> bool {
    holds_roots(s, x) && closed_under(s, x)
}

/// The captured environment at `i` can be reached: from a closure on the
/// stacks, through closures in reachable environments. That is, `i` lies in
/// every set of places that holds the stacks' closures and is closed under
/// following the closures of its environments.
pub open spec fn reachable(s: MState, i: nat) -> bool {
    forall|x: Set<nat>| #[trigger] keeps(s, x) ==> x.contains(i)
}

/// Every place that a closure of `v` points to can be reached.
pub open spec fn value_reachable(s: MState, v: SValue) -> bool {
    forall|x: Set<nat>| #[trigger] keeps(s, x) ==> value_in(v, x)
}

/// Every place that a closure of `e` points to can be reached.
pub open spec fn env_reachable(s: MState, e: SEnv) -> bool {
    forall|x: Set<nat>| #[trigger] keeps(s, x) ==> env_in(e, x)
}

/// `s2` is `s1` with the captured environments in the domain of `f` moved:
/// the one at `i` now lives at `f[i]`, with its closures moved alike. The
/// domain holds every environment that `s1` can reach.
pub open spec fn related(s1: MState, s2: MState, f: Map<nat, nat>) -> bool {
    let d = f.dom();
    &&& s2.values == rename_values(f, s1.values)
    &&& s2.envs == rename_envs(f, s1.envs)
    &&& s2.acts == s1.acts
    &&& forall|i: int| 0 <= i < s1.values.len() ==> value_in(#[trigger] s1.values[i], d)
    &&& forall|i: int| 0 <= i < s1.envs.len() ==> env_in(#[trigger] s1.envs[i], d)
    &&& forall|i: nat| #[trigger] d.contains(i) ==> {
        &&& i < s1.storage.len()
        &&& f[i] < s2.storage.len()
        &&& env_in(s1.storage[i as int], d)
        &&& s2.storage[f[i] as int] == rename_env(f, s1.storage[i as int])
    }
    &&& forall|i: nat, j: nat| #[trigger] d.contains(i) && #[trigger] d.contains(j) && i != j ==> f[i] != f[j]
}

// ---------------------------------------------------------------------------
// Environments under moves

pub proof fn lemma_rename_get(f: Map<nat, nat>, e: SEnv, k: Name)
    ensures
        env_get(rename_env(f, e), k) == match env_get(e, k) {
            Some(v) => Some(rename_value(f, v)),
            None => None,
        },
{
}

pub proof fn lemma_rename_insert(f: Map<nat, nat>, e: SEnv, k: Name, v: SValue)
    ensures
        env_insert(rename_env(f, e), k, rename_value(f, v)) == rename_env(f, env_insert(e, k, v)),
{
    assert(env_insert(rename_env(f, e), k, rename_value(f, v)) =~= rename_env(f, env_insert(e, k, v)));
}

pub proof fn lemma_get_in(e: SEnv, k: Name, d: Set<nat>)
    requires
        env_in(e, d),
    ensures
        env_get(e, k) matches Some(v) ==> value_in(v, d),
{
}

pub proof fn lemma_insert_in(e: SEnv, k: Name, v: SValue, d: Set<nat>)
    requires
        env_in(e, d),
        value_in(v, d),
    ensures
        env_in(env_insert(e, k, v), d),
{
    let r = env_insert(e, k, v);
    assert forall|j: Name| #[trigger] r.contains_key(j) implies value_in(r[j], d) by {
        if j != k {
            assert(value_in(e[j], d));
        }
    }
}

pub proof fn lemma_in_mono(e: SEnv, d: Set<nat>, d2: Set<nat>)
    requires
        env_in(e, d),
        d.subset_of(d2),
    ensures
        env_in(e, d2),
{
    assert forall|j: Name| #[trigger] e.contains_key(j) implies value_in(e[j], d2) by {
        assert(value_in(e[j], d));
    }
}

/// Moves that agree on the environments a value can reach move it alike.
pub proof fn lemma_rename_value_agree(f: Map<nat, nat>, g: Map<nat, nat>, v: SValue)
    requires
        value_in(v, f.dom()),
        f.submap_of(g),
    ensures
        rename_value(g, v) == rename_value(f, v),
{
    if let SValue::Clo(_, _, i) = v {
        assert(f.dom().contains(i));
        assert(g.dom().contains(i));
        assert(g[i] == f[i]);
    }
}

pub proof fn lemma_rename_env_agree(f: Map<nat, nat>, g: Map<nat, nat>, e: SEnv)
    requires
        env_in(e, f.dom()),
        f.submap_of(g),
    ensures
        rename_env(g, e) == rename_env(f, e),
{
    assert forall|k: Name| #[trigger] e.contains_key(k) implies rename_env(g, e)[k] == rename_env(f, e)[k] by {
        assert(value_in(e[k], f.dom()));
        lemma_rename_value_agree(f, g, e[k]);
    }
    assert(rename_env(g, e) =~= rename_env(f, e));
}

// ---------------------------------------------------------------------------
// Steps of related states

pub proof fn lemma_pop_value_related(s1: MState, s2: MState, f: Map<nat, nat>)
    requires
        related(s1, s2, f),
    ensures
        match pop_value(s1) {
            Ok((v, t1)) => pop_value(s2) matches Ok((w, t2)) && w == rename_value(f, v)
                && value_in(v, f.dom()) && related(t1, t2, f) && t1.storage == s1.storage
                && t2.storage == s2.storage,
            Err(e) => pop_value(s2) == Err::<(SValue, MState), Stop>(e),
        },
{
    if s1.values.len() > 0 {
        let t1 = pop_value(s1).unwrap().1;
        let t2 = pop_value(s2).unwrap().1;
        assert(t2.values =~= rename_values(f, t1.values));
        assert(value_in(s1.values[s1.values.len() - 1], f.dom()));
    }
}

pub proof fn lemma_push_related(s1: MState, s2: MState, f: Map<nat, nat>, v: SValue)
    requires
        related(s1, s2, f),
        value_in(v, f.dom()),
    ensures
        related(push_value(s1, v), push_value(s2, rename_value(f, v)), f),
{
    let t1 = push_value(s1, v);
    let t2 = push_value(s2, rename_value(f, v));
    assert(t2.values =~= rename_values(f, t1.values));
}

/// Related states take the same step: both fail alike, or both go on to
/// related states.
pub proof fn lemma_step_related(s1: MState, s2: MState, f: Map<nat, nat>, inst: Instruction) -> (g: Map<nat, nat>)
    requires
        related(s1, s2, f),
    ensures
        match step(s1, inst) {
            Ok(t1) => step(s2, inst) matches Ok(t2) && related(t1, t2, g),
            Err(e) => step(s2, inst) == Err::<MState, Stop>(e),
        },
{
    lemma_pop_value_related(s1, s2, f);
    if let Ok((_, t1)) = pop_value(s1) {
        lemma_pop_value_related(t1, pop_value(s2).unwrap().1, f);
    }
    match inst {
        Instruction::ArithInstruction(op) => {
            if let Ok((b, t1)) = pop_int(s1) {
                if let Ok((a, u1)) = pop_int(t1) {
                    let u2 = pop_int(pop_int(s2).unwrap().1).unwrap().1;
                    lemma_push_related(u1, u2, f, SValue::Int(0));
                    if let Ok(r) = crate::machine::semantics::arith(op, a, b) {
                        lemma_push_related(u1, u2, f, SValue::Int(r));
                    }
                }
            }
            f
        },
        Instruction::CmpInstruction(op) => {
            if let Ok((b, t1)) = pop_int(s1) {
                if let Ok((a, u1)) = pop_int(t1) {
                    let u2 = pop_int(pop_int(s2).unwrap().1).unwrap().1;
                    lemma_push_related(u1, u2, f, SValue::Bool(crate::machine::semantics::compare(op, a, b)));
                }
            }
            f
        },
        Instruction::PushInt(i) => {
            lemma_push_related(s1, s2, f, SValue::Int(i));
            f
        },
        Instruction::PushBool(b) => {
            lemma_push_related(s1, s2, f, SValue::Bool(b));
            f
        },
        Instruction::Branch(tru, fls) => {
            f
        },
        Instruction::Var(name) => {
            if s1.envs.len() > 0 {
                let e = s1.envs.last();
                assert(env_in(s1.envs[s1.envs.len() - 1], f.dom()));
                assert(s2.envs.last() == rename_env(f, e));
                lemma_rename_get(f, e, name);
                lemma_get_in(e, name, f.dom());
                if let Some(v) = env_get(e, name) {
                    lemma_push_related(s1, s2, f, v);
                }
            }
            f
        },
        Instruction::Closure { name, arg, frame } => {
            if s1.envs.len() == 0 {
                f
            } else {
                let n1 = s1.storage.len();
                let n2 = s2.storage.len();
                let g = f.insert(n1, n2);
                let d = f.dom();
                let v1 = SValue::Clo(arg, frame, n1);
                let v2 = SValue::Clo(arg, frame, n2);
                let e = s1.envs.last();
                assert(env_in(s1.envs[s1.envs.len() - 1], d));
                assert(!d.contains(n1));
                assert(f.submap_of(g));
                lemma_in_mono(e, d, g.dom());
                lemma_insert_in(e, name, v1, g.dom());
                lemma_rename_env_agree(f, g, e);
                lemma_rename_insert(g, e, name, v1);
                let t1 = step(s1, inst).unwrap();
                let t2 = step(s2, inst).unwrap();
                assert(t2.values =~= rename_values(g, t1.values)) by {
                    assert forall|i: int| 0 <= i < s1.values.len() implies rename_value(g, s1.values[i])
                        == rename_value(f, s1.values[i]) by {
                        assert(value_in(s1.values[i], d));
                    }
                }
                assert(t2.envs =~= rename_envs(g, t1.envs)) by {
                    assert forall|i: int| 0 <= i < s1.envs.len() implies rename_env(g, s1.envs[i])
                        == rename_env(f, s1.envs[i]) by {
                        assert(env_in(s1.envs[i], d));
                        lemma_rename_env_agree(f, g, s1.envs[i]);
                    }
                }
                assert forall|i: int| 0 <= i < t1.values.len() implies value_in(#[trigger] t1.values[i], g.dom()) by {
                    if i < s1.values.len() {
                        assert(value_in(s1.values[i], d));
                    }
                }
                assert forall|i: int| 0 <= i < t1.envs.len() implies env_in(#[trigger] t1.envs[i], g.dom()) by {
                    assert(env_in(s1.envs[i], d));
                    lemma_in_mono(s1.envs[i], d, g.dom());
                }
                assert forall|i: nat| #[trigger] g.dom().contains(i) implies {
                    &&& i < t1.storage.len()
                    &&& g[i] < t2.storage.len()
                    &&& env_in(t1.storage[i as int], g.dom())
                    &&& t2.storage[g[i] as int] == rename_env(g, t1.storage[i as int])
                } by {
                    if i != n1 {
                        assert(d.contains(i));
                        lemma_in_mono(s1.storage[i as int], d, g.dom());
                        lemma_rename_env_agree(f, g, s1.storage[i as int]);
                    }
                }
                assert forall|i: nat, j: nat| #[trigger] g.dom().contains(i) && #[trigger] g.dom().contains(j) && i != j
                    implies g[i] != g[j] by {
                    if i != n1 && j != n1 {
                        assert(d.contains(i) && d.contains(j));
                    } else if i == n1 {
                        assert(d.contains(j));
                    } else {
                        assert(d.contains(i));
                    }
                }
                g
            }
        },
        Instruction::Call => {
            if let Ok((argv, t1)) = pop_value(s1) {
                let t2 = pop_value(s2).unwrap().1;
                if let Ok((SValue::Clo(arg, frame, idx), u1)) = pop_value(t1) {
                    let u2 = pop_value(t2).unwrap().1;
                    let d = f.dom();
                    assert(d.contains(idx));
                    let env1 = env_insert(u1.storage[idx as int], arg, argv);
                    lemma_insert_in(u1.storage[idx as int], arg, argv, d);
                    lemma_rename_insert(f, u1.storage[idx as int], arg, argv);
                    let w1 = step(s1, inst).unwrap();
                    let w2 = step(s2, inst).unwrap();
                    assert(w2.envs =~= rename_envs(f, w1.envs));
                    assert forall|i: int| 0 <= i < w1.envs.len() implies env_in(#[trigger] w1.envs[i], d) by {
                        if i < u1.envs.len() {
                            assert(env_in(u1.envs[i], d));
                        }
                    }
                }
            }
            f
        },
        Instruction::PopEnv => {
            if s1.envs.len() > 0 {
                let t1 = step(s1, inst).unwrap();
                let t2 = step(s2, inst).unwrap();
                assert(t2.envs =~= rename_envs(f, t1.envs));
            }
            f
        },
    }
}

pub proof fn lemma_fetch_related(s1: MState, s2: MState, f: Map<nat, nat>)
    requires
        related(s1, s2, f),
    ensures
        match fetch(s1) {
            Some((i, t1)) => fetch(s2) matches Some((j, t2)) && i == j && related(t1, t2, f),
            None => fetch(s2) is None,
        },
{
}

/// Related states end alike, as a caller sees it.
pub proof fn lemma_outcome_related(s1: MState, s2: MState, f: Map<nat, nat>, fuel: nat)
    requires
        related(s1, s2, f),
    ensures
        observe_halt(outcome(s1, fuel)) == observe_halt(outcome(s2, fuel)),
    decreases fuel,
{
    lemma_fetch_related(s1, s2, f);
    match fetch(s1) {
        None => {
            if s1.values.len() == 1 {
                assert(s2.values[0] == rename_value(f, s1.values[0]));
            }
        },
        Some((inst, t1)) => {
            let t2 = fetch(s2).unwrap().1;
            if fuel > 0 {
                let g = lemma_step_related(t1, t2, f, inst);
                if let Ok(u1) = step(t1, inst) {
                    let u2 = step(t2, inst).unwrap();
                    lemma_outcome_related(u1, u2, g, (fuel - 1) as nat);
                }
            }
        },
    }
}

/// Moving the captured environments that a state can reach to other places
/// of the store does not change how a run from it ends, as a caller sees it.
pub proof fn law_relocation_keeps_run(s1: MState, s2: MState, f: Map<nat, nat>)
    requires
        related(s1, s2, f),
    ensures
        run(s1) == run(s2),
{
    lemma_outcome_related(s1, s2, f, step_budget());
}

// ---------------------------------------------------------------------------
// Bookkeeping of a relocation: which old places have moved, and where.

/// The moves recorded so far: old place `e` went to `moved[e]`.
pub open spec fn moved_map(moved: Map<usize, usize>) -> Map<nat, nat> {
    Map::new(
        |e: nat| e <= usize::MAX && moved.contains_key(e as usize),
        |e: nat| moved[e as usize] as nat,
    )
}

/// The naturals below `n`.
pub open spec fn nats_below(n: nat) -> Set<nat> {
    Set::new(|x: nat| x < n)
}

pub proof fn lemma_nats_below(n: nat)
    ensures
        nats_below(n).finite(),
        nats_below(n).len() == n,
    decreases n,
{
    if n == 0 {
        assert(nats_below(n) =~= Set::empty());
    } else {
        let m = (n - 1) as nat;
        lemma_nats_below(m);
        assert(nats_below(n) =~= nats_below(m).insert(m));
    }
}

/// Distinct naturals below `n` are at most `n` many.
pub proof fn lemma_distinct_below(s: Seq<nat>, n: nat)
    requires
        forall|i: int, j: int| 0 <= i < j < s.len() ==> s[i] != s[j],
        forall|i: int| 0 <= i < s.len() ==> s[i] < n,
    ensures
        s.len() <= n,
{
    assert(s.no_duplicates());
    s.unique_seq_to_set();
    lemma_nats_below(n);
    assert(s.to_set().subset_of(nats_below(n)));
    vstd::set_lib::lemma_len_subset(s.to_set(), nats_below(n));
}

} // verus!
