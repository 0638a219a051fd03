//! The abstract machine: a stack of values, a stack of environments, a store
//! of captured environments and a stack of activations.
use vstd::prelude::*;

pub mod program;
pub mod semantics;
pub mod value;
pub mod env;
pub mod relocation;
pub mod operations;

use std::collections::HashMap;
use crate::machine::env::Env;
use crate::machine::program::{ArithInstruction, CmpInstruction, Frame, Instruction, Name};
use crate::machine::semantics::{
    fault_message, Fault, MState, SEnv, SValue, Stop, arith, compare, fail_state, fetch, initial_state, lemma_fetch_ok,
    pop_failed,
    lemma_step_ok, pop_bool, pop_int, pop_value, push_value, state_ok, step,
};
use crate::machine::value::{Closure, Value};
use crate::machine::relocation::{
    env_in, env_reachable, keeps, lemma_distinct_below, lemma_in_mono, reachable, value_reachable,
    lemma_rename_env_agree, lemma_rename_value_agree, moved_map, related, rename_env,
    rename_value, value_in,
};
use crate::machine::semantics::{
    Halt, Outcome, env_below, finish, observe, observe_halt, outcome, run, value_below,
};
use crate::machine::relocation::lemma_outcome_related;
use crate::machine::value::{RuntimeError, runtime_error};

verus! {

broadcast use vstd::std_specs::hash::group_hash_axioms;

/// The machine that runs a program.
pub struct Machine<'p> {
    program: &'p Frame,
    storage: Vec<Env<'p>>,
    values: Vec<Value<'p>>,
    environments: Vec<Env<'p>>,
    activations: Vec<(&'p Frame, usize)>,
}

pub open spec fn envs_view<'p>(v: Seq<Env<'p>>) -> Seq<SEnv> {
    v.map_values(|e: Env<'p>| e@)
}

pub open spec fn values_view<'p>(v: Seq<Value<'p>>) -> Seq<SValue> {
    v.map_values(|x: Value<'p>| x@)
}

pub open spec fn acts_view<'p>(v: Seq<(&'p Frame, usize)>) -> Seq<(Frame, usize)> {
    v.map_values(|a: (&'p Frame, usize)| (*a.0, a.1))
}

impl<'p> View for Machine<'p> {
    type V = MState;

    closed spec fn view(&self) -> MState {
        MState {
            storage: envs_view(self.storage@),
            values: values_view(self.values@),
            envs: envs_view(self.environments@),
            acts: acts_view(self.activations@),
        }
    }
}

impl<'p> Machine<'p> {
    /// Every closure of the machine points into its store.
    pub open spec fn wf(&self) -> bool {
        state_ok(self@)
    }

    /// The program that this machine was made to run.
    pub closed spec fn spec_program(&self) -> Frame {
        *self.program
    }

    /// A machine about to run `program`.
    pub fn new(program: &'p Frame) -> (m: Self)
        ensures
            m@ == initial_state(*program),
            m.spec_program() == *program,
            m.wf(),
    {
        let mut environments: Vec<Env<'p>> = Vec::new();
        environments.push(Env::new());
        let mut activations: Vec<(&'p Frame, usize)> = Vec::new();
        activations.push((program, 0));
        let m = Machine { program, storage: Vec::new(), values: Vec::new(), environments, activations };
        assert(m@.storage =~= Seq::empty());
        assert(m@.values =~= Seq::empty());
        assert(m@.envs =~= seq![Map::empty()]);
        assert(m@.acts =~= seq![(*program, 0usize)]);
        m
    }

    /// The next instruction; moves the topmost activation past it.
    fn fetch_instruction(&mut self) -> (r: Option<&'p Instruction>)
        ensures
            match r {
                None => fetch(old(self)@) is None && *final(self) == *old(self),
                Some(i) => fetch(old(self)@) == Some((*i, final(self)@)),
            },
            final(self).storage == old(self).storage,
    {
        let n = self.activations.len();
        if n == 0 {
            return None;
        }
        let (frame, pc) = self.activations[n - 1];
        if pc >= frame.len() {
            return None;
        }
        self.activations.pop();
        if pc + 1 < frame.len() {
            self.activations.push((frame, pc + 1));
        }
        proof {
            let s = old(self)@;
            let rest = s.acts.drop_last();
            let acts = if pc + 1 < frame@.len() { rest.push((*frame, (pc + 1) as usize)) } else { rest };
            assert(self@.acts =~= acts);
            assert(self@ == MState { acts, ..s });
        }
        Some(&frame[pc])
    }

    /// Starts running `frame` on top of the current activation.
    fn switch_frame(&mut self, frame: &'p Frame)
        ensures
            final(self)@ == (MState { acts: old(self)@.acts.push((*frame, 0usize)), ..old(self)@ }),
            final(self).storage == old(self).storage,
    {
        self.activations.push((frame, 0));
        assert(self@.acts =~= old(self)@.acts.push((*frame, 0usize)));
    }

    fn push_int(&mut self, value: i64)
        ensures
            final(self)@ == push_value(old(self)@, SValue::Int(value)),
            final(self).storage == old(self).storage,
    {
        self.push_value(Value::Int(value))
    }

    fn push_bool(&mut self, value: bool)
        ensures
            final(self)@ == push_value(old(self)@, SValue::Bool(value)),
            final(self).storage == old(self).storage,
    {
        self.push_value(Value::Bool(value))
    }

    fn push_value(&mut self, value: Value<'p>)
        ensures
            final(self)@ == push_value(old(self)@, value@),
            final(self).storage == old(self).storage,
    {
        self.values.push(value);
        assert(self@.values =~= old(self)@.values.push(value@));
    }

    fn pop_value(&mut self) -> (r: Result<Value<'p>, Stop>)
        ensures
            match r {
                Ok(v) => pop_value(old(self)@) == Ok::<(SValue, MState), Stop>((v@, final(self)@)),
                Err(e) => pop_value(old(self)@) == Err::<(SValue, MState), Stop>(e) && final(self)@ == old(self)@,
            },
            final(self).storage == old(self).storage,
    {
        match self.values.pop() {
            Some(v) => {
                assert(self@.values =~= old(self)@.values.drop_last());
                Ok(v)
            },
            None => Err(Stop::Fault(Fault::EmptyStack)),
        }
    }

    fn pop_int(&mut self) -> (r: Result<i64, Stop>)
        ensures
            match r {
                Ok(i) => pop_int(old(self)@) == Ok::<(i64, MState), Stop>((i, final(self)@)),
                Err(e) => pop_int(old(self)@) == Err::<(i64, MState), Stop>(e) && final(self)@ == pop_failed(old(self)@),
            },
            final(self).storage == old(self).storage,
    {
        match self.pop_value()? {
            Value::Int(i) => Ok(i),
            _ => Err(Stop::Fault(Fault::RuntimeTypeError)),
        }
    }

    fn pop_bool(&mut self) -> (r: Result<bool, Stop>)
        ensures
            match r {
                Ok(b) => pop_bool(old(self)@) == Ok::<(bool, MState), Stop>((b, final(self)@)),
                Err(e) => pop_bool(old(self)@) == Err::<(bool, MState), Stop>(e) && final(self)@ == pop_failed(old(self)@),
            },
            final(self).storage == old(self).storage,
    {
        match self.pop_value()? {
            Value::Bool(b) => Ok(b),
            _ => Err(Stop::Fault(Fault::RuntimeTypeError)),
        }
    }

    fn pop_closure(&mut self) -> (r: Result<Closure<'p>, Stop>)
        ensures
            match r {
                Ok(c) => pop_value(old(self)@) == Ok::<(SValue, MState), Stop>(
                    (SValue::Clo(c.arg, *c.frame, c.env as nat), final(self)@),
                ),
                Err(e) => final(self)@ == pop_failed(old(self)@) && match pop_value(old(self)@) {
                    Ok((v, _)) => !(v is Clo) && e == Stop::Fault(Fault::RuntimeTypeError),
                    Err(e2) => e == e2,
                },
            },
            final(self).storage == old(self).storage,
    {
        match self.pop_value()? {
            Value::Closure(c) => Ok(c),
            _ => Err(Stop::Fault(Fault::RuntimeTypeError)),
        }
    }

    /// The current environment, if there is one.
    fn current_env(&self) -> (r: Option<&Env<'p>>)
        ensures
            match r {
                Some(e) => self@.envs.len() > 0 && e@ == self@.envs.last(),
                None => self@.envs.len() == 0,
            },
    {
        let n = self.environments.len();
        if n == 0 {
            None
        } else {
            Some(&self.environments[n - 1])
        }
    }

    fn pop_env(&mut self) -> (r: Result<(), Stop>)
        ensures
            match r {
                Ok(_) => old(self)@.envs.len() > 0
                    && final(self)@ == (MState { envs: old(self)@.envs.drop_last(), ..old(self)@ }),
                Err(e) => old(self)@.envs.len() == 0 && e == Stop::Fault(Fault::NoEnvironment)
                    && final(self)@ == old(self)@,
            },
            final(self).storage == old(self).storage,
    {
        if self.environments.len() == 0 {
            return Err(Stop::Fault(Fault::NoEnvironment));
        }
        self.environments.pop();
        assert(self@.envs =~= old(self)@.envs.drop_last());
        Ok(())
    }
}

/// A copy of the reachable part of a store under way: `moved` maps each old
/// place that has been copied to its new place, and `origin` maps each new
/// place back.
struct Relocation<'p> {
    moved: HashMap<usize, usize>,
    new_storage: Vec<Env<'p>>,
    origin: Ghost<Seq<nat>>,
    /// The machine as it was when the collection began.
    start: Ghost<MState>,
}

impl<'p> Relocation<'p> {
    spec fn map(&self) -> Map<nat, nat> {
        moved_map(self.moved@)
    }

    /// The copy of `old0` is consistent; the new places below `done` have
    /// had their closures moved.
    spec fn inv(&self, old0: Seq<SEnv>, done: nat) -> bool {
        let m = self.moved@;
        let o = self.origin@;
        &&& o.len() == self.new_storage@.len()
        &&& done <= self.new_storage@.len()
        &&& self.new_storage@.len() <= old0.len()
        &&& forall|e: usize| #[trigger] m.contains_key(e) ==> {
            &&& e < old0.len()
            &&& m[e] < o.len()
            &&& o[m[e] as int] == e
            &&& reachable(self.start@, e as nat)
        }
        &&& forall|n: int| 0 <= n < o.len() ==> {
            &&& #[trigger] o[n] < old0.len()
            &&& m.contains_key(o[n] as usize)
            &&& m[o[n] as usize] == n
        }
        &&& forall|n: int| done <= n < o.len() ==> #[trigger] self.fresh(old0, n)
        &&& forall|n: int| 0 <= n < done ==> #[trigger] self.scanned(old0, n)
    }

    /// The new place `n` holds its old environment as it was.
    spec fn fresh(&self, old0: Seq<SEnv>, n: int) -> bool {
        envs_view(self.new_storage@)[n] == old0[self.origin@[n] as int]
    }

    /// The new place `n` holds its old environment with its closures moved.
    spec fn scanned(&self, old0: Seq<SEnv>, n: int) -> bool {
        let e = old0[self.origin@[n] as int];
        &&& env_in(e, self.map().dom())
        &&& envs_view(self.new_storage@)[n] == rename_env(self.map(), e)
    }

    proof fn lemma_map(&self, old0: Seq<SEnv>, done: nat)
        requires
            self.inv(old0, done),
        ensures
            forall|e: nat| #[trigger] self.map().dom().contains(e) ==> {
                &&& e < old0.len()
                &&& self.map()[e] < self.origin@.len()
                &&& self.origin@[self.map()[e] as int] == e
            },
    {
        assert forall|e: nat| #[trigger] self.map().dom().contains(e) implies {
            &&& e < old0.len()
            &&& self.map()[e] < self.origin@.len()
            &&& self.origin@[self.map()[e] as int] == e
        } by {
            assert(self.moved@.contains_key(e as usize));
        }
    }

    /// Moves the closure of `v`, if any, copying its environment to a new
    /// place the first time.
    fn relocate(&mut self, old_storage: &Vec<Env<'p>>, v: Value<'p>, Ghost(done): Ghost<nat>) -> (w: Value<'p>)
        requires
            old(self).inv(envs_view(old_storage@), done),
            value_below(v@, old_storage@.len()),
            value_reachable(old(self).start@, v@),
        ensures
            final(self).start == old(self).start,
            final(self).inv(envs_view(old_storage@), done),
            old(self).map().submap_of(final(self).map()),
            value_in(v@, final(self).map().dom()),
            w@ == rename_value(final(self).map(), v@),
            final(self).new_storage@.len() >= old(self).new_storage@.len(),
            forall|n: int| 0 <= n < old(self).new_storage@.len() ==> #[trigger] final(self).new_storage@[n] == old(self).new_storage@[n],
            forall|n: int| 0 <= n < old(self).origin@.len() ==> #[trigger] final(self).origin@[n] == old(self).origin@[n],
    {
        let ghost old0 = envs_view(old_storage@);
        match v {
            Value::Closure(c) => {
                match self.moved.get(&c.env) {
                    Some(n) => {
                        assert(self.moved@.contains_key(c.env));
                        assert(self.map().dom().contains(c.env as nat));
                        Value::Closure(Closure { arg: c.arg, frame: c.frame, env: *n })
                    },
                    None => {
                        let n = self.new_storage.len();
                        let ghost f0 = self.map();
                        let ghost ns0 = envs_view(self.new_storage@);
                        let ghost m0 = self.moved@;
                        let ghost o0 = self.origin@;
                        proof {
                            assert forall|i: int, j: int| 0 <= i < j < o0.push(c.env as nat).len()
                                implies o0.push(c.env as nat)[i] != o0.push(c.env as nat)[j] by {
                                if j == o0.len() {
                                    assert(m0.contains_key(o0[i] as usize));
                                } else {
                                    assert(m0[o0[i] as usize] == i);
                                    assert(m0[o0[j] as usize] == j);
                                }
                            }
                            lemma_distinct_below(o0.push(c.env as nat), old0.len());
                        }
                        self.moved.insert(c.env, n);
                        let copy = old_storage[c.env].clone_env();
                        self.new_storage.push(copy);
                        self.origin = Ghost(self.origin@.push(c.env as nat));
                        proof {
                            let f = self.map();
                            assert(f =~= f0.insert(c.env as nat, n as nat));
                            assert(!f0.dom().contains(c.env as nat));
                            assert(f0.submap_of(f));
                            assert(f0.dom().subset_of(f.dom()));
                            let ns = envs_view(self.new_storage@);
                            assert(ns =~= ns0.push(old0[c.env as int]));
                            let o = self.origin@;
                            assert forall|n2: int| 0 <= n2 < done implies #[trigger] self.scanned(old0, n2) by {
                                assert(old(self).scanned(old0, n2));
                                assert(ns[n2] == ns0[n2]);
                                lemma_in_mono(old0[o[n2] as int], f0.dom(), f.dom());
                                lemma_rename_env_agree(f0, f, old0[o[n2] as int]);
                            }
                            assert forall|x: Set<nat>| #[trigger] keeps(self.start@, x) implies x.contains(c.env as nat) by {
                                assert(value_in(v@, x));
                            }
                            assert forall|e: usize| #[trigger] self.moved@.contains_key(e) implies {
                                &&& e < old0.len()
                                &&& self.moved@[e] < o.len()
                                &&& o[self.moved@[e] as int] == e
                                &&& reachable(self.start@, e as nat)
                            } by {
                                if e != c.env {
                                    assert(m0.contains_key(e));
                                }
                            }
                            assert forall|n2: int| done <= n2 < o.len() implies #[trigger] self.fresh(old0, n2) by {
                                if n2 < n {
                                    assert(old(self).fresh(old0, n2));
                                    assert(ns[n2] == ns0[n2]);
                                    assert(o[n2] == old(self).origin@[n2]);
                                }
                            }
                            assert forall|n2: int| 0 <= n2 < o.len() implies {
                                &&& #[trigger] o[n2] < old0.len()
                                &&& self.moved@.contains_key(o[n2] as usize)
                                &&& self.moved@[o[n2] as usize] == n2
                            } by {
                                if n2 < n {
                                    assert(o[n2] == o0[n2]);
                                    assert(m0.contains_key(o0[n2] as usize));
                                    assert(o0[n2] as usize != c.env);
                                }
                            }
                            assert(self.inv(old0, done));
                        }
                        Value::Closure(Closure { arg: c.arg, frame: c.frame, env: n })
                    },
                }
            },
            _ => v,
        }
    }

    /// A copy of `env` with all its closures moved.
    fn relocate_env(&mut self, old_storage: &Vec<Env<'p>>, env: &Env<'p>, Ghost(done): Ghost<nat>) -> (r: Env<'p>)
        requires
            old(self).inv(envs_view(old_storage@), done),
            env_below(env@, old_storage@.len()),
            env_reachable(old(self).start@, env@),
        ensures
            final(self).start == old(self).start,
            final(self).inv(envs_view(old_storage@), done),
            old(self).map().submap_of(final(self).map()),
            env_in(env@, final(self).map().dom()),
            r@ == rename_env(final(self).map(), env@),
            final(self).new_storage@.len() >= old(self).new_storage@.len(),
            forall|n: int| 0 <= n < old(self).new_storage@.len() ==> #[trigger] final(self).new_storage@[n] == old(self).new_storage@[n],
            forall|n: int| 0 <= n < old(self).origin@.len() ==> #[trigger] final(self).origin@[n] == old(self).origin@[n],
    {
        let entries = env.entries();
        let mut r = Env::new();
        let mut j: usize = 0;
        while j < entries.len()
            invariant
                self.inv(envs_view(old_storage@), done),
                old(self).inv(envs_view(old_storage@), done),
                old(self).map().submap_of(self.map()),
                env_below(env@, old_storage@.len()),
                self.start == old(self).start,
                env_reachable(self.start@, env@),
                forall|i: int| 0 <= i < entries@.len() ==> {
                    &&& env@.contains_key(#[trigger] entries@[i].0)
                    &&& env@[entries@[i].0] == entries@[i].1@
                },
                forall|i: int, k: int| 0 <= i < k < entries@.len() ==> entries@[i].0 != entries@[k].0,
                j <= entries@.len(),
                forall|i: int| 0 <= i < j ==> r@.contains_key(#[trigger] entries@[i].0),
                forall|n: Name| #[trigger] r@.contains_key(n) ==> {
                    &&& env@.contains_key(n)
                    &&& value_in(env@[n], self.map().dom())
                    &&& r@[n] == rename_value(self.map(), env@[n])
                },
                self.new_storage@.len() >= old(self).new_storage@.len(),
                forall|n: int| 0 <= n < old(self).new_storage@.len() ==> #[trigger] self.new_storage@[n] == old(self).new_storage@[n],
                forall|n: int| 0 <= n < old(self).origin@.len() ==> #[trigger] self.origin@[n] == old(self).origin@[n],
            decreases entries@.len() - j,
        {
            let (name, v) = entries[j];
            let ghost f0 = self.map();
            let ghost r0 = r@;
            proof {
                assert(env@.contains_key(entries@[j as int].0));
                assert(value_below(env@[name], old_storage@.len()));
                assert forall|x: Set<nat>| #[trigger] keeps(self.start@, x) implies value_in(v@, x) by {
                    assert(env_in(env@, x));
                }
            }
            let ghost pre = *self;
            let w = self.relocate(old_storage, v, Ghost(done));
            r.insert(name, w);
            proof {
                assert(pre.origin@.len() == pre.new_storage@.len());
                assert(old(self).origin@.len() == old(self).new_storage@.len());
                assert forall|n: int| 0 <= n < old(self).origin@.len() implies #[trigger] self.origin@[n] == old(self).origin@[n] by {
                    assert(pre.origin@[n] == old(self).origin@[n]);
                }
                assert forall|n: int| 0 <= n < old(self).new_storage@.len() implies #[trigger] self.new_storage@[n] == old(self).new_storage@[n] by {
                    assert(pre.new_storage@[n] == old(self).new_storage@[n]);
                }
                let f = self.map();
                assert forall|x: nat| #[trigger] old(self).map().dom().contains(x) implies f.dom().contains(x)
                    && old(self).map()[x] == f[x] by {
                    assert(f0.dom().contains(x));
                    assert(f0[x] == old(self).map()[x]);
                }
                assert forall|i: int| 0 <= i < j + 1 implies r@.contains_key(#[trigger] entries@[i].0) by {
                    if i < j {
                        assert(r0.contains_key(entries@[i].0));
                    }
                }
                assert forall|n: Name| #[trigger] r@.contains_key(n) implies {
                    &&& env@.contains_key(n)
                    &&& value_in(env@[n], f.dom())
                    &&& r@[n] == rename_value(f, env@[n])
                } by {
                    if n != name {
                        assert(r0.contains_key(n));
                        lemma_rename_value_agree(f0, f, env@[n]);
                    }
                }
            }
            j += 1;
        }
        proof {
            let f = self.map();
            assert forall|n: Name| #[trigger] env@.contains_key(n) implies r@.contains_key(n) by {
                let i = choose|i: int| 0 <= i < entries@.len() && entries@[i].0 == n;
                assert(r@.contains_key(entries@[i].0));
            }
            assert forall|n: Name| #[trigger] env@.contains_key(n) implies value_in(env@[n], f.dom()) by {
                assert(r@.contains_key(n));
            }
            assert(r@ =~= rename_env(f, env@));
        }
        r
    }
}

impl<'p> Machine<'p> {
    /// Copies the environments that the machine can still reach to a fresh
    /// store, moving the closures to their new places. The new store holds
    /// exactly the reachable environments, one place each; the unreachable
    /// ones are gone.
    fn gc(&mut self)
        requires
            old(self).wf(),
        ensures
            final(self).wf(),
            exists|f: Map<nat, nat>| {
                &&& related(old(self)@, final(self)@, f)
                &&& forall|i: nat| #[trigger] f.dom().contains(i) <==> reachable(old(self)@, i)
                &&& final(self)@.storage.len() == f.dom().len()
            },
            final(self)@.storage.len() <= old(self)@.storage.len(),
    {
        let ghost s0 = self@;
        let mut old_storage: Vec<Env<'p>> = Vec::new();
        std::mem::swap(&mut old_storage, &mut self.storage);
        let ghost old0 = envs_view(old_storage@);
        assert(old0 == s0.storage);
        let moved: HashMap<usize, usize> = HashMap::new();
        let mut reloc = Relocation { moved, new_storage: Vec::new(), origin: Ghost(Seq::empty()), start: Ghost(s0) };
        assert(reloc.map() =~= Map::empty());
        // The value stack.
        let mut i: usize = 0;
        while i < self.values.len()
            invariant
                reloc.inv(old0, 0),
                reloc.start@ == s0,
                old_storage@.len() == old0.len(),
                envs_view(old_storage@) == old0,
                self.values@.len() == s0.values.len(),
                i <= self.values@.len(),
                self@.envs == s0.envs,
                self@.acts == s0.acts,
                state_ok(s0),
                s0.storage == old0,
                forall|k: int| 0 <= k < i ==> value_in(#[trigger] s0.values[k], reloc.map().dom()),
                forall|k: int| 0 <= k < i ==> #[trigger] self.values@[k]@ == rename_value(reloc.map(), s0.values[k]),
                forall|k: int| i <= k < self.values@.len() ==> #[trigger] self.values@[k]@ == s0.values[k],
            decreases self.values@.len() - i,
        {
            let v = self.values[i];
            let ghost f0 = reloc.map();
            proof {
                assert(value_below(s0.values[i as int], old0.len()));
                assert forall|x: Set<nat>| #[trigger] keeps(s0, x) implies value_in(v@, x) by {
                    assert(value_in(s0.values[i as int], x));
                }
            }
            let w = reloc.relocate(&old_storage, v, Ghost(0));
            self.values.set(i, w);
            proof {
                let f = reloc.map();
                assert forall|k: int| 0 <= k < i + 1 implies value_in(#[trigger] s0.values[k], f.dom()) by {
                    if k < i {
                        assert(value_in(s0.values[k], f0.dom()));
                    }
                }
                assert forall|k: int| 0 <= k < i + 1 implies #[trigger] self.values@[k]@ == rename_value(f, s0.values[k]) by {
                    if k < i {
                        assert(value_in(s0.values[k], f0.dom()));
                        lemma_rename_value_agree(f0, f, s0.values[k]);
                    }
                }
            }
            i += 1;
        }
        // The environment stack.
        let mut i: usize = 0;
        while i < self.environments.len()
            invariant
                reloc.inv(old0, 0),
                reloc.start@ == s0,
                old_storage@.len() == old0.len(),
                envs_view(old_storage@) == old0,
                self.environments@.len() == s0.envs.len(),
                i <= self.environments@.len(),
                self@.acts == s0.acts,
                self.values@.len() == s0.values.len(),
                state_ok(s0),
                s0.storage == old0,
                forall|k: int| 0 <= k < s0.values.len() ==> value_in(#[trigger] s0.values[k], reloc.map().dom()),
                forall|k: int| 0 <= k < s0.values.len() ==> #[trigger] self.values@[k]@ == rename_value(reloc.map(), s0.values[k]),
                forall|k: int| 0 <= k < i ==> env_in(#[trigger] s0.envs[k], reloc.map().dom()),
                forall|k: int| 0 <= k < i ==> #[trigger] self.environments@[k]@ == rename_env(reloc.map(), s0.envs[k]),
                forall|k: int| i <= k < self.environments@.len() ==> #[trigger] self.environments@[k]@ == s0.envs[k],
            decreases self.environments@.len() - i,
        {
            let ghost f0 = reloc.map();
            proof {
                assert(env_below(s0.envs[i as int], old0.len()));
                assert forall|x: Set<nat>| #[trigger] keeps(s0, x) implies env_in(s0.envs[i as int], x) by {
                    assert(env_in(s0.envs[i as int], x));
                }
            }
            let e2 = reloc.relocate_env(&old_storage, &self.environments[i], Ghost(0));
            self.environments.set(i, e2);
            proof {
                let f = reloc.map();
                assert forall|k: int| 0 <= k < s0.values.len() implies #[trigger] self.values@[k]@ == rename_value(f, s0.values[k]) by {
                    assert(value_in(s0.values[k], f0.dom()));
                    lemma_rename_value_agree(f0, f, s0.values[k]);
                }
                assert forall|k: int| 0 <= k < s0.values.len() implies value_in(#[trigger] s0.values[k], f.dom()) by {
                    assert(value_in(s0.values[k], f0.dom()));
                }
                assert forall|k: int| 0 <= k < i + 1 implies env_in(#[trigger] s0.envs[k], f.dom()) by {
                    if k < i {
                        lemma_in_mono(s0.envs[k], f0.dom(), f.dom());
                    }
                }
                assert forall|k: int| 0 <= k < i + 1 implies #[trigger] self.environments@[k]@ == rename_env(f, s0.envs[k]) by {
                    if k < i {
                        lemma_rename_env_agree(f0, f, s0.envs[k]);
                    }
                }
            }
            i += 1;
        }
        // The copied environments, until no new ones come.
        let mut done: usize = 0;
        while done < reloc.new_storage.len()
            invariant
                reloc.inv(old0, done as nat),
                reloc.start@ == s0,
                old_storage@.len() == old0.len(),
                envs_view(old_storage@) == old0,
                self.environments@.len() == s0.envs.len(),
                self@.acts == s0.acts,
                self.values@.len() == s0.values.len(),
                state_ok(s0),
                s0.storage == old0,
                forall|k: int| 0 <= k < s0.values.len() ==> value_in(#[trigger] s0.values[k], reloc.map().dom()),
                forall|k: int| 0 <= k < s0.values.len() ==> #[trigger] self.values@[k]@ == rename_value(reloc.map(), s0.values[k]),
                forall|k: int| 0 <= k < s0.envs.len() ==> env_in(#[trigger] s0.envs[k], reloc.map().dom()),
                forall|k: int| 0 <= k < s0.envs.len() ==> #[trigger] self.environments@[k]@ == rename_env(reloc.map(), s0.envs[k]),
            decreases old0.len() - done,
        {
            let ghost f0 = reloc.map();
            let ghost o = reloc.origin@;
            proof {
                assert(reloc.fresh(old0, done as int));
                assert(envs_view(reloc.new_storage@)[done as int] == old0[o[done as int] as int]);
                assert(o[done as int] < old0.len());
                assert(env_below(old0[o[done as int] as int], old0.len()));
                let src = o[done as int];
                assert(reloc.moved@.contains_key(src as usize));
                assert(reachable(s0, src));
                assert forall|x: Set<nat>| #[trigger] keeps(s0, x) implies env_in(old0[src as int], x) by {
                    assert(x.contains(src));
                }
            }
            let cur = reloc.new_storage[done].clone_env();
            let e2 = reloc.relocate_env(&old_storage, &cur, Ghost(done as nat));
            let ghost mid = envs_view(reloc.new_storage@);
            let ghost mid_reloc = reloc;
            reloc.new_storage.set(done, e2);
            assert(envs_view(reloc.new_storage@) =~= mid.update(done as int, e2@));
            proof {
                let f = reloc.map();
                assert forall|k: int| 0 <= k < s0.values.len() implies #[trigger] self.values@[k]@ == rename_value(f, s0.values[k]) by {
                    assert(value_in(s0.values[k], f0.dom()));
                    lemma_rename_value_agree(f0, f, s0.values[k]);
                }
                assert forall|k: int| 0 <= k < s0.values.len() implies value_in(#[trigger] s0.values[k], f.dom()) by {
                    assert(value_in(s0.values[k], f0.dom()));
                }
                assert forall|k: int| 0 <= k < s0.envs.len() implies env_in(#[trigger] s0.envs[k], f.dom()) by {
                    lemma_in_mono(s0.envs[k], f0.dom(), f.dom());
                }
                assert forall|k: int| 0 <= k < s0.envs.len() implies #[trigger] self.environments@[k]@ == rename_env(f, s0.envs[k]) by {
                    lemma_rename_env_agree(f0, f, s0.envs[k]);
                }
                let ns = envs_view(reloc.new_storage@);
                let o2 = reloc.origin@;
                assert forall|n: int| 0 <= n < done + 1 implies #[trigger] reloc.scanned(old0, n) by {
                    if n < done {
                        assert(mid_reloc.scanned(old0, n));
                        assert(o2[n] == o[n]);
                        assert(ns[n] == mid[n]);
                    } else {
                        assert(o2[n] == o[n]);
                    }
                }
                assert forall|n: int| done + 1 <= n < o2.len() implies #[trigger] reloc.fresh(old0, n) by {
                    assert(mid_reloc.fresh(old0, n));
                    assert(ns[n] == mid[n]);
                }
                assert(o2.len() == ns.len());
            }
            done += 1;
        }
        self.storage = reloc.new_storage;
        proof {
            let f = reloc.map();
            let s = self@;
            reloc.lemma_map(old0, done as nat);
            assert(s.values =~= crate::machine::relocation::rename_values(f, s0.values));
            assert(s.envs =~= crate::machine::relocation::rename_envs(f, s0.envs));
            assert forall|x: nat| #[trigger] f.dom().contains(x) implies {
                &&& x < s0.storage.len()
                &&& f[x] < s.storage.len()
                &&& env_in(s0.storage[x as int], f.dom())
                &&& s.storage[f[x] as int] == rename_env(f, s0.storage[x as int])
            } by {
                let n = f[x] as int;
                assert(reloc.origin@[n] == x);
                assert(reloc.scanned(old0, n));
                assert(envs_view(reloc.new_storage@)[n] == rename_env(f, old0[reloc.origin@[n] as int]));
            }
            assert forall|x: nat, y: nat| #[trigger] f.dom().contains(x) && #[trigger] f.dom().contains(y) && x != y
                implies f[x] != f[y] by {
                assert(reloc.origin@[f[x] as int] == x);
                assert(reloc.origin@[f[y] as int] == y);
            }
            assert(related(s0, s, f));
            assert(state_ok(s)) by {
                let n = s.storage.len();
                assert forall|k: int| 0 <= k < s.values.len() implies value_below(#[trigger] s.values[k], n) by {
                    assert(value_in(s0.values[k], f.dom()));
                }
                assert forall|k: int| 0 <= k < s.envs.len() implies env_below(#[trigger] s.envs[k], n) by {
                    assert(env_in(s0.envs[k], f.dom()));
                    assert forall|j: Name| #[trigger] s.envs[k].contains_key(j) implies value_below(s.envs[k][j], n) by {
                        assert(value_in(s0.envs[k][j], f.dom()));
                    }
                }
                assert forall|k: int| 0 <= k < s.storage.len() implies env_below(#[trigger] s.storage[k], n) by {
                    let e0 = old0[reloc.origin@[k] as int];
                    assert(reloc.scanned(old0, k));
                    assert(envs_view(reloc.new_storage@)[k] == rename_env(f, e0));
                    assert(env_in(e0, f.dom()));
                    assert forall|j: Name| #[trigger] s.storage[k].contains_key(j) implies value_below(s.storage[k][j], n) by {
                        assert(value_in(e0[j], f.dom()));
                    }
                }
            }
            // The moved places are exactly the reachable ones.
            assert(keeps(s0, f.dom()));
            assert forall|i: nat| #[trigger] f.dom().contains(i) <==> reachable(s0, i) by {
                if f.dom().contains(i) {
                    assert(reloc.moved@.contains_key(i as usize));
                }
            }
            // The new store has one place for each of them.
            let o = reloc.origin@;
            assert forall|i: int, j: int| 0 <= i < o.len() && 0 <= j < o.len() && i != j implies o[i] != o[j] by {
                assert(reloc.moved@[o[i] as usize] == i);
                assert(reloc.moved@[o[j] as usize] == j);
            }
            assert(o.no_duplicates());
            o.unique_seq_to_set();
            assert forall|e: nat| #[trigger] f.dom().contains(e) <==> o.to_set().contains(e) by {
                if f.dom().contains(e) {
                    assert(o[f[e] as int] == e);
                }
                if o.to_set().contains(e) {
                    let n = choose|n: int| 0 <= n < o.len() && o[n] == e;
                    assert(reloc.moved@.contains_key(o[n] as usize));
                }
            }
            assert(f.dom() =~= o.to_set());
            assert(s.storage.len() == f.dom().len());
        }
    }
}

/// The number of instructions between two collections of unreachable
/// environments.
pub const GC_INTERVAL: u64 = 92;

impl<'p> Machine<'p> {
    /// Runs the machine until its code is done, an error stops it, or the
    /// machine cannot go on.
    fn run_to_end(&mut self) -> (r: Result<Value<'p>, Stop>)
        requires
            old(self).wf(),
        ensures
            match r {
                Ok(v) => run(old(self)@) == Outcome::Value(observe(v@)),
                Err(Stop::Fault(f)) => run(old(self)@) == Outcome::Fault(f),
                Err(Stop::Crash) => run(old(self)@) == Outcome::Crash,
            },
    {
        let ghost start = self@;
        let mut step: u64 = 0;
        loop
            invariant
                self.wf(),
                start == old(self)@,
                observe_halt(outcome(self@, (u64::MAX - step) as nat)) == run(start),
            ensures
                start == old(self)@,
                observe_halt(finish(self@)) == run(start),
            decreases u64::MAX - step,
        {
            let ghost before = self@;
            let ghost fuel = (u64::MAX - step) as nat;
            match self.fetch_instruction() {
                None => {
                    assert(outcome(before, fuel) == finish(before));
                    break;
                },
                Some(inst) => {
                    proof {
                        lemma_fetch_ok(before);
                    }
                    if step == u64::MAX {
                        assert(outcome(before, fuel) == Halt::Fault(Fault::StepLimit));
                        return Err(Stop::Fault(Fault::StepLimit));
                    }
                    step += 1;
                    let ghost mid = self@;
                    match inst.exec(self) {
                        Ok(()) => {},
                        Err(e) => {
                            proof {
                                assert(crate::machine::semantics::step(mid, *inst) == Err::<MState, Stop>(e));
                                assert(outcome(before, fuel) == match e {
                                    Stop::Fault(f) => Halt::Fault(f),
                                    Stop::Crash => Halt::Crash,
                                });
                            }
                            return Err(e);
                        },
                    }
                    assert(outcome(before, fuel) == outcome(self@, (u64::MAX - step) as nat));
                    if step % GC_INTERVAL == 0 {
                        let ghost pre = self@;
                        self.gc();
                        proof {
                            let f = choose|f: Map<nat, nat>| related(pre, self@, f);
                            lemma_outcome_related(pre, self@, f, (u64::MAX - step) as nat);
                        }
                    }
                },
            }
        }
        let ghost last = self@;
        match self.pop_value() {
            Err(e) => {
                assert(finish(last) == Halt::Fault(Fault::EmptyStack));
                Err(e)
            },
            Ok(result) => {
                assert(self@.values.len() == self.values@.len());
                if self.values.len() != 0 {
                    assert(finish(last) == Halt::Fault(Fault::ValuesLeft));
                    return Err(Stop::Fault(Fault::ValuesLeft));
                }
                assert(finish(last) == Halt::Value(result@));
                Ok(result)
            },
        }
    }

    /// Runs the program to its end and returns its single remaining value.
    ///
    /// The run stops with an error where the program pops from an empty
    /// stack, meets a value of the wrong kind, reads an unbound variable,
    /// leaves an environment when there is none, divides by zero, leaves
    /// more than one value, or executes more than `u64::MAX` instructions.
    /// A returned closure is given with its place in the machine's store,
    /// which no clause here pins down.
    pub fn exec(&mut self) -> (r: Result<Value<'p>, RuntimeError>)
        requires
            old(self).wf(),
            !(run(old(self)@) is Crash),
        ensures
            match r {
                Ok(v) => run(old(self)@) == Outcome::Value(observe(v@)),
                Err(e) => run(old(self)@) matches Outcome::Fault(f) && e.message@ == fault_message(f),
            },
    {
        match self.run_to_end() {
            Ok(v) => Ok(v),
            Err(Stop::Fault(f)) => Err(runtime_error(f)),
            Err(Stop::Crash) => Err(runtime_error(Fault::StepLimit)),
        }
    }

    /// Like [`Machine::exec`], but for every program: `None` where the
    /// machine cannot go on (an arithmetic overflow, or code that needs a
    /// current environment when there is none).
    pub fn try_exec(&mut self) -> (r: Option<Result<Value<'p>, RuntimeError>>)
        requires
            old(self).wf(),
        ensures
            match r {
                None => run(old(self)@) is Crash,
                Some(Ok(v)) => run(old(self)@) == Outcome::Value(observe(v@)),
                Some(Err(e)) => run(old(self)@) matches Outcome::Fault(f) && e.message@ == fault_message(f),
            },
    {
        match self.run_to_end() {
            Ok(v) => Some(Ok(v)),
            Err(Stop::Fault(f)) => Some(Err(runtime_error(f))),
            Err(Stop::Crash) => None,
        }
    }
}

impl ArithInstruction {
    /// Pops two integers and pushes the result of this operation.
    fn exec<'p>(&self, machine: &mut Machine<'p>) -> (r: Result<(), Stop>)
        ensures
            match r {
                Ok(_) => step(old(machine)@, Instruction::ArithInstruction(*self)) == Ok::<MState, Stop>(final(machine)@),
                Err(e) => step(old(machine)@, Instruction::ArithInstruction(*self)) == Err::<MState, Stop>(e)
                    && final(machine)@ == fail_state(old(machine)@, Instruction::ArithInstruction(*self)),
            },
            final(machine).storage == old(machine).storage,
    {
        let op2 = machine.pop_int()?;
        let op1 = machine.pop_int()?;
        let ret = match self {
            ArithInstruction::Add => op1.checked_add(op2),
            ArithInstruction::Sub => op1.checked_sub(op2),
            ArithInstruction::Mul => op1.checked_mul(op2),
            ArithInstruction::Div => {
                if op2 == 0 {
                    return Err(Stop::Fault(Fault::DivisionByZero));
                } else {
                    op1.checked_div(op2)
                }
            },
        };
        proof {
            assert(arith(*self, op1, op2) == match ret { Some(x) => Ok::<i64, Stop>(x), None => Err(Stop::Crash) });
        }
        match ret {
            Some(x) => {
                machine.push_int(x);
                Ok(())
            },
            None => Err(Stop::Crash),
        }
    }
}

impl CmpInstruction {
    /// Pops two integers and pushes the result of this comparison.
    fn exec<'p>(&self, machine: &mut Machine<'p>) -> (r: Result<(), Stop>)
        ensures
            match r {
                Ok(_) => step(old(machine)@, Instruction::CmpInstruction(*self)) == Ok::<MState, Stop>(final(machine)@),
                Err(e) => step(old(machine)@, Instruction::CmpInstruction(*self)) == Err::<MState, Stop>(e)
                    && final(machine)@ == fail_state(old(machine)@, Instruction::CmpInstruction(*self)),
            },
            final(machine).storage == old(machine).storage,
    {
        let op2 = machine.pop_int()?;
        let op1 = machine.pop_int()?;
        let ret = match self {
            CmpInstruction::Lt => op1 < op2,
            CmpInstruction::Eq => op1 == op2,
            CmpInstruction::Gt => op1 > op2,
        };
        assert(ret == compare(*self, op1, op2));
        machine.push_bool(ret);
        Ok(())
    }
}

impl Instruction {
    /// Executes this instruction on `machine`.
    fn exec<'p>(&'p self, machine: &mut Machine<'p>) -> (r: Result<(), Stop>)
        requires
            old(machine).wf(),
        ensures
            match r {
                Ok(_) => step(old(machine)@, *self) == Ok::<MState, Stop>(final(machine)@) && final(machine).wf(),
                Err(e) => step(old(machine)@, *self) == Err::<MState, Stop>(e) && final(machine)@ == fail_state(old(machine)@, *self),
            },
    {
        proof {
            lemma_step_ok(machine@, *self);
        }
        match self {
            Instruction::ArithInstruction(inst) => inst.exec(machine),
            Instruction::CmpInstruction(inst) => inst.exec(machine),
            Instruction::PushInt(i) => {
                machine.push_int(*i);
                Ok(())
            },
            Instruction::PushBool(b) => {
                machine.push_bool(*b);
                Ok(())
            },
            Instruction::Branch(tru, fls) => {
                let c = machine.pop_bool()?;
                let jump = if c { tru } else { fls };
                machine.switch_frame(jump);
                Ok(())
            },
            Instruction::Var(name) => {
                let value = match machine.current_env() {
                    None => return Err(Stop::Crash),
                    Some(env) => env.get(*name),
                };
                match value {
                    None => Err(Stop::Fault(Fault::UndefinedVariable)),
                    Some(v) => {
                        machine.push_value(v);
                        Ok(())
                    },
                }
            },
            Instruction::Closure { name, arg, frame } => {
                let mut env = match machine.current_env() {
                    None => return Err(Stop::Crash),
                    Some(env) => env.clone_env(),
                };
                let env_idx = machine.storage.len();
                let value = Value::Closure(Closure { arg: *arg, frame, env: env_idx });
                env.insert(*name, value);
                machine.storage.push(env);
                machine.values.push(value);
                proof {
                    let s = old(machine)@;
                    assert(machine@.storage =~= s.storage.push(env@));
                    assert(machine@.values =~= s.values.push(value@));
                }
                assert(step(old(machine)@, *self) == Ok::<MState, Stop>(machine@));
                Ok(())
            },
            Instruction::Call => {
                let arg_value = machine.pop_value()?;
                let c = machine.pop_closure()?;
                if c.env >= machine.storage.len() {
                    return Err(Stop::Crash);
                }
                let mut env = machine.storage[c.env].clone_env();
                env.insert(c.arg, arg_value);
                let ghost popped = machine@;
                machine.environments.push(env);
                assert(machine@.envs =~= popped.envs.push(env@));
                machine.switch_frame(c.frame);
                assert(step(old(machine)@, *self) == Ok::<MState, Stop>(machine@));
                Ok(())
            },
            Instruction::PopEnv => machine.pop_env(),
        }
    }
}

} // verus!
