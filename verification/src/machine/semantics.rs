//! The meaning of the machine's code: a step function on abstract machine
//! states and the outcome of running a state for a number of steps.
use vstd::prelude::*;
use crate::machine::program::{ArithInstruction, CmpInstruction, Frame, Instruction, Name};

verus! {

/// A run-time value as the semantics sees it: a closure holds its code.
pub enum SValue {
    Int(i64),
    Bool(bool),
    /// Argument name, body, index of the captured environment in the store.
    Clo(Name, Frame, nat),
}

/// An environment: names bound to values.
pub type SEnv = Map<Name, SValue>;

/// An abstract machine state.
pub struct MState {
    /// Captured environments, indexed by the closures that captured them.
    pub storage: Seq<SEnv>,
    /// The value stack.
    pub values: Seq<SValue>,
    /// The environment stack; the last one is the current environment.
    pub envs: Seq<SEnv>,
    /// The activation stack: frames and the position of their next instruction.
    pub acts: Seq<(Frame, usize)>,
}

/// Why a run stops with an error.
#[derive(PartialEq, Eq, Clone, Copy, Debug)]
pub enum Fault {
    EmptyStack,
    RuntimeTypeError,
    UndefinedVariable,
    NoEnvironment,
    ValuesLeft,
    DivisionByZero,
    StepLimit,
}

/// Why a step does not continue: an error of the program, or a state on
/// which the machine cannot go on at all (an arithmetic overflow, or code
/// that needs a current environment when there is none).
#[derive(PartialEq, Eq, Clone, Copy, Debug)]
pub enum Stop {
    Fault(Fault),
    Crash,
}

/// How a run ends.
pub enum Halt {
    Value(SValue),
    Fault(Fault),
    Crash,
}

/// The message that reports a fault.
pub open spec fn fault_message(f: Fault) -> Seq<char> {
    match f {
        Fault::EmptyStack => "Fatal: empty stack :("@,
        Fault::RuntimeTypeError => "Fatal: runtime type error :("@,
        Fault::UndefinedVariable => "Fatal: undefined variable :("@,
        Fault::NoEnvironment => "Fatal: no environment :("@,
        Fault::ValuesLeft => "Fatal: more then one value on stack left :("@,
        Fault::DivisionByZero => "Division by zero"@,
        Fault::StepLimit => "Fatal: step limit reached :("@,
    }
}

// ---------------------------------------------------------------------------
// Environments

/// The value bound to `k`.
pub open spec fn env_get(e: SEnv, k: Name) -> Option<SValue> {
    if e.contains_key(k) {
        Some(e[k])
    } else {
        None
    }
}

/// `e` with `k` bound to `v`, in place of an earlier binding of `k`.
pub open spec fn env_insert(e: SEnv, k: Name, v: SValue) -> SEnv {
    e.insert(k, v)
}

/// Looking a name up in an environment just extended with it gives the new
/// value, and every other name keeps the value it had.
pub proof fn lemma_env_get_insert(e: SEnv, k: Name, v: SValue, j: Name)
    ensures
        env_get(env_insert(e, k, v), k) == Some(v),
        j != k ==> env_get(env_insert(e, k, v), j) == env_get(e, j),
{
}

// ---------------------------------------------------------------------------
// Stack operations

pub open spec fn push_value(s: MState, v: SValue) -> MState {
    MState { values: s.values.push(v), ..s }
}

pub open spec fn pop_value(s: MState) -> Result<(SValue, MState), Stop> {
    if s.values.len() == 0 {
        Err(Stop::Fault(Fault::EmptyStack))
    } else {
        Ok((s.values.last(), MState { values: s.values.drop_last(), ..s }))
    }
}

pub open spec fn pop_int(s: MState) -> Result<(i64, MState), Stop> {
    match pop_value(s) {
        Ok((SValue::Int(i), s1)) => Ok((i, s1)),
        Ok(_) => Err(Stop::Fault(Fault::RuntimeTypeError)),
        Err(e) => Err(e),
    }
}

pub open spec fn pop_bool(s: MState) -> Result<(bool, MState), Stop> {
    match pop_value(s) {
        Ok((SValue::Bool(b), s1)) => Ok((b, s1)),
        Ok(_) => Err(Stop::Fault(Fault::RuntimeTypeError)),
        Err(e) => Err(e),
    }
}

/// Arithmetic on 64-bit integers; division truncates toward zero.
pub open spec fn arith(op: ArithInstruction, a: i64, b: i64) -> Result<i64, Stop> {
    let r = match op {
        ArithInstruction::Add => a.checked_add(b),
        ArithInstruction::Sub => a.checked_sub(b),
        ArithInstruction::Mul => a.checked_mul(b),
        ArithInstruction::Div => a.checked_div(b),
    };
    if op == ArithInstruction::Div && b == 0 {
        Err(Stop::Fault(Fault::DivisionByZero))
    } else {
        match r {
            Some(x) => Ok(x),
            None => Err(Stop::Crash),
        }
    }
}

pub open spec fn compare(op: CmpInstruction, a: i64, b: i64) -> bool {
    match op {
        CmpInstruction::Lt => a < b,
        CmpInstruction::Eq => a == b,
        CmpInstruction::Gt => a > b,
    }
}

// ---------------------------------------------------------------------------
// One step

/// Executes one instruction.
pub open spec fn step(s: MState, inst: Instruction) -> Result<MState, Stop> {
    match inst {
        Instruction::ArithInstruction(op) => match pop_int(s) {
            Err(e) => Err(e),
            Ok((b, s1)) => match pop_int(s1) {
                Err(e) => Err(e),
                Ok((a, s2)) => match arith(op, a, b) {
                    Err(e) => Err(e),
                    Ok(r) => Ok(push_value(s2, SValue::Int(r))),
                },
            },
        },
        Instruction::CmpInstruction(op) => match pop_int(s) {
            Err(e) => Err(e),
            Ok((b, s1)) => match pop_int(s1) {
                Err(e) => Err(e),
                Ok((a, s2)) => Ok(push_value(s2, SValue::Bool(compare(op, a, b)))),
            },
        },
        Instruction::PushInt(i) => Ok(push_value(s, SValue::Int(i))),
        Instruction::PushBool(b) => Ok(push_value(s, SValue::Bool(b))),
        Instruction::Branch(tru, fls) => match pop_bool(s) {
            Err(e) => Err(e),
            Ok((c, s1)) => Ok(MState { acts: s1.acts.push((if c { tru } else { fls }, 0)), ..s1 }),
        },
        Instruction::Var(name) => {
            if s.envs.len() == 0 {
                Err(Stop::Crash)
            } else {
                match env_get(s.envs.last(), name) {
                    None => Err(Stop::Fault(Fault::UndefinedVariable)),
                    Some(v) => Ok(push_value(s, v)),
                }
            }
        },
        Instruction::Closure { name, arg, frame } => {
            if s.envs.len() == 0 {
                Err(Stop::Crash)
            } else {
                let v = SValue::Clo(arg, frame, s.storage.len());
                let env = env_insert(s.envs.last(), name, v);
                Ok(MState { storage: s.storage.push(env), values: s.values.push(v), ..s })
            }
        },
        Instruction::Call => match pop_value(s) {
            Err(e) => Err(e),
            Ok((argv, s1)) => match pop_value(s1) {
                Err(e) => Err(e),
                Ok((SValue::Clo(arg, frame, idx), s2)) => {
                    if idx >= s2.storage.len() {
                        Err(Stop::Crash)
                    } else {
                        let env = env_insert(s2.storage[idx as int], arg, argv);
                        Ok(MState { envs: s2.envs.push(env), acts: s2.acts.push((frame, 0)), ..s2 })
                    }
                },
                Ok(_) => Err(Stop::Fault(Fault::RuntimeTypeError)),
            },
        },
        Instruction::PopEnv => {
            if s.envs.len() == 0 {
                Err(Stop::Fault(Fault::NoEnvironment))
            } else {
                Ok(MState { envs: s.envs.drop_last(), ..s })
            }
        },
    }
}

/// `s` with its topmost value popped.
pub open spec fn pop1(s: MState) -> MState {
    MState { values: s.values.drop_last(), ..s }
}

/// What a failed pop leaves: nothing changes on an empty stack, and a value
/// of the wrong kind is gone.
pub open spec fn pop_failed(s: MState) -> MState {
    if s.values.len() == 0 {
        s
    } else {
        pop1(s)
    }
}

/// The state that a failed step of `inst` leaves: the values popped before
/// the failure are gone, and nothing else changes.
pub open spec fn fail_state(s: MState, inst: Instruction) -> MState {
    let n = s.values.len();
    match inst {
        Instruction::ArithInstruction(_) | Instruction::CmpInstruction(_) => {
            if n == 0 {
                s
            } else if !(s.values.last() is Int) || n == 1 {
                pop1(s)
            } else {
                pop1(pop1(s))
            }
        },
        Instruction::Branch(_, _) => pop_failed(s),
        Instruction::Call => {
            if n <= 1 {
                pop_failed(s)
            } else {
                pop1(pop1(s))
            }
        },
        _ => s,
    }
}

/// The next instruction, and the state whose activations have moved past it;
/// `None` when the topmost activation is missing or finished.
pub open spec fn fetch(s: MState) -> Option<(Instruction, MState)> {
    if s.acts.len() == 0 {
        None
    } else {
        let (frame, pc) = s.acts.last();
        if pc >= frame@.len() {
            None
        } else {
            let rest = s.acts.drop_last();
            let acts = if pc + 1 < frame@.len() { rest.push((frame, (pc + 1) as usize)) } else { rest };
            Some((frame@[pc as int], MState { acts, ..s }))
        }
    }
}

/// The result of a state whose code is done: the single value left.
pub open spec fn finish(s: MState) -> Halt {
    if s.values.len() == 0 {
        Halt::Fault(Fault::EmptyStack)
    } else if s.values.len() > 1 {
        Halt::Fault(Fault::ValuesLeft)
    } else {
        Halt::Value(s.values[0])
    }
}

/// How a run from `s` ends when at most `fuel` instructions may execute.
pub open spec fn outcome(s: MState, fuel: nat) -> Halt
    decreases fuel,
{
    match fetch(s) {
        None => finish(s),
        Some((inst, s1)) => {
            if fuel == 0 {
                Halt::Fault(Fault::StepLimit)
            } else {
                match step(s1, inst) {
                    Ok(s2) => outcome(s2, (fuel - 1) as nat),
                    Err(Stop::Fault(f)) => Halt::Fault(f),
                    Err(Stop::Crash) => Halt::Crash,
                }
            }
        },
    }
}

/// The largest number of instructions that one run executes.
pub open spec fn step_budget() -> nat {
    u64::MAX as nat
}

/// The state in which a run of `program` starts.
pub open spec fn initial_state(program: Frame) -> MState {
    MState {
        storage: Seq::empty(),
        values: Seq::empty(),
        envs: seq![Map::empty()],
        acts: seq![(program, 0usize)],
    }
}

/// A value as a caller sees it: a closure without its store index.
pub enum Observed {
    Int(i64),
    Bool(bool),
    Closure(Name, Frame),
}

pub open spec fn observe(v: SValue) -> Observed {
    match v {
        SValue::Int(i) => Observed::Int(i),
        SValue::Bool(b) => Observed::Bool(b),
        SValue::Clo(a, f, _) => Observed::Closure(a, f),
    }
}

/// How a run ends, as a caller sees it.
pub enum Outcome {
    Value(Observed),
    Fault(Fault),
    Crash,
}

pub open spec fn observe_halt(h: Halt) -> Outcome {
    match h {
        Halt::Value(v) => Outcome::Value(observe(v)),
        Halt::Fault(f) => Outcome::Fault(f),
        Halt::Crash => Outcome::Crash,
    }
}

/// How a run of `program` ends, as a caller sees it.
pub open spec fn run(s: MState) -> Outcome {
    observe_halt(outcome(s, step_budget()))
}

// ---------------------------------------------------------------------------
// Well-formed states: every closure points into the store.

pub open spec fn value_below(v: SValue, n: nat) -> bool {
    match v {
        SValue::Clo(_, _, i) => i < n,
        _ => true,
    }
}

pub open spec fn env_below(e: SEnv, n: nat) -> bool {
    forall|k: Name| #[trigger] e.contains_key(k) ==> value_below(e[k], n)
}

pub open spec fn state_ok(s: MState) -> bool {
    let n = s.storage.len();
    &&& forall|i: int| 0 <= i < s.values.len() ==> value_below(#[trigger] s.values[i], n)
    &&& forall|i: int| 0 <= i < s.envs.len() ==> env_below(#[trigger] s.envs[i], n)
    &&& forall|i: int| 0 <= i < s.storage.len() ==> env_below(#[trigger] s.storage[i], n)
}

pub proof fn lemma_env_insert_below(e: SEnv, k: Name, v: SValue, n: nat, m: nat)
    requires
        env_below(e, n),
        value_below(v, m),
        n <= m,
    ensures
        env_below(env_insert(e, k, v), m),
{
    let r = env_insert(e, k, v);
    assert forall|j: Name| #[trigger] r.contains_key(j) implies value_below(r[j], m) by {
        if j != k {
            assert(value_below(e[j], n));
        }
    }
}

pub proof fn lemma_env_below_mono(e: SEnv, n: nat, m: nat)
    requires
        env_below(e, n),
        n <= m,
    ensures
        env_below(e, m),
{
    assert forall|j: Name| #[trigger] e.contains_key(j) implies value_below(e[j], m) by {
        assert(value_below(e[j], n));
    }
}

/// Every step keeps closures pointing into the store.
pub proof fn lemma_step_ok(s: MState, inst: Instruction)
    requires
        state_ok(s),
    ensures
        step(s, inst) matches Ok(s2) ==> state_ok(s2),
{
    let n = s.storage.len();
    match inst {
        Instruction::Var(name) => {
            if s.envs.len() > 0 {
                assert(env_below(s.envs[s.envs.len() - 1], n));
            }
        },
        Instruction::Closure { name, arg, frame } => {
            if s.envs.len() > 0 {
                let v = SValue::Clo(arg, frame, s.storage.len());
                assert(env_below(s.envs[s.envs.len() - 1], n));
                lemma_env_insert_below(s.envs.last(), name, v, n, n + 1);
                let s2 = step(s, inst).unwrap();
                assert forall|i: int| 0 <= i < s2.envs.len() implies env_below(#[trigger] s2.envs[i], n + 1) by {
                    lemma_env_below_mono(s.envs[i], n, n + 1);
                }
                assert forall|i: int| 0 <= i < s2.storage.len() implies env_below(#[trigger] s2.storage[i], n + 1) by {
                    if i < n {
                        lemma_env_below_mono(s.storage[i], n, n + 1);
                    }
                }
                assert forall|i: int| 0 <= i < s2.values.len() implies value_below(#[trigger] s2.values[i], n + 1) by {
                    if i < s.values.len() {
                        assert(value_below(s.values[i], n));
                    }
                }
            }
        },
        Instruction::Call => {
            if let Ok((argv, s1)) = pop_value(s) {
                assert(value_below(s.values[s.values.len() - 1], n));
                if let Ok((SValue::Clo(arg, frame, idx), s2)) = pop_value(s1) {
                    if idx < s2.storage.len() {
                        assert(env_below(s.storage[idx as int], n));
                        lemma_env_insert_below(s.storage[idx as int], arg, argv, n, n);
                    }
                }
            }
        },
        _ => {},
    }
}

/// Moving past an instruction keeps closures pointing into the store.
pub proof fn lemma_fetch_ok(s: MState)
    requires
        state_ok(s),
    ensures
        fetch(s) matches Some((_, s1)) ==> state_ok(s1) && s1.storage == s.storage,
{
}

} // verus!
