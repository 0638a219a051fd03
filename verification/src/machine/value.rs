//! Run-time values and run-time errors.
use vstd::prelude::*;
use crate::machine::program::{Frame, Name};
use crate::machine::semantics::{Fault, SValue, fault_message};
use crate::syntax::show::{show_bool, show_int, write_bool, write_int};

verus! {

/// A closure: its argument name, its code, and the index of its captured
/// environment in the machine's store.
#[derive(PartialEq, Eq, Clone, Copy, Debug)]
pub struct Closure<'p> {
    pub arg: Name,
    pub frame: &'p Frame,
    pub env: usize,
}

/// A run-time value.
#[derive(PartialEq, Eq, Clone, Copy, Debug)]
pub enum Value<'p> {
    Int(i64),
    Bool(bool),
    Closure(Closure<'p>),
}

impl<'p> View for Value<'p> {
    type V = SValue;

    open spec fn view(&self) -> SValue {
        match *self {
            Value::Int(i) => SValue::Int(i),
            Value::Bool(b) => SValue::Bool(b),
            Value::Closure(c) => SValue::Clo(c.arg, *c.frame, c.env as nat),
        }
    }
}

/// An error that stops a run of the machine.
#[derive(Debug)]
pub struct RuntimeError {
    pub message: String,
}

impl Fault {
    /// The message that reports this fault.
    pub fn message(&self) -> (s: String)
        ensures
            s@ == fault_message(*self),
    {
        match self {
            Fault::EmptyStack => String::from_str("Fatal: empty stack :("),
            Fault::RuntimeTypeError => String::from_str("Fatal: runtime type error :("),
            Fault::UndefinedVariable => String::from_str("Fatal: undefined variable :("),
            Fault::NoEnvironment => String::from_str("Fatal: no environment :("),
            Fault::ValuesLeft => String::from_str("Fatal: more then one value on stack left :("),
            Fault::DivisionByZero => String::from_str("Division by zero"),
            Fault::StepLimit => String::from_str("Fatal: step limit reached :("),
        }
    }
}

/// The run-time error that reports a fault.
pub fn runtime_error(f: Fault) -> (e: RuntimeError)
    ensures
        e.message@ == fault_message(f),
{
    RuntimeError { message: f.message() }
}

impl<'p> Value<'p> {
    /// The integer, or a run-time type error.
    pub fn into_int(self) -> (r: Result<i64, RuntimeError>)
        ensures
            match self {
                Value::Int(i) => r == Ok::<i64, RuntimeError>(i),
                _ => r matches Err(e) && e.message@ == fault_message(Fault::RuntimeTypeError),
            },
    {
        match self {
            Value::Int(i) => Ok(i),
            _ => Err(runtime_error(Fault::RuntimeTypeError)),
        }
    }

    /// The boolean, or a run-time type error.
    pub fn into_bool(self) -> (r: Result<bool, RuntimeError>)
        ensures
            match self {
                Value::Bool(b) => r == Ok::<bool, RuntimeError>(b),
                _ => r matches Err(e) && e.message@ == fault_message(Fault::RuntimeTypeError),
            },
    {
        match self {
            Value::Bool(b) => Ok(b),
            _ => Err(runtime_error(Fault::RuntimeTypeError)),
        }
    }

    /// The closure, or a run-time type error.
    pub fn into_closure(self) -> (r: Result<Closure<'p>, RuntimeError>)
        ensures
            match self {
                Value::Closure(c) => r == Ok::<Closure<'p>, RuntimeError>(c),
                _ => r matches Err(e) && e.message@ == fault_message(Fault::RuntimeTypeError),
            },
    {
        match self {
            Value::Closure(c) => Ok(c),
            _ => Err(runtime_error(Fault::RuntimeTypeError)),
        }
    }
}

impl From<i64> for Value<'static> {
    fn from(i: i64) -> (v: Self) {
        Value::Int(i)
    }
}

impl From<bool> for Value<'static> {
    fn from(b: bool) -> (v: Self) {
        Value::Bool(b)
    }
}

impl vstd::std_specs::convert::FromSpecImpl<i64> for Value<'static> {
    open spec fn obeys_from_spec() -> bool {
        true
    }

    open spec fn from_spec(i: i64) -> Self {
        Value::Int(i)
    }
}

impl vstd::std_specs::convert::FromSpecImpl<bool> for Value<'static> {
    open spec fn obeys_from_spec() -> bool {
        true
    }

    open spec fn from_spec(b: bool) -> Self {
        Value::Bool(b)
    }
}

/// The printed form of a value: the number, `true` or `false`, or
/// `<closure>`.
pub open spec fn show_value(v: SValue) -> Seq<char> {
    match v {
        SValue::Int(i) => show_int(i as int),
        SValue::Bool(b) => show_bool(b),
        SValue::Clo(..) => "<closure>"@,
    }
}

impl<'p> Value<'p> {
    /// The printed form of the value.
    pub fn to_display_string(&self) -> (s: String)
        ensures
            s@ == show_value(self@),
    {
        let mut s = String::new();
        match self {
            Value::Int(i) => write_int(*i, &mut s),
            Value::Bool(b) => write_bool(*b, &mut s),
            Value::Closure(_) => s.append("<closure>"),
        }
        assert(s@ =~= show_value(self@));
        s
    }
}

} // verus!
