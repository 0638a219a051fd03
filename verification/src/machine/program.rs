//! The code of the machine.
use vstd::prelude::*;

verus! {

/// A variable name after renaming.
pub type Name = usize;

/// Arithmetic on the two topmost integers of the value stack.
#[derive(PartialEq, Eq, Clone, Copy, Debug)]
pub enum ArithInstruction {
    Add,
    Sub,
    Mul,
    Div,
}

/// Comparison of the two topmost integers of the value stack.
#[derive(PartialEq, Eq, Clone, Copy, Debug)]
pub enum CmpInstruction {
    Lt,
    Eq,
    Gt,
}

/// A sequence of instructions.
pub type Frame = Vec<Instruction>;

/// One instruction of the machine.
#[derive(PartialEq, Eq, Debug)]
pub enum Instruction {
    ArithInstruction(ArithInstruction),
    CmpInstruction(CmpInstruction),
    PushInt(i64),
    PushBool(bool),
    /// Pops a boolean and continues with the first frame if it is true,
    /// with the second one otherwise.
    Branch(Frame, Frame),
    /// Pushes the value of a variable of the current environment.
    Var(Name),
    /// Pushes a closure that captures the current environment, extended with
    /// the closure itself under `name`.
    Closure { name: Name, arg: Name, frame: Frame },
    /// Pops an argument and a closure and enters the closure's code.
    Call,
    /// Leaves the current environment.
    PopEnv,
}

} // verus!
