//! The types of the language.
use vstd::prelude::*;

verus! {

/// A type: integers, booleans, or functions from one type to another.
#[derive(Debug, PartialEq, Eq)]
pub enum Type {
    Int,
    Bool,
    Arrow(Box<Type>, Box<Type>),
}

impl Type {
    /// The type of functions from `from` to `to`.
    pub fn arrow(from: Type, to: Type) -> (t: Type)
        ensures
            t == Type::Arrow(Box::new(from), Box::new(to)),
    {
        Type::Arrow(Box::new(from), Box::new(to))
    }

    /// The type of functions from `self` to `other`.
    pub fn maps_to(self, other: Type) -> (t: Type)
        ensures
            t == Type::Arrow(Box::new(self), Box::new(other)),
    {
        Type::arrow(self, other)
    }

    /// A copy of the type.
    pub fn copy(&self) -> (t: Type)
        ensures
            t == *self,
        decreases self,
    {
        match self {
            Type::Int => Type::Int,
            Type::Bool => Type::Bool,
            Type::Arrow(l, r) => Type::Arrow(Box::new(l.copy()), Box::new(r.copy())),
        }
    }

    /// Whether two types are the same.
    pub fn same(&self, other: &Type) -> (b: bool)
        ensures
            b == (*self == *other),
        decreases self,
    {
        match (self, other) {
            (Type::Int, Type::Int) => true,
            (Type::Bool, Type::Bool) => true,
            (Type::Arrow(l1, r1), Type::Arrow(l2, r2)) => l1.same(l2) && r1.same(r2),
            _ => false,
        }
    }
}

} // verus!
