//! Identifiers.
use vstd::prelude::*;

verus! {

/// The name of a variable or a function, as written in the source.
#[derive(Debug)]
pub struct Ident(String);

impl View for Ident {
    type V = Seq<char>;

    open spec fn view(&self) -> Seq<char> {
        self.spec_text()
    }
}

impl Ident {
    /// The characters of the identifier.
    pub closed spec fn spec_text(&self) -> Seq<char> {
        self.0@
    }

    /// The identifier spelled `name`.
    pub fn from_str(name: &str) -> (i: Ident)
        ensures
            i@ == name@,
    {
        Ident(String::from_str(name))
    }

    /// The spelling of the identifier.
    pub fn as_str(&self) -> (s: &str)
        ensures
            s@ == self@,
    {
        self.0.as_str()
    }

    /// The spelling of the identifier.
    pub fn as_string(&self) -> (s: &String)
        ensures
            s@ == self@,
    {
        &self.0
    }

    /// Whether two identifiers are spelled alike.
    pub fn same(&self, other: &Ident) -> (b: bool)
        ensures
            b == (self@ == other@),
    {
        self.0 == other.0
    }

    /// A copy of the identifier.
    pub fn copy(&self) -> (i: Ident)
        ensures
            i@ == self@,
    {
        Ident(self.0.clone())
    }
}

} // verus!
