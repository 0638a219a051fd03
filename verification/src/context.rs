//! Contexts: names bound to items, where a later binding hides an earlier
//! one of the same name.
use vstd::prelude::*;
use crate::syntax::ident::Ident;

verus! {

/// The item bound to `name` by the last binding of that name.
pub open spec fn ctx_lookup<T>(bindings: Seq<(Seq<char>, T)>, name: Seq<char>) -> Option<T>
    decreases bindings.len(),
{
    if bindings.len() == 0 {
        None
    } else if bindings.last().0 == name {
        Some(bindings.last().1)
    } else {
        ctx_lookup(bindings.drop_last(), name)
    }
}

/// A stack of bindings.
pub trait Context: Sized {
    type Item;

    /// The bindings, the most recent last.
    spec fn bindings(&self) -> Seq<(Seq<char>, Self::Item)>;

    /// The context without bindings.
    fn empty() -> (c: Self)
        ensures
            c.bindings() == Seq::<(Seq<char>, Self::Item)>::empty();

    /// The item of the most recent binding of `name`.
    fn lookup(&self, name: &Ident) -> (r: Option<&Self::Item>)
        ensures
            match r {
                Some(v) => ctx_lookup(self.bindings(), name@) == Some(*v),
                None => ctx_lookup(self.bindings(), name@) is None,
            };

    /// Binds `name` to `value`.
    fn push(&mut self, name: &Ident, value: Self::Item)
        ensures
            final(self).bindings() == old(self).bindings().push((name@, value));

    /// Removes the most recent binding.
    fn pop(&mut self)
        requires
            old(self).bindings().len() > 0,
        ensures
            final(self).bindings() == old(self).bindings().drop_last();
}

/// A context kept as a stack of names and items.
pub struct StackContext<T> {
    entries: Vec<(Ident, T)>,
}

impl<T> StackContext<T> {
    pub closed spec fn spec_bindings(&self) -> Seq<(Seq<char>, T)> {
        self.entries@.map_values(|p: (Ident, T)| (p.0@, p.1))
    }

    /// The context without bindings.
    pub fn new() -> (c: Self)
        ensures
            c.spec_bindings() == Seq::<(Seq<char>, T)>::empty(),
    {
        let c = StackContext { entries: Vec::new() };
        assert(c.spec_bindings() =~= Seq::<(Seq<char>, T)>::empty());
        c
    }
}

impl<T> Context for StackContext<T> {
    type Item = T;

    open spec fn bindings(&self) -> Seq<(Seq<char>, T)> {
        self.spec_bindings()
    }

    fn empty() -> (c: Self) {
        StackContext::new()
    }

    fn lookup(&self, name: &Ident) -> (r: Option<&T>) {
        let mut i: usize = self.entries.len();
        assert(self.bindings().take(i as int) =~= self.bindings());
        while i > 0
            invariant
                i <= self.entries@.len(),
                ctx_lookup(self.bindings(), name@) == ctx_lookup(self.bindings().take(i as int), name@),
            decreases i,
        {
            let ghost pre = self.bindings().take(i as int);
            assert(pre.drop_last() =~= self.bindings().take(i - 1));
            if self.entries[i - 1].0.same(name) {
                return Some(&self.entries[i - 1].1);
            }
            i -= 1;
        }
        assert(self.bindings().take(0) =~= Seq::<(Seq<char>, T)>::empty());
        None
    }

    fn push(&mut self, name: &Ident, value: T) {
        self.entries.push((name.copy(), value));
        assert(self.bindings() =~= old(self).bindings().push((name@, value)));
    }

    fn pop(&mut self) {
        self.entries.pop();
        assert(self.bindings() =~= old(self).bindings().drop_last());
    }
}

/// The item bound to `name` after binding `name` to `value`: `value`.
pub proof fn lemma_lookup_push<T>(bindings: Seq<(Seq<char>, T)>, name: Seq<char>, value: T)
    ensures
        ctx_lookup(bindings.push((name, value)), name) == Some(value),
{
    assert(bindings.push((name, value)).last() == (name, value));
}

/// Binding another name leaves what `name` is bound to unchanged.
pub proof fn lemma_lookup_push_other<T>(bindings: Seq<(Seq<char>, T)>, name: Seq<char>, other: Seq<char>, value: T)
    requires
        other != name,
    ensures
        ctx_lookup(bindings.push((other, value)), name) == ctx_lookup(bindings, name),
{
    assert(bindings.push((other, value)).drop_last() =~= bindings);
}

/// Removing the most recent binding undoes adding it.
pub proof fn lemma_pop_push<T>(bindings: Seq<(Seq<char>, T)>, name: Seq<char>, value: T)
    ensures
        bindings.push((name, value)).drop_last() == bindings,
{
    assert(bindings.push((name, value)).drop_last() =~= bindings);
}

} // verus!
