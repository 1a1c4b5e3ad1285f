use vstd::prelude::*;

use crate::stack_after_collapse;
use crate::stack_after_push;
use crate::top_value;

verus! {

/// A table of identifier values that follows cascading scopes, in the shape
/// used during semantic resolution: `collapse` consumes the table and returns
/// a fresh one, so that references into the collapsed scope cannot outlive it.
pub struct Scope<T> {
    table: crate::Scope<T>,
}

impl<T> Scope<T> {
    /// How many scopes are currently open.
    pub closed spec fn depth(self) -> usize {
        self.table.depth()
    }

    /// The stack of shadowed values recorded for `key`, outermost first.
    pub closed spec fn stack_of(self, key: Seq<char>) -> Seq<(usize, T)> {
        self.table.stack_of(key)
    }

    /// The value `get` reports for `key`: the innermost binding still alive.
    pub open spec fn lookup(self, key: Seq<char>) -> Option<T> {
        top_value(self.stack_of(key))
    }

    pub closed spec fn wf(self) -> bool {
        self.table.wf()
    }

    /// Constructs an empty table at depth zero.
    pub fn new() -> (s: Self)
        ensures
            s.wf(),
            s.depth() == 0,
            forall|k: Seq<char>| s.stack_of(k) == Seq::<(usize, T)>::empty(),
            forall|k: Seq<char>| s.lookup(k) is None,
    {
        Scope { table: crate::Scope::new() }
    }

    /// Binds `identifier` to `value` in the innermost scope, shadowing any
    /// outer binding until that scope collapses; a value already set for
    /// `identifier` in the innermost scope is overwritten.
    pub fn push(&mut self, identifier: &str, value: T)
        requires
            old(self).wf(),
        ensures
            final(self).wf(),
            final(self).depth() == old(self).depth(),
            final(self).stack_of(identifier@) == stack_after_push(
                old(self).stack_of(identifier@),
                old(self).depth(),
                value,
            ),
            final(self).lookup(identifier@) == Some(value),
            forall|k: Seq<char>|
                k != identifier@ ==> final(self).stack_of(k) == old(self).stack_of(k),
    {
        self.table.push(identifier, value);
    }

    /// Reports the innermost value bound to `key`, if any.
    pub fn get<'a>(&'a self, key: &str) -> (r: Option<&'a T>)
        ensures
            match r {
                Some(v) => self.lookup(key@) == Some(*v),
                None => self.lookup(key@) is None,
            },
    {
        self.table.get(key)
    }

    /// Opens a new innermost scope.
    pub fn expand(&mut self)
        requires
            old(self).wf(),
            old(self).depth() < usize::MAX,
        ensures
            final(self).wf(),
            final(self).depth() == old(self).depth() + 1,
            forall|k: Seq<char>| final(self).stack_of(k) == old(self).stack_of(k),
            forall|k: Seq<char>| final(self).lookup(k) == old(self).lookup(k),
    {
        self.table.expand();
    }

    /// Closes the innermost scope: every value pushed while it was open is
    /// dropped, and each identifier returns to its outer value, if any. The
    /// table is consumed and a new one returned, so borrows of the old values
    /// end here.
    pub fn collapse(self) -> (s: Self)
        requires
            self.wf(),
            self.depth() > 0,
        ensures
            s.wf(),
            s.depth() == self.depth() - 1,
            forall|k: Seq<char>|
                s.stack_of(k) == stack_after_collapse(
                    self.stack_of(k),
                    (self.depth() - 1) as usize,
                ),
    {
        let mut table = self.table;
        table.collapse();
        Scope { table }
    }
}

} // verus!
