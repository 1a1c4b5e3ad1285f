use vstd::prelude::*;

pub mod compiler;
pub mod preprocessor;

verus! {

/// True when no two entries carry the same identifier.
pub open spec fn unique_keys<T>(entries: Seq<(String, Vec<(usize, T)>)>) -> bool {
    forall|i: int, j: int|
        0 <= i < j < entries.len() ==> entries[i].0@ != entries[j].0@
}

/// The value stack registered for `key`, or the empty stack when `key` is absent.
pub open spec fn find_stack<T>(entries: Seq<(String, Vec<(usize, T)>)>, key: Seq<char>) -> Seq<
    (usize, T),
>
    decreases entries.len(),
{
    if entries.len() == 0 {
        Seq::empty()
    } else if entries[0].0@ == key {
        entries[0].1@
    } else {
        find_stack(entries.drop_first(), key)
    }
}

/// A value stack is well formed when its scope indexes stay at or below `bound`
/// and strictly increase toward the top (the end of the sequence).
pub open spec fn stack_wf<T>(stack: Seq<(usize, T)>, bound: usize) -> bool {
    &&& forall|k: int| 0 <= k < stack.len() ==> (#[trigger] stack[k]).0 <= bound
    &&& forall|k: int| 0 <= k < stack.len() - 1 ==> (#[trigger] stack[k]).0 < stack[k + 1].0
}

/// The value visible at the top of a stack, if any.
pub open spec fn top_value<T>(stack: Seq<(usize, T)>) -> Option<T> {
    if stack.len() == 0 {
        None
    } else {
        Some(stack.last().1)
    }
}

/// What pushing `v` at depth `d` does to a value stack: replace the top when it
/// was set at depth `d` already, otherwise grow the stack by one.
pub open spec fn stack_after_push<T>(stack: Seq<(usize, T)>, d: usize, v: T) -> Seq<(usize, T)> {
    if stack.len() > 0 && stack.last().0 == d {
        stack.drop_last().push((d, v))
    } else {
        stack.push((d, v))
    }
}

/// What leaving a scope does to a value stack once the depth shrank to `d`:
/// values set in a deeper scope than `d` are dropped.
pub open spec fn stack_after_collapse<T>(stack: Seq<(usize, T)>, d: usize) -> Seq<(usize, T)> {
    if stack.len() > 0 && stack.last().0 > d {
        stack.drop_last()
    } else {
        stack
    }
}

/// When `key` sits first at position `i`, the lookup lands on that entry.
proof fn lemma_find_stack_at<T>(entries: Seq<(String, Vec<(usize, T)>)>, i: int, key: Seq<char>)
    requires
        0 <= i < entries.len(),
        entries[i].0@ == key,
        forall|j: int| 0 <= j < i ==> entries[j].0@ != key,
    ensures
        find_stack(entries, key) == entries[i].1@,
    decreases i,
{
    if i > 0 {
        lemma_find_stack_at(entries.drop_first(), i - 1, key);
    }
}

/// When no entry carries `key`, the lookup yields the empty stack.
proof fn lemma_find_stack_absent<T>(entries: Seq<(String, Vec<(usize, T)>)>, key: Seq<char>)
    requires
        forall|j: int| 0 <= j < entries.len() ==> entries[j].0@ != key,
    ensures
        find_stack(entries, key) == Seq::<(usize, T)>::empty(),
    decreases entries.len(),
{
    if entries.len() > 0 {
        lemma_find_stack_absent(entries.drop_first(), key);
    }
}

/// Replacing the stack of the entry that alone carries a key changes only
/// that key's lookup.
proof fn lemma_find_stack_update<T>(
    entries: Seq<(String, Vec<(usize, T)>)>,
    i: int,
    e: (String, Vec<(usize, T)>),
    key: Seq<char>,
)
    requires
        0 <= i < entries.len(),
        e.0@ == entries[i].0@,
        forall|j: int| 0 <= j < entries.len() && j != i ==> entries[j].0@ != entries[i].0@,
    ensures
        find_stack(entries.update(i, e), key) == if key == entries[i].0@ {
            e.1@
        } else {
            find_stack(entries, key)
        },
    decreases entries.len(),
{
    let upd = entries.update(i, e);
    if i == 0 {
        if key != entries[0].0@ {
            assert(upd.drop_first() =~= entries.drop_first());
        }
    } else {
        assert(upd[0] == entries[0]);
        assert(upd.drop_first() =~= entries.drop_first().update(i - 1, e));
        lemma_find_stack_update(entries.drop_first(), i - 1, e, key);
    }
}

/// Appending an entry under a fresh key changes only that key's lookup.
proof fn lemma_find_stack_push<T>(
    entries: Seq<(String, Vec<(usize, T)>)>,
    e: (String, Vec<(usize, T)>),
    key: Seq<char>,
)
    requires
        forall|j: int| 0 <= j < entries.len() ==> entries[j].0@ != e.0@,
    ensures
        find_stack(entries.push(e), key) == if key == e.0@ {
            e.1@
        } else {
            find_stack(entries, key)
        },
    decreases entries.len(),
{
    let ext = entries.push(e);
    if entries.len() == 0 {
        assert(ext[0] == e);
        if key != e.0@ {
            assert(ext.drop_first() =~= Seq::<(String, Vec<(usize, T)>)>::empty());
            assert(find_stack(ext.drop_first(), key) == Seq::<(usize, T)>::empty());
            assert(find_stack(entries, key) == Seq::<(usize, T)>::empty());
        }
    } else {
        assert(ext[0] == entries[0]);
        assert(ext.drop_first() =~= entries.drop_first().push(e));
        lemma_find_stack_push(entries.drop_first(), e, key);
        assert(find_stack(ext.drop_first(), key) == find_stack(entries.drop_first().push(e), key));
        if key != entries[0].0@ {
            assert(find_stack(entries, key) == find_stack(entries.drop_first(), key));
        }
    }
}

/// When two tables agree on keys and each stack of the second is the first's
/// stack after a collapse to depth `d`, every lookup is too.
proof fn lemma_find_stack_pointwise<T>(
    e1: Seq<(String, Vec<(usize, T)>)>,
    e2: Seq<(String, Vec<(usize, T)>)>,
    key: Seq<char>,
    d: usize,
)
    requires
        e1.len() == e2.len(),
        forall|j: int|
            0 <= j < e1.len() ==> (#[trigger] e2[j]).0@ == e1[j].0@ && e2[j].1@
                == stack_after_collapse(e1[j].1@, d),
    ensures
        find_stack(e2, key) == stack_after_collapse(find_stack(e1, key), d),
    decreases e1.len(),
{
    if e1.len() > 0 {
        assert(e2[0].0@ == e1[0].0@ && e2[0].1@ == stack_after_collapse(e1[0].1@, d));
        if e1[0].0@ != key {
            assert(forall|j: int|
                0 <= j < e1.drop_first().len() ==> (#[trigger] e2.drop_first()[j]).0@
                    == e1.drop_first()[j].0@ && e2.drop_first()[j].1@ == stack_after_collapse(
                    e1.drop_first()[j].1@,
                    d,
                ));
            lemma_find_stack_pointwise(e1.drop_first(), e2.drop_first(), key, d);
        }
    }
}

/// A table of identifier values that follows cascading scopes: a value pushed
/// while a scope is open shadows the outer value until that scope collapses.
pub struct Scope<T> {
    entries: Vec<(String, Vec<(usize, T)>)>,
    current_scope: usize,
}

impl<T> Scope<T> {
    /// How many scopes are currently open.
    pub closed spec fn depth(self) -> usize {
        self.current_scope
    }

    /// The stack of shadowed values recorded for `key`, outermost first.
    pub closed spec fn stack_of(self, key: Seq<char>) -> Seq<(usize, T)> {
        find_stack(self.entries@, key)
    }

    /// The value `get` reports for `key`: the innermost binding still alive.
    pub open spec fn lookup(self, key: Seq<char>) -> Option<T> {
        top_value(self.stack_of(key))
    }

    pub closed spec fn wf(self) -> bool {
        &&& unique_keys(self.entries@)
        &&& forall|i: int|
            0 <= i < self.entries@.len() ==> stack_wf(
                (#[trigger] self.entries@[i]).1@,
                self.current_scope,
            )
    }

    /// Constructs an empty table at depth zero.
    pub fn new() -> (s: Self)
        ensures
            s.wf(),
            s.depth() == 0,
            forall|k: Seq<char>| s.stack_of(k) == Seq::<(usize, T)>::empty(),
            forall|k: Seq<char>| s.lookup(k) is None,
    {
        let s = Scope { entries: Vec::new(), current_scope: 0 };
        proof {
            assert(forall|k: Seq<char>| s.stack_of(k) == Seq::<(usize, T)>::empty());
        }
        s
    }

    /// The position of the entry for `key`, when one exists.
    fn find_index(&self, key: &String) -> (r: Option<usize>)
        ensures
            match r {
                Some(i) => i < self.entries@.len() && self.entries@[i as int].0@ == key@
                    && forall|j: int| 0 <= j < i ==> self.entries@[j].0@ != key@,
                None => forall|j: int| 0 <= j < self.entries@.len() ==> self.entries@[j].0@ != key@,
            },
    {
        let mut i: usize = 0;
        while i < self.entries.len()
            invariant
                i <= self.entries@.len(),
                forall|j: int| 0 <= j < i ==> self.entries@[j].0@ != key@,
            decreases self.entries@.len() - i,
        {
            if self.entries[i].0.eq(key) {
                return Some(i);
            }
            i += 1;
        }
        None
    }

    /// Binds `identifier` to `value` in the innermost scope, shadowing any
    /// outer binding until that scope collapses; a value already set for
    /// `identifier` in the innermost scope is overwritten.
    pub fn push(&mut self, identifier: &str, value: T)
        requires
            old(self).wf(),
        ensures
            final(self).wf(),
            final(self).depth() == old(self).depth(),
            final(self).stack_of(identifier@) == stack_after_push(
                old(self).stack_of(identifier@),
                old(self).depth(),
                value,
            ),
            final(self).lookup(identifier@) == Some(value),
            forall|k: Seq<char>|
                k != identifier@ ==> final(self).stack_of(k) == old(self).stack_of(k),
    {
        let key: String = identifier.to_owned();
        let d = self.current_scope;
        match self.find_index(&key) {
            Some(i) => {
                let ghost entries0 = self.entries@;
                let mut e = self.entries.remove(i);
                let replace = e.1.len() > 0 && e.1[e.1.len() - 1].0 == d;
                if replace {
                    e.1.pop();
                }
                e.1.push((d, value));
                self.entries.insert(i, e);
                proof {
                    assert(self.entries@ =~= entries0.update(i as int, e));
                    lemma_find_stack_at(entries0, i as int, key@);
                    assert(e.1@ == stack_after_push(entries0[i as int].1@, d, value));
                    lemma_find_stack_update(entries0, i as int, e, key@);
                    assert forall|k: Seq<char>| k != key@ implies find_stack(self.entries@, k)
                        == find_stack(entries0, k) by {
                        lemma_find_stack_update(entries0, i as int, e, k);
                    }
                    assert(stack_wf(e.1@, d));
                }
            },
            None => {
                let ghost entries0 = self.entries@;
                let mut st: Vec<(usize, T)> = Vec::new();
                st.push((d, value));
                let e = (key, st);
                self.entries.push(e);
                proof {
                    lemma_find_stack_absent(entries0, key@);
                    lemma_find_stack_push(entries0, e, key@);
                    assert forall|k: Seq<char>| k != key@ implies find_stack(self.entries@, k)
                        == find_stack(entries0, k) by {
                        lemma_find_stack_push(entries0, e, k);
                    }
                    assert(e.1@ == stack_after_push(old(self).stack_of(key@), d, value));
                }
            },
        }
    }

    /// Reports the innermost value bound to `key`, if any.
    pub fn get<'a>(&'a self, key: &str) -> (r: Option<&'a T>)
        ensures
            match r {
                Some(v) => self.lookup(key@) == Some(*v),
                None => self.lookup(key@) is None,
            },
    {
        let owned: String = key.to_owned();
        match self.find_index(&owned) {
            Some(i) => {
                proof {
                    lemma_find_stack_at(self.entries@, i as int, key@);
                }
                let st = &self.entries[i].1;
                if st.len() == 0 {
                    None
                } else {
                    Some(&st[st.len() - 1].1)
                }
            },
            None => {
                proof {
                    lemma_find_stack_absent(self.entries@, key@);
                }
                None
            },
        }
    }

    /// Opens a new innermost scope.
    pub fn expand(&mut self)
        requires
            old(self).wf(),
            old(self).depth() < usize::MAX,
        ensures
            final(self).wf(),
            final(self).depth() == old(self).depth() + 1,
            forall|k: Seq<char>| final(self).stack_of(k) == old(self).stack_of(k),
            forall|k: Seq<char>| final(self).lookup(k) == old(self).lookup(k),
    {
        self.current_scope = self.current_scope + 1;
    }

    /// Closes the innermost scope: every value pushed while it was open is
    /// dropped, and each identifier returns to its outer value, if any.
    pub fn collapse(&mut self)
        requires
            old(self).wf(),
            old(self).depth() > 0,
        ensures
            final(self).wf(),
            final(self).depth() == old(self).depth() - 1,
            forall|k: Seq<char>|
                final(self).stack_of(k) == stack_after_collapse(
                    old(self).stack_of(k),
                    (old(self).depth() - 1) as usize,
                ),
    {
        self.current_scope = self.current_scope - 1;
        let d = self.current_scope;
        let ghost entries0 = self.entries@;
        let mut i: usize = 0;
        while i < self.entries.len()
            invariant
                i <= self.entries@.len(),
                self.entries@.len() == entries0.len(),
                self.current_scope == d,
                forall|j: int|
                    0 <= j < i ==> (#[trigger] self.entries@[j]).0@ == entries0[j].0@
                        && self.entries@[j].1@ == stack_after_collapse(entries0[j].1@, d),
                forall|j: int| i <= j < entries0.len() ==> self.entries@[j] == entries0[j],
            decreases self.entries@.len() - i,
        {
            let ghost before = self.entries@;
            let mut e = self.entries.remove(i);
            let drop_top = e.1.len() > 0 && e.1[e.1.len() - 1].0 > d;
            if drop_top {
                e.1.pop();
            }
            self.entries.insert(i, e);
            proof {
                assert(self.entries@ =~= before.update(i as int, e));
                assert(e.1@ == stack_after_collapse(entries0[i as int].1@, d));
            }
            i += 1;
        }
        proof {
            assert forall|k: Seq<char>| true implies find_stack(
                self.entries@,
                k,
            ) == stack_after_collapse(find_stack(entries0, k), d) by {
                lemma_find_stack_pointwise(entries0, self.entries@, k, d);
            }
            assert forall|j: int|
                0 <= j < self.entries@.len() implies stack_wf(
                (#[trigger] self.entries@[j]).1@,
                d,
            ) by {
                assert(stack_wf(entries0[j].1@, (d + 1) as usize));
                let s0 = entries0[j].1@;
                let s1 = self.entries@[j].1@;
                if s0.len() > 0 && s0.last().0 > d {
                    assert(s1 =~= s0.drop_last());
                    assert forall|k: int| 0 <= k < s1.len() implies (#[trigger] s1[k]).0 <= d by {
                        assert(s0[k].0 < s0[s0.len() - 1].0);
                    }
                }
            }
        }
    }
}

} // verus!
