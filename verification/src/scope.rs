//! The name-scope stack.
//!
//! A stack of per-scope tables from declaration name to [`ScopedId`].
//! Pushing enters a lexical scope; popping discards every binding the scope
//! introduced, restoring the enclosing scope's visibility.  Lookup walks
//! from the innermost table outwards and returns the nearest binding, which
//! is what makes shadowing work.

use vstd::prelude::*;
use crate::scoped_id::ScopedId;

verus! {

/// The nearest binding for `name` within one scope's table: entries are
/// searched newest-first.
pub open spec fn assoc_find(s: Seq<(String, ScopedId)>, name: Seq<char>) -> Option<Seq<u32>>
    decreases s.len(),
{
    if s.len() == 0 {
        None
    } else if s.last().0@ == name {
        Some(s.last().1@)
    } else {
        assoc_find(s.drop_last(), name)
    }
}

/// The nearest binding for `name` across the whole stack: innermost scope
/// first.
pub open spec fn chain_find(scopes: Seq<Seq<(String, ScopedId)>>, name: Seq<char>) -> Option<
    Seq<u32>,
>
    decreases scopes.len(),
{
    if scopes.len() == 0 {
        None
    } else {
        match assoc_find(scopes.last(), name) {
            Some(v) => Some(v),
            None => chain_find(scopes.drop_last(), name),
        }
    }
}

/// Newest-first search of one association list.
pub fn assoc_get(entries: &Vec<(String, ScopedId)>, name: &String) -> (r: Option<ScopedId>)
    ensures
        match r {
            Some(id) => assoc_find(entries@, name@) == Some(id@),
            None => assoc_find(entries@, name@) is None,
        },
{
    let mut j = entries.len();
    proof {
        assert(entries@.subrange(0, entries@.len() as int) =~= entries@);
    }
    while j > 0
        invariant
            j <= entries@.len(),
            assoc_find(entries@, name@) == assoc_find(entries@.subrange(0, j as int), name@),
        decreases j,
    {
        j = j - 1;
        let sub = Ghost(entries@.subrange(0, j + 1));
        if entries[j].0 == *name {
            proof {
                assert(sub@.last() == entries@[j as int]);
            }
            return Some(entries[j].1.snapshot());
        }
        proof {
            assert(sub@.last() == entries@[j as int]);
            assert(sub@.drop_last() =~= entries@.subrange(0, j as int));
        }
    }
    proof {
        assert(entries@.subrange(0, 0) =~= Seq::<(String, ScopedId)>::empty());
    }
    None
}

/// The stack of per-scope symbol tables used by name resolution.
#[derive(Debug)]
pub struct ScopeBuilder {
    scopes: Vec<Vec<(String, ScopedId)>>,
}

impl View for ScopeBuilder {
    type V = Seq<Seq<(String, ScopedId)>>;

    closed spec fn view(&self) -> Seq<Seq<(String, ScopedId)>> {
        self.scopes@.map_values(|v: Vec<(String, ScopedId)>| v@)
    }
}

impl ScopeBuilder {
    /// An empty stack: no scope is open.
    pub fn new() -> (r: ScopeBuilder)
        ensures
            r@ == Seq::<Seq<(String, ScopedId)>>::empty(),
    {
        let r = ScopeBuilder { scopes: Vec::new() };
        proof {
            assert(r@ =~= Seq::<Seq<(String, ScopedId)>>::empty());
        }
        r
    }

    pub fn depth(&self) -> (r: usize)
        ensures
            r == self@.len(),
    {
        self.scopes.len()
    }

    /// Enter a lexical scope.
    pub fn new_scope(&mut self)
        ensures
            final(self)@ == old(self)@.push(Seq::<(String, ScopedId)>::empty()),
    {
        self.scopes.push(Vec::new());
        proof {
            assert(final(self)@ =~= old(self)@.push(Seq::<(String, ScopedId)>::empty()));
        }
    }

    /// Leave the innermost scope, discarding its bindings.
    pub fn pop(&mut self)
        requires
            old(self)@.len() >= 1,
        ensures
            final(self)@ == old(self)@.drop_last(),
    {
        let _ = self.scopes.pop();
        proof {
            assert(final(self)@ =~= old(self)@.drop_last());
        }
    }

    /// Bind `name` in the innermost scope.  The caller is responsible for
    /// rejecting duplicates first: this appends unconditionally.
    pub fn define_local(&mut self, name: String, id: ScopedId)
        requires
            old(self)@.len() >= 1,
        ensures
            final(self)@ == old(self)@.update(
                old(self)@.len() - 1,
                old(self)@.last().push((name, id)),
            ),
    {
        let ghost name_spec = name;
        let ghost id_spec = id;
        let n = self.scopes.len();
        let innermost = &mut self.scopes[n - 1];
        innermost.push((name, id));
        proof {
            assert(final(self)@ =~= old(self)@.update(
                old(self)@.len() - 1,
                old(self)@.last().push((name_spec, id_spec)),
            ));
        }
    }

    /// Innermost-to-outermost lookup: the nearest binding, or `None` when
    /// the name is not declared anywhere.
    pub fn get(&self, name: &String) -> (r: Option<ScopedId>)
        ensures
            match r {
                Some(id) => chain_find(self@, name@) == Some(id@),
                None => chain_find(self@, name@) is None,
            },
    {
        let mut j = self.scopes.len();
        proof {
            assert(self@.subrange(0, self@.len() as int) =~= self@);
        }
        while j > 0
            invariant
                j <= self@.len(),
                self@.len() == self.scopes@.len(),
                forall|i: int| 0 <= i < self@.len() ==> self@[i] == #[trigger] self.scopes@[i]@,
                chain_find(self@, name@) == chain_find(self@.subrange(0, j as int), name@),
            decreases j,
        {
            j = j - 1;
            let sub = Ghost(self@.subrange(0, j + 1));
            let found = assoc_get(&self.scopes[j], name);
            proof {
                assert(sub@.last() == self@[j as int]);
                assert(sub@.drop_last() =~= self@.subrange(0, j as int));
            }
            if let Some(id) = found {
                return Some(id);
            }
        }
        proof {
            assert(self@.subrange(0, 0) =~= Seq::<Seq<(String, ScopedId)>>::empty());
        }
        None
    }

    /// Lookup in the innermost scope only: the duplicate-declaration check.
    pub fn get_local(&self, name: &String) -> (r: Option<ScopedId>)
        requires
            self@.len() >= 1,
        ensures
            match r {
                Some(id) => assoc_find(self@.last(), name@) == Some(id@),
                None => assoc_find(self@.last(), name@) is None,
            },
    {
        let n = self.scopes.len();
        let r = assoc_get(&self.scopes[n - 1], name);
        proof {
            assert(self@[n - 1] == self@.last());
        }
        r
    }
}

/// A name is absent from a table exactly when no entry carries it.
pub proof fn lemma_assoc_find_none(s: Seq<(String, ScopedId)>, name: Seq<char>)
    ensures
        (assoc_find(s, name) is None) <==> (forall|i: int|
            0 <= i < s.len() ==> (#[trigger] s[i]).0@ != name),
    decreases s.len(),
{
    if s.len() > 0 {
        lemma_assoc_find_none(s.drop_last(), name);
        assert(s.last() == s[s.len() - 1]);
        assert forall|i: int| 0 <= i < s.len() - 1 implies s.drop_last()[i] == #[trigger] s[i] by {}
    }
}

/// Shadowing: after entering a scope and binding `name` there, lookup
/// resolves `name` to the new id; and once that scope is dropped again, the
/// stack is exactly the outer stack, so lookup resolves `name` to whatever
/// the enclosing scopes bound, never the discarded inner id.
pub proof fn lemma_shadowing(
    outer: Seq<Seq<(String, ScopedId)>>,
    inner: Seq<(String, ScopedId)>,
    name: String,
    id: ScopedId,
)
    ensures
        chain_find(outer.push(inner.push((name, id))), name@) == Some(id@),
        outer.push(inner.push((name, id))).drop_last() == outer,
{
    let stack = outer.push(inner.push((name, id)));
    assert(stack.last() == inner.push((name, id)));
    assert(inner.push((name, id)).last() == (name, id));
    assert(stack.drop_last() =~= outer);
}

} // verus!
