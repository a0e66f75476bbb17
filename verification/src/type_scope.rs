//! The type-side symbol table.
//!
//! Maps each resolved binding ([`ScopedId`]) to its type-variable node in
//! the [`TypeGraph`], allocating on first use, and names the built-in
//! primitive types, which are seeded at construction and never removed.

use vstd::prelude::*;
use crate::graph::{bool_node, num_node, unit_node, TypeGraph, TypeNode};
use crate::scoped_id::ScopedId;
use crate::types::Primitive;

verus! {

/// The nearest entry for a binding, newest first.
pub open spec fn var_find(s: Seq<(ScopedId, usize)>, id: Seq<u32>) -> Option<usize>
    decreases s.len(),
{
    if s.len() == 0 {
        None
    } else if s.last().0@ == id {
        Some(s.last().1)
    } else {
        var_find(s.drop_last(), id)
    }
}

/// The primitive a type name denotes, if any.
pub open spec fn name_to_prim(n: Seq<char>) -> Option<Primitive> {
    if n == "bool"@ {
        Some(Primitive::Bool)
    } else if n == "num"@ {
        Some(Primitive::Num)
    } else if n == "()"@ {
        Some(Primitive::Unit)
    } else {
        None
    }
}

/// The pre-seeded graph node of a primitive.
pub open spec fn prim_node(p: Primitive) -> int {
    match p {
        Primitive::Bool => bool_node(),
        Primitive::Num => num_node(),
        Primitive::Unit => unit_node(),
    }
}

/// The name a type annotation must spell to denote a primitive.
pub fn lookup_prim(name: &String) -> (r: Option<Primitive>)
    ensures
        r == name_to_prim(name@),
{
    if *name == "bool".to_owned() {
        Some(Primitive::Bool)
    } else if *name == "num".to_owned() {
        Some(Primitive::Num)
    } else if *name == "()".to_owned() {
        Some(Primitive::Unit)
    } else {
        None
    }
}

/// Binding-to-type-node table.
pub struct TypeScopeBuilder {
    vars: Vec<(ScopedId, usize)>,
}

impl TypeScopeBuilder {
    pub closed spec fn vars_view(&self) -> Seq<(ScopedId, usize)> {
        self.vars@
    }

    /// Every recorded node index points into a graph of `n` nodes.
    pub open spec fn bounded(&self, n: int) -> bool {
        forall|i: int| 0 <= i < self.vars_view().len() ==> (#[trigger] self.vars_view()[i]).1 < n
    }

    /// Every table entry points at the type-variable node of its own
    /// binding.
    pub open spec fn coherent(&self, nodes: Seq<TypeNode>) -> bool {
        forall|i: int|
            0 <= i < self.vars_view().len() ==> (#[trigger] self.vars_view()[i]).1 < nodes.len()
                && (match nodes[self.vars_view()[i].1 as int] {
                TypeNode::Variable(s) => s@ == self.vars_view()[i].0@,
                _ => false,
            })
    }

    /// Appending graph nodes never breaks coherence.
    pub proof fn lemma_coherent_grow(&self, pre: Seq<TypeNode>, post: Seq<TypeNode>)
        requires
            self.coherent(pre),
            pre.len() <= post.len(),
            forall|i: int| 0 <= i < pre.len() ==> post[i] == #[trigger] pre[i],
        ensures
            self.coherent(post),
    {
        assert forall|i: int|
            0 <= i < self.vars_view().len() implies (#[trigger] self.vars_view()[i]).1
            < post.len() && (match post[self.vars_view()[i].1 as int] {
            TypeNode::Variable(s) => s@ == self.vars_view()[i].0@,
            _ => false,
        }) by {
            assert(post[self.vars_view()[i].1 as int] == pre[self.vars_view()[i].1 as int]);
        }
    }

    pub fn with_primitives() -> (r: TypeScopeBuilder)
        ensures
            r.vars_view() == Seq::<(ScopedId, usize)>::empty(),
            r.bounded(0),
    {
        TypeScopeBuilder { vars: Vec::new() }
    }

    /// Named lookup of a primitive's pre-seeded node: expected to succeed
    /// for the built-in names.
    pub fn get_named_type(&self, name: &String) -> (r: Option<usize>)
        ensures
            r == (match name_to_prim(name@) {
                Some(p) => Some(prim_node(p) as usize),
                None => None,
            }),
    {
        match lookup_prim(name) {
            Some(Primitive::Bool) => Some(0),
            Some(Primitive::Num) => Some(1),
            Some(Primitive::Unit) => Some(2),
            None => None,
        }
    }

    /// The type-variable node for a binding, allocated in the graph on
    /// first sight.
    pub fn get_id(&mut self, g: &mut TypeGraph, id: &ScopedId) -> (r: usize)
        requires
            old(g).wf(),
            old(self).bounded(old(g).nodes().len() as int),
            old(self).coherent(old(g).nodes()),
        ensures
            final(g).wf(),
            final(self).bounded(final(g).nodes().len() as int),
            final(self).coherent(final(g).nodes()),
            r < final(g).nodes().len(),
            var_find(final(self).vars_view(), id@) == Some(r),
            (match final(g).nodes()[r as int] {
                TypeNode::Variable(s) => s@ == id@,
                _ => false,
            }),
            old(g).nodes().is_prefix_of(final(g).nodes()),
            final(g).edges() == old(g).edges(),
            final(g).sources() == old(g).sources(),
            final(g).calls() == old(g).calls(),
            old(g).primitives_seeded() ==> final(g).primitives_seeded(),
            (match var_find(old(self).vars_view(), id@) {
                Some(v) => r == v && final(g).nodes() == old(g).nodes() && *final(self) == *old(self),
                None => final(g).nodes().len() == old(g).nodes().len() + 1 && (
                match final(g).nodes().last() {
                    TypeNode::Variable(s) => s@ == id@,
                    _ => false,
                }) && final(self).vars_view().len() == old(self).vars_view().len() + 1 && final(self).vars_view().drop_last() == old(self).vars_view() && final(self).vars_view().last().0@ == id@ && final(self).vars_view().last().1 == r,
            }),
    {
        let mut j = self.vars.len();
        proof {
            assert(self.vars@.subrange(0, self.vars@.len() as int) =~= self.vars@);
        }
        while j > 0
            invariant
                j <= self.vars@.len(),
                var_find(self.vars@, id@) == var_find(self.vars@.subrange(0, j as int), id@),
                *g == *old(g),
                *self == *old(self),
                g.wf(),
                self.bounded(g.nodes().len() as int),
                self.coherent(g.nodes()),
            decreases j,
        {
            j = j - 1;
            let sub = Ghost(self.vars@.subrange(0, j + 1));
            if self.vars[j].0.same_as(id) {
                proof {
                    assert(sub@.last() == self.vars@[j as int]);
                    assert((match g.nodes()[self.vars@[j as int].1 as int] {
                        TypeNode::Variable(s) => s@ == id@,
                        _ => false,
                    }));
                    assert(old(g).nodes().is_prefix_of(final(g).nodes())) by {
                        assert(old(g).nodes() =~= final(g).nodes().subrange(
                            0,
                            old(g).nodes().len() as int,
                        ));
                    }
                }
                return self.vars[j].1;
            }
            proof {
                assert(sub@.last() == self.vars@[j as int]);
                assert(sub@.drop_last() =~= self.vars@.subrange(0, j as int));
            }
        }
        proof {
            assert(self.vars@.subrange(0, 0) =~= Seq::<(ScopedId, usize)>::empty());
        }
        let n = g.add_variable(id.snapshot());
        self.vars.push((id.snapshot(), n));
        proof {
            assert(self.vars@.last().0@ == id@);
            assert(self.vars@.drop_last() =~= old(self).vars@);
            assert(old(g).nodes().is_prefix_of(final(g).nodes())) by {
                assert(old(g).nodes() =~= final(g).nodes().subrange(
                    0,
                    old(g).nodes().len() as int,
                ));
            }
            assert forall|i: int|
                0 <= i < self.vars_view().len() implies (#[trigger] self.vars_view()[i]).1
                < final(g).nodes().len() as int by {
                if i < self.vars_view().len() - 1 {
                    assert(self.vars_view()[i] == old(self).vars_view()[i]);
                }
            }
            assert forall|i: int|
                0 <= i < self.vars_view().len() implies (#[trigger] self.vars_view()[i]).1
                < final(g).nodes().len() && (match final(g).nodes()[self.vars_view()[i].1 as int] {
                TypeNode::Variable(s) => s@ == self.vars_view()[i].0@,
                _ => false,
            }) by {
                if i < self.vars_view().len() - 1 {
                    assert(self.vars_view()[i] == old(self).vars_view()[i]);
                    assert(final(g).nodes()[self.vars_view()[i].1 as int] == old(g).nodes()[
                        self.vars_view()[i].1 as int
                    ]);
                } else {
                    assert(self.vars_view()[i].1 == n);
                    assert(final(g).nodes()[n as int] == final(g).nodes().last());
                }
            }
        }
        n
    }
}


/// Pushing a binding for one key leaves every other key's lookup as it was.
pub proof fn lemma_var_find_push_other(s: Seq<(ScopedId, usize)>, entry: (ScopedId, usize), q: Seq<u32>)
    requires
        entry.0@ != q,
    ensures
        var_find(s.push(entry), q) == var_find(s, q),
{
    assert(s.push(entry).last() == entry);
    assert(s.push(entry).drop_last() =~= s);
}

} // verus!
