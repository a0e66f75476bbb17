//! The type-equation graph.
//!
//! Nodes stand for "the type of this construct": a binding's type variable,
//! a concrete type, or an anonymous intermediate result.  Each equation ties
//! one node to another and carries a justification tag used only when a
//! diagnostic is rendered, never by solving.  The adjacency itself lives in
//! a `petgraph` directed graph behind trusted wrappers; the node and source
//! metadata live beside it, keyed by node and edge index.

use vstd::prelude::*;
use petgraph::visit::EdgeRef;
use crate::scoped_id::ScopedId;
use crate::types::{ConcreteType, InferenceSource, Primitive};

verus! {

#[verifier::external_type_specification]
#[verifier::external_body]
#[verifier::reject_recursive_types(N)]
#[verifier::reject_recursive_types(E)]
#[verifier::reject_recursive_types(Ty)]
#[verifier::reject_recursive_types(Ix)]
pub struct ExGraph<N, E, Ty, Ix>(petgraph::graph::Graph<N, E, Ty, Ix>);

#[verifier::external_type_specification]
#[verifier::external_body]
pub struct ExDirected(petgraph::Directed);

/// The node weights of the underlying graph, in insertion order.
pub uninterp spec fn graph_nodes(
    g: &petgraph::graph::Graph<u64, u64, petgraph::Directed, usize>,
) -> Seq<u64>;

/// The edges of the underlying graph, in insertion order: source index,
/// target index, weight.
pub uninterp spec fn graph_edges(
    g: &petgraph::graph::Graph<u64, u64, petgraph::Directed, usize>,
) -> Seq<(usize, usize, u64)>;

/// Relies on petgraph's `Graph::with_capacity`: the graph starts with no
/// nodes and no edges.
#[verifier::external_body]
fn pg_new() -> (g: petgraph::graph::Graph<u64, u64, petgraph::Directed, usize>)
    ensures
        graph_nodes(&g) == Seq::<u64>::empty(),
        graph_edges(&g) == Seq::<(usize, usize, u64)>::empty(),
{
    petgraph::graph::Graph::with_capacity(0, 0)
}

/// Relies on petgraph's `Graph::add_node`: the node is appended and its
/// index, the previous node count, is returned.  With `usize` indices the
/// capacity limit does not apply.
#[verifier::external_body]
fn pg_add_node(
    g: &mut petgraph::graph::Graph<u64, u64, petgraph::Directed, usize>,
    w: u64,
) -> (r: usize)
    ensures
        graph_nodes(final(g)) == graph_nodes(old(g)).push(w),
        graph_edges(final(g)) == graph_edges(old(g)),
        r == graph_nodes(old(g)).len(),
{
    g.add_node(w).index()
}

/// Relies on petgraph's `Graph::add_edge`: the edge is appended.  Both
/// endpoints must exist, else `add_edge` panics.
#[verifier::external_body]
fn pg_add_edge(
    g: &mut petgraph::graph::Graph<u64, u64, petgraph::Directed, usize>,
    a: usize,
    b: usize,
    w: u64,
)
    requires
        a < graph_nodes(old(g)).len(),
        b < graph_nodes(old(g)).len(),
    ensures
        graph_nodes(final(g)) == graph_nodes(old(g)),
        graph_edges(final(g)) == graph_edges(old(g)).push((a, b, w)),
{
    let _ = g.add_edge(petgraph::graph::NodeIndex::new(a), petgraph::graph::NodeIndex::new(b), w);
}

/// Relies on petgraph's `Graph::edge_references`: edges are yielded in
/// index order, which without removals is insertion order.
#[verifier::external_body]
fn pg_edges(g: &petgraph::graph::Graph<u64, u64, petgraph::Directed, usize>) -> (r: Vec<
    (usize, usize, u64),
>)
    ensures
        r@ == graph_edges(g),
{
    g.edge_references().map(|e| (e.source().index(), e.target().index(), *e.weight())).collect()
}

/// One graph node: a binding's type variable, a known concrete type, or an
/// anonymous variable for an intermediate result.
#[derive(Debug)]
pub enum TypeNode {
    Variable(ScopedId),
    Concrete(ConcreteType),
    Fresh,
}

/// One pending call-site constraint: the callee's variable node must be a
/// function type accepting the argument nodes and producing the result
/// node.  Solved structurally once the callee's signature is concrete.
#[derive(Debug)]
pub struct CallConstraint {
    pub callee: usize,
    pub args: Vec<(String, usize)>,
    pub ret: usize,
}

/// The inference graph: `petgraph` adjacency plus per-node and per-edge
/// metadata and the call-site constraints.
pub struct TypeGraph {
    inner: petgraph::graph::Graph<u64, u64, petgraph::Directed, usize>,
    meta: Vec<TypeNode>,
    srcs: Vec<InferenceSource>,
    calls: Vec<CallConstraint>,
}

/// Node indices of the pre-seeded primitive type nodes.
pub open spec fn bool_node() -> int {
    0
}

pub open spec fn num_node() -> int {
    1
}

pub open spec fn unit_node() -> int {
    2
}

impl TypeGraph {
    pub closed spec fn nodes(&self) -> Seq<TypeNode> {
        self.meta@
    }

    pub closed spec fn sources(&self) -> Seq<InferenceSource> {
        self.srcs@
    }

    pub closed spec fn edges(&self) -> Seq<(usize, usize, u64)> {
        graph_edges(&self.inner)
    }

    pub closed spec fn calls(&self) -> Seq<CallConstraint> {
        self.calls@
    }

    /// The structural invariant: metadata matches the adjacency, and every
    /// recorded index points at a real node.
    pub closed spec fn wf(&self) -> bool {
        &&& graph_nodes(&self.inner).len() == self.nodes().len()
        &&& self.edges().len() == self.sources().len()
        &&& (forall|i: int|
            0 <= i < self.edges().len() ==> (#[trigger] self.edges()[i]).0 < self.nodes().len()
                && self.edges()[i].1 < self.nodes().len())
        &&& (forall|i: int|
            0 <= i < self.calls().len() ==> (#[trigger] self.calls()[i]).callee
                < self.nodes().len() && self.calls()[i].ret < self.nodes().len() && (forall|j: int|
                0 <= j < self.calls()[i].args@.len() ==> (#[trigger] self.calls()[i].args@[
                    j
                ]).1 < self.nodes().len()))
    }

    /// The primitive type nodes every checking run starts from.
    pub open spec fn primitives_seeded(&self) -> bool {
        &&& self.nodes().len() >= 3
        &&& self.nodes()[bool_node()] == TypeNode::Concrete(ConcreteType::Prim(Primitive::Bool))
        &&& self.nodes()[num_node()] == TypeNode::Concrete(ConcreteType::Prim(Primitive::Num))
        &&& self.nodes()[unit_node()] == TypeNode::Concrete(ConcreteType::Prim(Primitive::Unit))
    }

    /// An equation `a = b` with the given justification is in the graph.
    pub open spec fn has_eq(&self, a: int, b: int, s: InferenceSource) -> bool {
        exists|i: int|
            0 <= i < self.edges().len() && (#[trigger] self.edges()[i]).0 == a && self.edges()[
                i
            ].1 == b && self.sources()[i] == s
    }

    /// What well-formedness guarantees, for callers outside this module.
    pub proof fn lemma_wf_facts(&self)
        requires
            self.wf(),
        ensures
            self.edges().len() == self.sources().len(),
            forall|i: int|
                0 <= i < self.edges().len() ==> (#[trigger] self.edges()[i]).0
                    < self.nodes().len() && self.edges()[i].1 < self.nodes().len(),
            forall|i: int|
                0 <= i < self.calls().len() ==> (#[trigger] self.calls()[i]).callee
                    < self.nodes().len() && self.calls()[i].ret < self.nodes().len() && (forall|
                j: int|
                    0 <= j < self.calls()[i].args@.len() ==> (#[trigger] self.calls()[i].args@[
                        j
                    ]).1 < self.nodes().len()),
    {
    }

    /// A graph holding only the three primitive nodes.
    pub fn with_primitives() -> (r: TypeGraph)
        ensures
            r.wf(),
            r.primitives_seeded(),
            r.nodes().len() == 3,
            r.edges() == Seq::<(usize, usize, u64)>::empty(),
            r.calls() == Seq::<CallConstraint>::empty(),
    {
        let mut g = TypeGraph { inner: pg_new(), meta: Vec::new(), srcs: Vec::new(), calls: Vec::new() };
        let _ = g.add_node(TypeNode::Concrete(ConcreteType::Prim(Primitive::Bool)));
        let _ = g.add_node(TypeNode::Concrete(ConcreteType::Prim(Primitive::Num)));
        let _ = g.add_node(TypeNode::Concrete(ConcreteType::Prim(Primitive::Unit)));
        g
    }

    pub fn add_node(&mut self, n: TypeNode) -> (r: usize)
        requires
            old(self).wf(),
        ensures
            final(self).wf(),
            final(self).nodes() == old(self).nodes().push(n),
            final(self).edges() == old(self).edges(),
            final(self).sources() == old(self).sources(),
            final(self).calls() == old(self).calls(),
            r == old(self).nodes().len(),
            old(self).primitives_seeded() ==> final(self).primitives_seeded(),
    {
        let w = self.meta.len() as u64;
        let r = pg_add_node(&mut self.inner, w);
        self.meta.push(n);
        proof {
            assert forall|i: int|
                0 <= i < self.edges().len() implies (#[trigger] self.edges()[i]).0
                < self.nodes().len() && self.edges()[i].1 < self.nodes().len() by {
                assert(self.edges()[i] == old(self).edges()[i]);
            }
            assert forall|i: int|
                0 <= i < self.calls().len() implies (#[trigger] self.calls()[i]).callee
                < self.nodes().len() && self.calls()[i].ret < self.nodes().len() && (forall|j: int|
                0 <= j < self.calls()[i].args@.len() ==> (#[trigger] self.calls()[i].args@[
                    j
                ]).1 < self.nodes().len()) by {
                assert(self.calls()[i] == old(self).calls()[i]);
            }
        }
        r
    }

    /// A type variable node for a resolved binding.
    pub fn add_variable(&mut self, id: ScopedId) -> (r: usize)
        requires
            old(self).wf(),
        ensures
            final(self).wf(),
            final(self).nodes() == old(self).nodes().push(TypeNode::Variable(id)),
            final(self).edges() == old(self).edges(),
            final(self).sources() == old(self).sources(),
            final(self).calls() == old(self).calls(),
            r == old(self).nodes().len(),
            old(self).primitives_seeded() ==> final(self).primitives_seeded(),
    {
        self.add_node(TypeNode::Variable(id))
    }

    /// A node carrying a known concrete type.
    pub fn add_concrete(&mut self, t: ConcreteType) -> (r: usize)
        requires
            old(self).wf(),
        ensures
            final(self).wf(),
            final(self).nodes() == old(self).nodes().push(TypeNode::Concrete(t)),
            final(self).edges() == old(self).edges(),
            final(self).sources() == old(self).sources(),
            final(self).calls() == old(self).calls(),
            r == old(self).nodes().len(),
            old(self).primitives_seeded() ==> final(self).primitives_seeded(),
    {
        self.add_node(TypeNode::Concrete(t))
    }

    /// An anonymous variable for an intermediate result.
    pub fn fresh_node(&mut self) -> (r: usize)
        requires
            old(self).wf(),
        ensures
            final(self).wf(),
            final(self).nodes() == old(self).nodes().push(TypeNode::Fresh),
            final(self).edges() == old(self).edges(),
            final(self).sources() == old(self).sources(),
            final(self).calls() == old(self).calls(),
            r == old(self).nodes().len(),
            old(self).primitives_seeded() ==> final(self).primitives_seeded(),
    {
        self.add_node(TypeNode::Fresh)
    }

    /// Record the equation `a = b`, justified by `s`.
    pub fn add_inference(&mut self, a: usize, b: usize, s: InferenceSource)
        requires
            old(self).wf(),
            a < old(self).nodes().len(),
            b < old(self).nodes().len(),
        ensures
            final(self).wf(),
            final(self).nodes() == old(self).nodes(),
            final(self).edges() == old(self).edges().push(
                (a, b, old(self).sources().len() as u64),
            ),
            final(self).sources() == old(self).sources().push(s),
            final(self).calls() == old(self).calls(),
            final(self).has_eq(a as int, b as int, s),
            old(self).primitives_seeded() ==> final(self).primitives_seeded(),
    {
        let w = self.srcs.len() as u64;
        pg_add_edge(&mut self.inner, a, b, w);
        self.srcs.push(s);
        proof {
            let n = final(self).edges().len() - 1;
            assert(final(self).edges()[n].0 == a && final(self).edges()[n].1 == b && final(self).sources()[n] == s);
            assert forall|i: int|
                0 <= i < self.edges().len() implies (#[trigger] self.edges()[i]).0
                < self.nodes().len() && self.edges()[i].1 < self.nodes().len() by {
                if i < n {
                    assert(self.edges()[i] == old(self).edges()[i]);
                }
            }
            assert forall|i: int|
                0 <= i < self.calls().len() implies (#[trigger] self.calls()[i]).callee
                < self.nodes().len() && self.calls()[i].ret < self.nodes().len() && (forall|j: int|
                0 <= j < self.calls()[i].args@.len() ==> (#[trigger] self.calls()[i].args@[
                    j
                ]).1 < self.nodes().len()) by {
                assert(self.calls()[i] == old(self).calls()[i]);
            }
        }
    }

    /// Record a call-site constraint.
    pub fn add_call(&mut self, c: CallConstraint)
        requires
            old(self).wf(),
            c.callee < old(self).nodes().len(),
            c.ret < old(self).nodes().len(),
            forall|j: int| 0 <= j < c.args@.len() ==> (#[trigger] c.args@[j]).1 < old(self).nodes().len(),
        ensures
            final(self).wf(),
            final(self).nodes() == old(self).nodes(),
            final(self).edges() == old(self).edges(),
            final(self).sources() == old(self).sources(),
            final(self).calls() == old(self).calls().push(c),
            old(self).primitives_seeded() ==> final(self).primitives_seeded(),
    {
        self.calls.push(c);
        proof {
            assert forall|i: int|
                0 <= i < self.calls().len() implies (#[trigger] self.calls()[i]).callee
                < self.nodes().len() && self.calls()[i].ret < self.nodes().len() && (forall|j: int|
                0 <= j < self.calls()[i].args@.len() ==> (#[trigger] self.calls()[i].args@[
                    j
                ]).1 < self.nodes().len()) by {
                if i < self.calls().len() - 1 {
                    assert(self.calls()[i] == old(self).calls()[i]);
                } else {
                    assert(self.calls()[i] == c);
                }
            }
        }
    }

    pub fn node_count(&self) -> (r: usize)
        requires
            self.wf(),
        ensures
            r == self.nodes().len(),
    {
        self.meta.len()
    }

    /// The equation list, for the solver.
    pub fn edge_list(&self) -> (r: Vec<(usize, usize, u64)>)
        ensures
            r@ == self.edges(),
    {
        pg_edges(&self.inner)
    }

    pub fn source_list(&self) -> (r: &Vec<InferenceSource>)
        ensures
            r@ == self.sources(),
    {
        &self.srcs
    }

    pub fn node_list(&self) -> (r: &Vec<TypeNode>)
        ensures
            r@ == self.nodes(),
    {
        &self.meta
    }

    pub fn call_list(&self) -> (r: &Vec<CallConstraint>)
        ensures
            r@ == self.calls(),
    {
        &self.calls
    }
}

} // verus!
