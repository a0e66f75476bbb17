//! The solver: concretify the equation graph.
//!
//! Every node registered in the graph receives exactly one outcome: its
//! concrete type, a type-mismatch diagnostic naming both offending types
//! and the offending equation's justification, or an untyped/ambiguous
//! diagnostic — never nothing, never both.  Solving propagates known
//! concrete types along `node = node` equations, resolves call-site
//! constraints structurally once a callee's signature is known, and then
//! checks every equation: the result never leaves two incompatible
//! resolved types joined by an equation.  The justification tags never
//! steer solving; they only label the diagnostics.

use vstd::prelude::*;
use crate::graph::{CallConstraint, TypeGraph, TypeNode};
use crate::types::{ct_eq, ConcreteType, FnSignature, InferenceSource, Primitive};

verus! {

/// The solver's verdict on one node.
#[derive(Debug)]
pub enum NodeOutcome {
    Resolved(ConcreteType),
    NoType,
    Mismatch { expected: ConcreteType, found: ConcreteType, source: InferenceSource },
}

/// An equation never joins two incompatible resolved types.
pub open spec fn edge_consistent(r: Seq<NodeOutcome>, a: int, b: int) -> bool {
    match (r[a], r[b]) {
        (NodeOutcome::Resolved(ta), NodeOutcome::Resolved(tb)) => ct_eq(&ta, &tb),
        _ => true,
    }
}

/// An equation never joins a resolved node to one left untyped: whatever
/// has a reachable concrete constraint is resolved or reported, never
/// silently dropped.
pub open spec fn edge_settled(r: Seq<NodeOutcome>, a: int, b: int) -> bool {
    &&& !(r[a] is Resolved && r[b] is NoType)
    &&& !(r[a] is NoType && r[b] is Resolved)
}

/// How many nodes still have no type.
pub open spec fn notype_count(r: Seq<NodeOutcome>) -> nat
    decreases r.len(),
{
    if r.len() == 0 {
        0
    } else {
        notype_count(r.drop_last()) + (if r.last() is NoType {
            1nat
        } else {
            0nat
        })
    }
}

/// Resolving an untyped slot strictly shrinks the untyped count.
pub proof fn lemma_notype_count_update(pre: Seq<NodeOutcome>, i: int, v: NodeOutcome)
    requires
        0 <= i < pre.len(),
        pre[i] is NoType,
        !(v is NoType),
    ensures
        notype_count(pre.update(i, v)) < notype_count(pre),
    decreases pre.len(),
{
    let post = pre.update(i, v);
    if i == pre.len() - 1 {
        assert(post.drop_last() =~= pre.drop_last());
        assert(post.last() == v);
    } else {
        assert(post.drop_last() =~= pre.drop_last().update(i, v));
        assert(post.last() == pre.last());
        lemma_notype_count_update(pre.drop_last(), i, v);
    }
}

/// A concrete node resolves to its own type, unless it took part in a
/// reported mismatch.
pub open spec fn concrete_ok(nodes: Seq<TypeNode>, r: Seq<NodeOutcome>, j: int) -> bool {
    match nodes[j] {
        TypeNode::Concrete(tc) => match r[j] {
            NodeOutcome::Resolved(t) => ct_eq(&t, &tc),
            NodeOutcome::Mismatch { .. } => true,
            NodeOutcome::NoType => false,
        },
        _ => true,
    }
}

/// Copy a resolved type across one equation, into endpoints that have no
/// type yet.  Reports whether anything changed; without a change the
/// equation is settled.
fn propagate_edge(slots: &mut Vec<NodeOutcome>, a: usize, b: usize) -> (changed: bool)
    requires
        a < old(slots)@.len(),
        b < old(slots)@.len(),
    ensures
        final(slots)@.len() == old(slots)@.len(),
        forall|j: int|
            0 <= j < old(slots)@.len() && old(slots)@[j] !is NoType ==> final(slots)@[j] == #[trigger] old(
                slots,
            )@[j],
        !changed ==> final(slots)@ == old(slots)@ && edge_settled(old(slots)@, a as int, b as int),
        changed ==> notype_count(final(slots)@) < notype_count(old(slots)@),
        forall|j: int|
            0 <= j < old(slots)@.len() && final(slots)@[j] is Mismatch ==> #[trigger] old(
                slots,
            )@[j] is Mismatch,
{
    let ta = match &slots[a] {
        NodeOutcome::Resolved(t) => Some(t.duplicate()),
        _ => None,
    };
    let tb = match &slots[b] {
        NodeOutcome::Resolved(t) => Some(t.duplicate()),
        _ => None,
    };
    if matches!(&slots[b], NodeOutcome::NoType) {
        if let Some(t) = ta {
            let ghost pre = slots@;
            slots.set(b, NodeOutcome::Resolved(t));
            proof {
                lemma_notype_count_update(pre, b as int, final(slots)@[b as int]);
            }
            return true;
        }
    } else if matches!(&slots[a], NodeOutcome::NoType) {
        if let Some(t) = tb {
            let ghost pre = slots@;
            slots.set(a, NodeOutcome::Resolved(t));
            proof {
                lemma_notype_count_update(pre, a as int, final(slots)@[a as int]);
            }
            return true;
        }
    }
    proof {
        assert(final(slots)@ =~= old(slots)@);
    }
    false
}

/// One full pass over the equations.  When it reports no change, every
/// equation is settled.
fn propagate_sweep(slots: &mut Vec<NodeOutcome>, edges: &Vec<(usize, usize, u64)>) -> (changed:
    bool)
    requires
        forall|i: int|
            0 <= i < edges@.len() ==> (#[trigger] edges@[i]).0 < old(slots)@.len() && edges@[i].1
                < old(slots)@.len(),
    ensures
        final(slots)@.len() == old(slots)@.len(),
        forall|j: int|
            0 <= j < old(slots)@.len() && old(slots)@[j] !is NoType ==> final(slots)@[j] == #[trigger] old(
                slots,
            )@[j],
        changed ==> notype_count(final(slots)@) < notype_count(old(slots)@),
        !changed ==> final(slots)@ == old(slots)@ && (forall|i: int|
            0 <= i < edges@.len() ==> edge_settled(
                final(slots)@,
                (#[trigger] edges@[i]).0 as int,
                edges@[i].1 as int,
            )),
        forall|j: int|
            0 <= j < old(slots)@.len() && final(slots)@[j] is Mismatch ==> #[trigger] old(
                slots,
            )@[j] is Mismatch,
{
    let mut changed = false;
    let mut e: usize = 0;
    while e < edges.len()
        invariant
            forall|i: int|
                0 <= i < edges@.len() ==> (#[trigger] edges@[i]).0 < old(slots)@.len()
                    && edges@[i].1 < old(slots)@.len(),
            slots@.len() == old(slots)@.len(),
            forall|j: int|
                0 <= j < old(slots)@.len() && old(slots)@[j] !is NoType ==> slots@[j] == #[trigger] old(
                    slots,
                )@[j],
            changed ==> notype_count(slots@) < notype_count(old(slots)@),
            !changed ==> slots@ == old(slots)@ && (forall|i: int|
                0 <= i < e ==> edge_settled(
                    slots@,
                    (#[trigger] edges@[i]).0 as int,
                    edges@[i].1 as int,
                )),
            forall|j: int|
                0 <= j < old(slots)@.len() && slots@[j] is Mismatch ==> #[trigger] old(slots)@[
                    j
                ] is Mismatch,
        decreases edges@.len() - e,
    {
        let ghost pre = slots@;
        let (a, b, _w) = edges[e];
        let step = propagate_edge(slots, a, b);
        if step {
            changed = true;
        }
        e = e + 1;
    }
    changed
}

/// Solve one call-site constraint once the callee's signature is resolved:
/// each argument must match the named parameter (a single positional
/// argument matches a one-parameter signature), and the call's result is
/// the signature's return type.
fn apply_call(slots: &mut Vec<NodeOutcome>, c: &CallConstraint)
    requires
        c.ret < old(slots)@.len(),
        c.callee < old(slots)@.len(),
        forall|j: int| 0 <= j < c.args@.len() ==> (#[trigger] c.args@[j]).1 < old(slots)@.len(),
    ensures
        final(slots)@.len() == old(slots)@.len(),
        forall|j: int|
            0 <= j < old(slots)@.len() && old(slots)@[j] !is NoType && final(slots)@[j] !is Mismatch
                ==> final(slots)@[j] == #[trigger] old(slots)@[j],
        forall|j: int|
            0 <= j < old(slots)@.len() && final(slots)@[j] is Mismatch && !((#[trigger] old(
                slots,
            )@[j]) is Mismatch) ==> final(slots)@[j]->Mismatch_source == InferenceSource::CallArgument
                || final(slots)@[j]->Mismatch_source == InferenceSource::CallReturnType,
{
    let sig: FnSignature = match &slots[c.callee] {
        NodeOutcome::Resolved(ConcreteType::Function(sig)) => sig.duplicate(),
        _ => {
            return ;
        },
    };
    let mut i: usize = 0;
    while i < c.args.len()
        invariant
            slots@.len() == old(slots)@.len(),
            c.ret < slots@.len(),
            forall|j: int| 0 <= j < c.args@.len() ==> (#[trigger] c.args@[j]).1 < slots@.len(),
            forall|j: int|
                0 <= j < old(slots)@.len() && old(slots)@[j] !is NoType && slots@[j] !is Mismatch
                    ==> slots@[j] == #[trigger] old(slots)@[j],
            forall|j: int|
                0 <= j < old(slots)@.len() && slots@[j] is Mismatch && !((#[trigger] old(
                    slots,
                )@[j]) is Mismatch) ==> slots@[j]->Mismatch_source
                    == InferenceSource::CallArgument || slots@[j]->Mismatch_source
                    == InferenceSource::CallReturnType,
        decreases c.args@.len() - i,
    {
        let an = c.args[i].1;
        let mut prim: Option<Primitive> = None;
        if sig.params.len() == 1 && c.args.len() == 1 && c.args[i].0 == String::new() {
            prim = Some(sig.params[0].1);
        } else {
            let mut k: usize = 0;
            while k < sig.params.len()
                invariant
                    i < c.args@.len(),
                decreases sig.params@.len() - k,
            {
                if sig.params[k].0 == c.args[i].0 {
                    prim = Some(sig.params[k].1);
                }
                k = k + 1;
            }
        }
        if let Some(p) = prim {
            let want = ConcreteType::Prim(p);
            match &slots[an] {
                NodeOutcome::NoType => {
                    slots.set(an, NodeOutcome::Resolved(want));
                },
                NodeOutcome::Resolved(t) => {
                    if !t.same_as(&want) {
                        let found = t.duplicate();
                        slots.set(
                            an,
                            NodeOutcome::Mismatch {
                                expected: want,
                                found,
                                source: InferenceSource::CallArgument,
                            },
                        );
                    }
                },
                NodeOutcome::Mismatch { .. } => {},
            }
        }
        i = i + 1;
    }
    let want_ret = ConcreteType::Prim(sig.ret);
    match &slots[c.ret] {
        NodeOutcome::NoType => {
            slots.set(c.ret, NodeOutcome::Resolved(want_ret));
        },
        NodeOutcome::Resolved(t) => {
            if !t.same_as(&want_ret) {
                let found = t.duplicate();
                slots.set(
                    c.ret,
                    NodeOutcome::Mismatch {
                        expected: want_ret,
                        found,
                        source: InferenceSource::CallReturnType,
                    },
                );
            }
        },
        NodeOutcome::Mismatch { .. } => {},
    }
}

/// Resolve the graph: every node gets a concrete type or a diagnostic.
pub fn concretify(g: &TypeGraph) -> (r: Vec<NodeOutcome>)
    requires
        g.wf(),
    ensures
        r@.len() == g.nodes().len(),
        forall|i: int|
            0 <= i < g.edges().len() ==> edge_consistent(
                r@,
                (#[trigger] g.edges()[i]).0 as int,
                g.edges()[i].1 as int,
            ),
        forall|j: int| 0 <= j < g.nodes().len() ==> #[trigger] concrete_ok(g.nodes(), r@, j),
        forall|i: int|
            0 <= i < g.edges().len() ==> edge_settled(
                r@,
                (#[trigger] g.edges()[i]).0 as int,
                g.edges()[i].1 as int,
            ),
        g.edges().len() == 0 && g.calls().len() == 0 ==> forall|j: int|
            0 <= j < g.nodes().len() && g.nodes()[j] is Concrete ==> r@[j] is Resolved,
{
    proof {
        g.lemma_wf_facts();
    }
    let nodes = g.node_list();
    let edges = g.edge_list();
    let srcs = g.source_list();
    let calls = g.call_list();
    let n = nodes.len();
    let mut slots: Vec<NodeOutcome> = Vec::new();
    let mut i: usize = 0;
    while i < n
        invariant
            n == g.nodes().len(),
            nodes@ == g.nodes(),
            slots@.len() == i,
            i <= n,
            forall|j: int| 0 <= j < i ==> #[trigger] concrete_ok(g.nodes(), slots@, j),
            forall|j: int| 0 <= j < i ==> !((#[trigger] slots@[j]) is Mismatch),
        decreases n - i,
    {
        let ghost pre = slots@;
        match &nodes[i] {
            TypeNode::Concrete(t) => {
                slots.push(NodeOutcome::Resolved(t.duplicate()));
            },
            _ => {
                slots.push(NodeOutcome::NoType);
            },
        }
        proof {
            assert forall|j: int| 0 <= j < i + 1 implies #[trigger] concrete_ok(
                g.nodes(),
                slots@,
                j,
            ) by {
                if j < i {
                    assert(slots@[j] == pre[j]);
                    assert(concrete_ok(g.nodes(), pre, j));
                }
            }
        }
        i = i + 1;
    }
    let mut stable = false;
    while !stable
        invariant
            g.wf(),
            n == g.nodes().len(),
            edges@ == g.edges(),
            slots@.len() == n,
            forall|j: int| 0 <= j < n ==> #[trigger] concrete_ok(g.nodes(), slots@, j),
            stable ==> forall|i: int|
                0 <= i < edges@.len() ==> edge_settled(
                    slots@,
                    (#[trigger] edges@[i]).0 as int,
                    edges@[i].1 as int,
                ),
            g.edges().len() == 0 && g.calls().len() == 0 ==> forall|j: int|
                0 <= j < n ==> !((#[trigger] slots@[j]) is Mismatch),
        decreases notype_count(slots@) + (if stable {
            0int
        } else {
            1int
        }),
    {
        let ghost pre = slots@;
        proof {
            g.lemma_wf_facts();
        }
        let changed = propagate_sweep(&mut slots, &edges);
        if !changed {
            stable = true;
        }
        proof {
            assert forall|j: int| 0 <= j < n implies #[trigger] concrete_ok(
                g.nodes(),
                slots@,
                j,
            ) by {
                assert(concrete_ok(g.nodes(), pre, j));
                if pre[j] !is NoType {
                    assert(slots@[j] == pre[j]);
                }
            }
            if g.edges().len() == 0 && g.calls().len() == 0 {
                assert forall|j: int| 0 <= j < n implies !((#[trigger] slots@[j]) is Mismatch) by {
                    assert(!(pre[j] is Mismatch));
                }
            }
        }
    }
    let mut ci: usize = 0;
    while ci < calls.len()
        invariant
            g.wf(),
            n == g.nodes().len(),
            calls@ == g.calls(),
            slots@.len() == n,
            forall|j: int| 0 <= j < n ==> #[trigger] concrete_ok(g.nodes(), slots@, j),
            g.edges().len() == 0 && g.calls().len() == 0 ==> forall|j: int|
                0 <= j < n ==> !((#[trigger] slots@[j]) is Mismatch),
        decreases calls@.len() - ci,
    {
        let ghost pre = slots@;
        let c = &calls[ci];
        proof {
            g.lemma_wf_facts();
            assert(g.calls()[ci as int].ret < n);
        }
        apply_call(&mut slots, c);
        proof {
            assert forall|j: int| 0 <= j < n implies #[trigger] concrete_ok(
                g.nodes(),
                slots@,
                j,
            ) by {
                assert(concrete_ok(g.nodes(), pre, j));
                if pre[j] !is NoType && slots@[j] !is Mismatch {
                    assert(slots@[j] == pre[j]);
                }
            }
        }
        ci = ci + 1;
    }
    let mut stable2 = false;
    while !stable2
        invariant
            g.wf(),
            n == g.nodes().len(),
            edges@ == g.edges(),
            slots@.len() == n,
            forall|j: int| 0 <= j < n ==> #[trigger] concrete_ok(g.nodes(), slots@, j),
            stable2 ==> forall|i: int|
                0 <= i < edges@.len() ==> edge_settled(
                    slots@,
                    (#[trigger] edges@[i]).0 as int,
                    edges@[i].1 as int,
                ),
            g.edges().len() == 0 && g.calls().len() == 0 ==> forall|j: int|
                0 <= j < n ==> !((#[trigger] slots@[j]) is Mismatch),
        decreases notype_count(slots@) + (if stable2 {
            0int
        } else {
            1int
        }),
    {
        let ghost pre = slots@;
        proof {
            g.lemma_wf_facts();
        }
        let changed = propagate_sweep(&mut slots, &edges);
        if !changed {
            stable2 = true;
        }
        proof {
            assert forall|j: int| 0 <= j < n implies #[trigger] concrete_ok(
                g.nodes(),
                slots@,
                j,
            ) by {
                assert(concrete_ok(g.nodes(), pre, j));
                if pre[j] !is NoType {
                    assert(slots@[j] == pre[j]);
                }
            }
            if g.edges().len() == 0 && g.calls().len() == 0 {
                assert forall|j: int| 0 <= j < n implies !((#[trigger] slots@[j]) is Mismatch) by {
                    assert(!(pre[j] is Mismatch));
                }
            }
        }
    }
    let mut e: usize = 0;
    while e < edges.len()
        invariant
            g.wf(),
            n == g.nodes().len(),
            edges@ == g.edges(),
            srcs@ == g.sources(),
            g.sources().len() == g.edges().len(),
            slots@.len() == n,
            forall|j: int| 0 <= j < n ==> #[trigger] concrete_ok(g.nodes(), slots@, j),
            forall|i2: int|
                0 <= i2 < e ==> edge_consistent(
                    slots@,
                    (#[trigger] g.edges()[i2]).0 as int,
                    g.edges()[i2].1 as int,
                ),
            forall|i2: int|
                0 <= i2 < edges@.len() ==> edge_settled(
                    slots@,
                    (#[trigger] edges@[i2]).0 as int,
                    edges@[i2].1 as int,
                ),
            g.edges().len() == 0 && g.calls().len() == 0 ==> forall|j: int|
                0 <= j < n ==> !((#[trigger] slots@[j]) is Mismatch),
        decreases edges@.len() - e,
    {
        let ghost pre = slots@;
        let (a, b, _w) = edges[e];
        proof {
            g.lemma_wf_facts();
            assert(g.edges()[e as int].0 < n);
            assert(g.edges()[e as int].1 < n);
        }
        let clash: Option<(ConcreteType, ConcreteType)> = match (&slots[a], &slots[b]) {
            (NodeOutcome::Resolved(ta), NodeOutcome::Resolved(tb)) => {
                if !ta.same_as(tb) {
                    Some((ta.duplicate(), tb.duplicate()))
                } else {
                    None
                }
            },
            _ => None,
        };
        if let Some((ta, tb)) = clash {
            let s = srcs[e];
            let tb2 = tb.duplicate();
            let ta2 = ta.duplicate();
            slots.set(a, NodeOutcome::Mismatch { expected: tb, found: ta, source: s });
            slots.set(b, NodeOutcome::Mismatch { expected: ta2, found: tb2, source: s });
        }
        proof {
            assert forall|j: int| 0 <= j < n implies #[trigger] concrete_ok(
                g.nodes(),
                slots@,
                j,
            ) by {
                assert(concrete_ok(g.nodes(), pre, j));
                if slots@[j] !is Mismatch {
                    assert(slots@[j] == pre[j]);
                }
            }
            assert forall|i2: int| 0 <= i2 < edges@.len() implies edge_settled(
                slots@,
                (#[trigger] edges@[i2]).0 as int,
                edges@[i2].1 as int,
            ) by {
                let x = edges@[i2].0 as int;
                let y = edges@[i2].1 as int;
                assert(edge_settled(pre, x, y));
                if slots@[x] == pre[x] && slots@[y] == pre[y] {
                } else {
                    if slots@[x] != pre[x] {
                        assert(slots@[x] is Mismatch);
                    }
                    if slots@[y] != pre[y] {
                        assert(slots@[y] is Mismatch);
                    }
                    assert(slots@[x] is NoType ==> slots@[x] == pre[x]);
                    assert(slots@[y] is NoType ==> slots@[y] == pre[y]);
                    assert(slots@[x] is Resolved ==> slots@[x] == pre[x]);
                    assert(slots@[y] is Resolved ==> slots@[y] == pre[y]);
                }
            }
            assert forall|i2: int| 0 <= i2 < e + 1 implies edge_consistent(
                slots@,
                (#[trigger] g.edges()[i2]).0 as int,
                g.edges()[i2].1 as int,
            ) by {
                let x = g.edges()[i2].0 as int;
                let y = g.edges()[i2].1 as int;
                assert(x < n && y < n);
                if i2 < e {
                    if x == a as int || x == b as int || y == a as int || y == b as int {
                        assert(slots@[x] !is Resolved || slots@[y] !is Resolved || (slots@[x]
                            == pre[x] && slots@[y] == pre[y]));
                        if slots@[x] == pre[x] && slots@[y] == pre[y] {
                            assert(edge_consistent(pre, x, y));
                        }
                    } else {
                        assert(slots@[x] == pre[x] && slots@[y] == pre[y]);
                        assert(edge_consistent(pre, x, y));
                    }
                }
            }
        }
        e = e + 1;
    }
    proof {
        if g.edges().len() == 0 && g.calls().len() == 0 {
            assert forall|j: int|
                0 <= j < n && g.nodes()[j] is Concrete implies slots@[j] is Resolved by {
                assert(concrete_ok(g.nodes(), slots@, j));
                assert(!(slots@[j] is Mismatch));
            }
        }
    }
    slots
}

/// What an equation against a concrete-type node forces: if the solver
/// resolved a node that an equation ties to a concrete node, and the
/// concrete node was not swallowed by a mismatch, the node's resolved type
/// is that concrete type.  A boolean literal therefore resolves to `bool`,
/// a numeric literal to the numeric primitive, a valueless literal to
/// unit, and an operator's result node to the primitive its rule names.
pub proof fn lemma_resolved_against_concrete(
    g: &TypeGraph,
    r: Seq<NodeOutcome>,
    a: int,
    b: int,
    s: InferenceSource,
    tc: ConcreteType,
)
    requires
        r.len() == g.nodes().len(),
        forall|i: int|
            0 <= i < g.edges().len() ==> edge_consistent(
                r,
                (#[trigger] g.edges()[i]).0 as int,
                g.edges()[i].1 as int,
            ),
        forall|j: int| 0 <= j < g.nodes().len() ==> #[trigger] concrete_ok(g.nodes(), r, j),
        g.has_eq(a, b, s),
        0 <= b < g.nodes().len(),
        g.nodes()[b] == TypeNode::Concrete(tc),
        r[a] is Resolved,
        !(r[b] is Mismatch),
    ensures
        ct_eq(&r[a]->Resolved_0, &tc),
{
    let i = choose|i: int|
        0 <= i < g.edges().len() && (#[trigger] g.edges()[i]).0 == a && g.edges()[i].1 == b
            && g.sources()[i] == s;
    assert(edge_consistent(r, a, b));
    assert(concrete_ok(g.nodes(), r, b));
    let ta = r[a]->Resolved_0;
    let tb = r[b]->Resolved_0;
    assert(ct_eq(&ta, &tb));
    assert(ct_eq(&tb, &tc));
    crate::types::lemma_ct_eq_trans(&ta, &tb, &tc);
}

/// The completeness counterpart: a node tied by an equation to a concrete
/// node is never left untyped.  Unless one of the two took part in a
/// reported mismatch, the node is resolved, and to exactly the concrete
/// node's type.  With the equations the checker guarantees, a boolean
/// literal's node therefore resolves to `bool`, a numeric literal's to the
/// numeric primitive, a valueless literal's to unit, and an operator's
/// result node to the primitive of its rule.
pub proof fn lemma_concrete_forces_resolution(
    g: &TypeGraph,
    r: Seq<NodeOutcome>,
    a: int,
    b: int,
    s: InferenceSource,
    tc: ConcreteType,
)
    requires
        r.len() == g.nodes().len(),
        forall|i: int|
            0 <= i < g.edges().len() ==> edge_consistent(
                r,
                (#[trigger] g.edges()[i]).0 as int,
                g.edges()[i].1 as int,
            ),
        forall|j: int| 0 <= j < g.nodes().len() ==> #[trigger] concrete_ok(g.nodes(), r, j),
        forall|i: int|
            0 <= i < g.edges().len() ==> edge_settled(
                r,
                (#[trigger] g.edges()[i]).0 as int,
                g.edges()[i].1 as int,
            ),
        g.has_eq(a, b, s),
        0 <= a < g.nodes().len(),
        0 <= b < g.nodes().len(),
        g.nodes()[b] == TypeNode::Concrete(tc),
        !(r[a] is Mismatch),
        !(r[b] is Mismatch),
    ensures
        r[a] is Resolved,
        ct_eq(&r[a]->Resolved_0, &tc),
{
    let i = choose|i: int|
        0 <= i < g.edges().len() && (#[trigger] g.edges()[i]).0 == a && g.edges()[i].1 == b
            && g.sources()[i] == s;
    assert(edge_consistent(r, a, b));
    assert(edge_settled(r, a, b));
    assert(concrete_ok(g.nodes(), r, b));
    let tb = r[b]->Resolved_0;
    assert(ct_eq(&tb, &tc));
    let ta = r[a]->Resolved_0;
    assert(ct_eq(&ta, &tb));
    crate::types::lemma_ct_eq_trans(&ta, &tb, &tc);
}

} // verus!
