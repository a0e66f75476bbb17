//! Type-equation emission.
//!
//! [`ExprTypeChecker`] mirrors the resolver's walk but emits type
//! constraints instead of bindings: for every expression and statement form
//! it adds the equations of the language's typing rules into the
//! [`TypeGraph`], tracking "the type of the expression just visited" in a
//! `current_type` slot that is `None` when there is no type yet.

use vstd::prelude::*;
use crate::ast::{
    block_wf, conditional_wf, expr_wf, fn_wf, item_wf, stmt_wf, unit_wf, Block, Declaration,
    Expression, FnCallArgs, FnDeclaration, Identifier, IfBlock, Item, LiteralValue, Operator,
    Statement, Unit,
};
use crate::diag::{CheckerError, ErrorKind};
use crate::graph::{bool_node, num_node, unit_node, CallConstraint, TypeGraph, TypeNode};
use crate::scoped_id::IdState;
use crate::type_scope::{lookup_prim, TypeScopeBuilder};
use crate::types::{ConcreteType, FnSignature, InferenceSource, Primitive};

verus! {

broadcast use vstd::seq::group_seq_axioms, vstd::std_specs::vec::axiom_vec_index_decreases;

/// The primitive node a literal's type must equal.
pub open spec fn literal_node(v: LiteralValue) -> int {
    match v {
        LiteralValue::Bool(_) => bool_node(),
        LiteralValue::Num(_) => num_node(),
        LiteralValue::Unit => unit_node(),
    }
}

pub open spec fn op_is_numeric(op: Operator) -> bool {
    op == Operator::Addition || op == Operator::Subtraction || op == Operator::Multiplication
        || op == Operator::Division || op == Operator::Modulus
}

pub open spec fn op_is_comparison(op: Operator) -> bool {
    op == Operator::LessThan || op == Operator::GreaterThan || op == Operator::LessThanEquals
        || op == Operator::GreaterThanEquals
}

pub open spec fn op_is_equality(op: Operator) -> bool {
    op == Operator::Equality || op == Operator::NonEquality
}

/// The node at `n` is the type variable of the binding `id`.
pub open spec fn is_var_node(g: TypeGraph, n: int, id: Seq<u32>) -> bool {
    &&& 0 <= n < g.nodes().len()
    &&& (match g.nodes()[n] {
        TypeNode::Variable(s) => s@ == id,
        _ => false,
    })
}

/// The node at `n` carries the concrete signature that the declaration's
/// annotations spell out.
pub open spec fn is_sig_node(g: TypeGraph, n: int, f: FnDeclaration) -> bool {
    &&& 0 <= n < g.nodes().len()
    &&& (match g.nodes()[n] {
        TypeNode::Concrete(ct) => (match ct {
            ConcreteType::Function(sg) => sig_matches_decl(sg, f),
            _ => false,
        }),
        _ => false,
    })
}

/// A signature value agrees, name by name and type by type, with what a
/// declaration's annotations denote.
pub open spec fn sig_matches_decl(sg: FnSignature, f: FnDeclaration) -> bool {
    &&& sg.params@.len() == f.params@.len()
    &&& (forall|k: int| #![trigger sg.params@[k]]
        0 <= k < f.params@.len() ==> sg.params@[k].0@ == f.params@[k].ident.name@ && Some(
            sg.params@[k].1,
        ) == crate::type_scope::name_to_prim(f.params@[k].ty.name@))
    &&& Some(sg.ret) == crate::type_scope::name_to_prim(f.ret_ty.name@)
}

/// Every type annotation on the declaration names a known primitive.
pub open spec fn decl_types_known(f: FnDeclaration) -> bool {
    &&& (forall|k: int| #![trigger f.params@[k]]
        0 <= k < f.params@.len() ==> crate::type_scope::name_to_prim(
            f.params@[k].ty.name@,
        ) is Some)
    &&& crate::type_scope::name_to_prim(f.ret_ty.name@) is Some
}

/// Creates type equations for expressions and statements.
pub struct ExprTypeChecker {
    builder: TypeScopeBuilder,
    graph: TypeGraph,
    errors: Vec<CheckerError>,
    current_type: Option<usize>,
    return_ty: Option<usize>,
}

impl ExprTypeChecker {
    pub closed spec fn graph_view(&self) -> TypeGraph {
        self.graph
    }

    pub closed spec fn errs(&self) -> Seq<CheckerError> {
        self.errors@
    }

    pub closed spec fn current(&self) -> Option<usize> {
        self.current_type
    }

    /// The function's declared-return-type node, while a body is walked.
    pub closed spec fn ret_slot(&self) -> Option<usize> {
        self.return_ty
    }

    /// The type-variable node recorded for a binding.
    pub closed spec fn binding_node(&self, id: Seq<u32>) -> Option<usize> {
        crate::type_scope::var_find(self.builder.vars_view(), id)
    }

    pub closed spec fn inv(&self) -> bool {
        &&& self.graph_view().wf()
        &&& self.graph_view().primitives_seeded()
        &&& self.builder.bounded(self.graph_view().nodes().len() as int)
        &&& self.builder.coherent(self.graph_view().nodes())
        &&& (match self.current() {
            Some(n) => n < self.graph_view().nodes().len(),
            None => true,
        })
        &&& (match self.return_ty {
            Some(n) => n < self.graph_view().nodes().len(),
            None => true,
        })
    }

    /// A visit only ever grows the graph and the diagnostics.
    pub open spec fn mono(pre: Self, post: Self) -> bool {
        &&& pre.graph_view().nodes().is_prefix_of(post.graph_view().nodes())
        &&& pre.graph_view().edges().is_prefix_of(post.graph_view().edges())
        &&& pre.graph_view().sources().is_prefix_of(post.graph_view().sources())
        &&& pre.graph_view().calls().is_prefix_of(post.graph_view().calls())
        &&& pre.errs().is_prefix_of(post.errs())
    }

    pub proof fn lemma_mono_trans(a: Self, b: Self, c: Self)
        requires
            Self::mono(a, b),
            Self::mono(b, c),
        ensures
            Self::mono(a, c),
    {
        crate::resolve::lemma_prefix_trans(a.graph_view().nodes(), b.graph_view().nodes(), c.graph_view().nodes());
        crate::resolve::lemma_prefix_trans(a.graph_view().edges(), b.graph_view().edges(), c.graph_view().edges());
        crate::resolve::lemma_prefix_trans(a.graph_view().sources(), b.graph_view().sources(), c.graph_view().sources());
        crate::resolve::lemma_prefix_trans(a.graph_view().calls(), b.graph_view().calls(), c.graph_view().calls());
        crate::resolve::lemma_prefix_trans(a.errs(), b.errs(), c.errs());
    }

    pub proof fn lemma_mono_refl(a: Self)
        ensures
            Self::mono(a, a),
    {
        assert(a.graph_view().nodes().is_prefix_of(a.graph_view().nodes()));
        assert(a.graph_view().edges().is_prefix_of(a.graph_view().edges()));
        assert(a.graph_view().sources().is_prefix_of(a.graph_view().sources()));
        assert(a.graph_view().calls().is_prefix_of(a.graph_view().calls()));
        assert(a.errs().is_prefix_of(a.errs()));
    }

    /// An equation recorded earlier stays recorded.
    pub proof fn lemma_eq_mono(pre: Self, post: Self, a: int, b: int, s: InferenceSource)
        requires
            Self::mono(pre, post),
            pre.graph_view().edges().len() <= pre.graph_view().sources().len(),
            pre.graph_view().has_eq(a, b, s),
        ensures
            post.graph_view().has_eq(a, b, s),
    {
        let i = choose|i: int|
            0 <= i < pre.graph_view().edges().len() && (#[trigger] pre.graph_view().edges()[
                i
            ]).0 == a && pre.graph_view().edges()[i].1 == b && pre.graph_view().sources()[i] == s;
        let pe = pre.graph_view().edges();
        let qe = post.graph_view().edges();
        assert(pe == qe.subrange(0, pe.len() as int));
        assert(qe.subrange(0, pe.len() as int)[i] == qe[i]);
        let ps = pre.graph_view().sources();
        let qs = post.graph_view().sources();
        assert(ps == qs.subrange(0, ps.len() as int));
        assert(qs.subrange(0, ps.len() as int)[i] == qs[i]);
    }

    pub fn new(builder: TypeScopeBuilder, graph: TypeGraph) -> (r: ExprTypeChecker)
        requires
            graph.wf(),
            graph.primitives_seeded(),
            builder.bounded(graph.nodes().len() as int),
            builder.coherent(graph.nodes()),
        ensures
            r.inv(),
            r.graph_view() == graph,
            r.errs() == Seq::<CheckerError>::empty(),
            r.current() is None,
    {
        ExprTypeChecker { builder, graph, errors: Vec::new(), current_type: None, return_ty: None }
    }

    /// Hand back the table, the filled graph and the diagnostics.
    pub fn into_parts(self) -> (r: (TypeScopeBuilder, TypeGraph, Vec<CheckerError>))
        ensures
            r.1 == self.graph_view(),
            r.2@ == self.errs(),
            self.inv() ==> r.1.wf() && r.1.primitives_seeded(),
    {
        (self.builder, self.graph, self.errors)
    }

    pub fn error_count(&self) -> (r: usize)
        ensures
            r == self.errs().len(),
    {
        self.errors.len()
    }

    /// A literal makes a fresh node equal to its primitive: `bool` for a
    /// boolean, the numeric primitive for a number, unit for the valueless
    /// literal.
    pub fn visit_literal_expr(&mut self, v: &LiteralValue) -> (n: usize)
        requires
            old(self).inv(),
        ensures
            final(self).inv(),
            Self::mono(*old(self), *final(self)),
            final(self).errs() == old(self).errs(),
            final(self).current() == Some(n),
            n < final(self).graph_view().nodes().len(),
            final(self).graph_view().nodes()[n as int] is Fresh,
            final(self).graph_view().has_eq(n as int, literal_node(*v), InferenceSource::LiteralValue),
    {
        let n = self.graph.fresh_node();
        let target: usize = match v {
            LiteralValue::Bool(_) => 0,
            LiteralValue::Num(_) => 1,
            LiteralValue::Unit => 2,
        };
        self.graph.add_inference(n, target, InferenceSource::LiteralValue);
        self.current_type = Some(n);
        proof {
            Self::lemma_mono_refl(*old(self));
            assert(old(self).graph_view().nodes().is_prefix_of(self.graph_view().nodes())) by {
                assert(old(self).graph_view().nodes() =~= self.graph_view().nodes().subrange(
                    0,
                    old(self).graph_view().nodes().len() as int,
                ));
            }
            assert(old(self).graph_view().edges().is_prefix_of(self.graph_view().edges())) by {
                assert(old(self).graph_view().edges() =~= self.graph_view().edges().subrange(
                    0,
                    old(self).graph_view().edges().len() as int,
                ));
            }
            assert(old(self).graph_view().sources().is_prefix_of(self.graph_view().sources()))
                by {
                assert(old(self).graph_view().sources() =~= self.graph_view().sources().subrange(
                    0,
                    old(self).graph_view().sources().len() as int,
                ));
            }
        }
        n
    }

    /// A reference's type is its binding's type-variable node; an
    /// unresolved reference leaves no type.
    pub fn visit_var_ref(&mut self, ident: &Identifier)
        requires
            old(self).inv(),
        ensures
            final(self).inv(),
            Self::mono(*old(self), *final(self)),
            final(self).errs() == old(self).errs(),
            final(self).graph_view().edges() == old(self).graph_view().edges(),
            final(self).graph_view().sources() == old(self).graph_view().sources(),
            final(self).graph_view().calls() == old(self).graph_view().calls(),
            ident.state.is_assigned() ==> final(self).current() is Some && final(self).current()
                == final(self).binding_node(ident.state.id()),
            !ident.state.is_assigned() ==> final(self).current() is None && final(self).graph_view() == old(self).graph_view(),
    {
        match &ident.state {
            IdState::Assigned(id) => {
                let n = self.builder.get_id(&mut self.graph, id);
                self.current_type = Some(n);
                proof {
                    assert(old(self).graph_view().edges().is_prefix_of(
                        self.graph_view().edges(),
                    ));
                    assert(old(self).graph_view().sources().is_prefix_of(
                        self.graph_view().sources(),
                    ));
                    assert(old(self).graph_view().calls().is_prefix_of(
                        self.graph_view().calls(),
                    ));
                    assert(old(self).errs().is_prefix_of(self.errs()));
                }
            },
            IdState::Unassigned => {
                self.current_type = None;
                proof {
                    Self::lemma_mono_refl(*old(self));
                }
            },
        }
    }

    /// Unary `+`/`-`: the operand and the result are numeric.
    pub fn visit_unary_op(&mut self, op: Operator, inner_n: Option<usize>) -> (n: usize)
        requires
            old(self).inv(),
            op == Operator::Addition || op == Operator::Subtraction,
            (match inner_n {
                Some(m) => m < old(self).graph_view().nodes().len(),
                None => true,
            }),
        ensures
            final(self).inv(),
            Self::mono(*old(self), *final(self)),
            final(self).errs() == old(self).errs(),
            final(self).current() == Some(n),
            final(self).graph_view().has_eq(n as int, num_node(), InferenceSource::NumericOperator),
            inner_n is Some ==> final(self).graph_view().has_eq(
                inner_n->0 as int,
                num_node(),
                InferenceSource::NumericOperator,
            ),
    {
        if let Some(m) = inner_n {
            self.graph.add_inference(m, 1, InferenceSource::NumericOperator);
        }
        let ghost mid = *self;
        let n = self.graph.fresh_node();
        self.graph.add_inference(n, 1, InferenceSource::NumericOperator);
        self.current_type = Some(n);
        proof {
            self.lemma_grow(*old(self));
            if inner_n is Some {
                mid.lemma_grow(*old(self));
                self.lemma_grow(mid);
                mid.graph_view().lemma_wf_facts();
                Self::lemma_eq_mono(
                    mid,
                    *self,
                    inner_n->0 as int,
                    num_node(),
                    InferenceSource::NumericOperator,
                );
            }
        }
        n
    }

    /// Binary operators: arithmetic takes and yields the numeric
    /// primitive; comparisons take numerics and yield `bool`; equality
    /// ties both sides together and yields the numeric encoding of `bool`.
    pub fn visit_binary_op(&mut self, op: Operator, left_n: Option<usize>, right_n: Option<
        usize,
    >) -> (n: usize)
        requires
            old(self).inv(),
            op != Operator::Custom,
            (match left_n {
                Some(m) => m < old(self).graph_view().nodes().len(),
                None => true,
            }),
            (match right_n {
                Some(m) => m < old(self).graph_view().nodes().len(),
                None => true,
            }),
        ensures
            final(self).inv(),
            Self::mono(*old(self), *final(self)),
            final(self).errs() == old(self).errs(),
            final(self).current() == Some(n),
            op_is_numeric(op) ==> final(self).graph_view().has_eq(
                n as int,
                num_node(),
                InferenceSource::NumericOperator,
            ),
            op_is_comparison(op) ==> final(self).graph_view().has_eq(
                n as int,
                bool_node(),
                InferenceSource::BooleanOperator,
            ),
            op_is_equality(op) ==> final(self).graph_view().has_eq(
                n as int,
                num_node(),
                InferenceSource::EqualityOperator,
            ),
            (op_is_numeric(op) || op_is_comparison(op)) && left_n is Some ==> final(self).graph_view().has_eq(left_n->0 as int, num_node(), InferenceSource::NumericOperator),
            (op_is_numeric(op) || op_is_comparison(op)) && right_n is Some ==> final(self).graph_view().has_eq(right_n->0 as int, num_node(), InferenceSource::NumericOperator),
            op_is_equality(op) && left_n is Some && right_n is Some ==> final(self).graph_view().has_eq(
                left_n->0 as int,
                right_n->0 as int,
                InferenceSource::EqualityOperator,
            ) && final(self).graph_view().has_eq(
                right_n->0 as int,
                left_n->0 as int,
                InferenceSource::EqualityOperator,
            ),
    {
        let n: usize;
        match op {
            Operator::Equality | Operator::NonEquality => {
                if let (Some(l), Some(r)) = (left_n, right_n) {
                    self.graph.add_inference(l, r, InferenceSource::EqualityOperator);
                    let ghost mida = *self;
                    self.graph.add_inference(r, l, InferenceSource::EqualityOperator);
                    proof {
                        self.lemma_grow(mida);
                        mida.graph_view().lemma_wf_facts();
                        Self::lemma_eq_mono(
                            mida,
                            *self,
                            l as int,
                            r as int,
                            InferenceSource::EqualityOperator,
                        );
                    }
                }
                let ghost mid = *self;
                n = self.graph.fresh_node();
                self.graph.add_inference(n, 1, InferenceSource::EqualityOperator);
                proof {
                    self.lemma_grow(mid);
                    mid.graph_view().lemma_wf_facts();
                    if left_n is Some && right_n is Some {
                        Self::lemma_eq_mono(
                            mid,
                            *self,
                            left_n->0 as int,
                            right_n->0 as int,
                            InferenceSource::EqualityOperator,
                        );
                        Self::lemma_eq_mono(
                            mid,
                            *self,
                            right_n->0 as int,
                            left_n->0 as int,
                            InferenceSource::EqualityOperator,
                        );
                    }
                }
            },
            Operator::LessThan | Operator::GreaterThan | Operator::LessThanEquals
                | Operator::GreaterThanEquals => {
                if let Some(l) = left_n {
                    self.graph.add_inference(l, 1, InferenceSource::NumericOperator);
                }
                let ghost midl = *self;
                if let Some(r) = right_n {
                    self.graph.add_inference(r, 1, InferenceSource::NumericOperator);
                    proof {
                        self.lemma_grow(midl);
                        midl.graph_view().lemma_wf_facts();
                        if left_n is Some {
                            Self::lemma_eq_mono(
                                midl,
                                *self,
                                left_n->0 as int,
                                num_node(),
                                InferenceSource::NumericOperator,
                            );
                        }
                    }
                }
                let ghost mid = *self;
                n = self.graph.fresh_node();
                self.graph.add_inference(n, 0, InferenceSource::BooleanOperator);
                proof {
                    self.lemma_grow(mid);
                    mid.graph_view().lemma_wf_facts();
                    if left_n is Some {
                        Self::lemma_eq_mono(
                            mid,
                            *self,
                            left_n->0 as int,
                            num_node(),
                            InferenceSource::NumericOperator,
                        );
                    }
                    if right_n is Some {
                        Self::lemma_eq_mono(
                            mid,
                            *self,
                            right_n->0 as int,
                            num_node(),
                            InferenceSource::NumericOperator,
                        );
                    }
                }
            },
            Operator::Addition | Operator::Subtraction | Operator::Multiplication
                | Operator::Division | Operator::Modulus => {
                if let Some(l) = left_n {
                    self.graph.add_inference(l, 1, InferenceSource::NumericOperator);
                }
                let ghost midl = *self;
                if let Some(r) = right_n {
                    self.graph.add_inference(r, 1, InferenceSource::NumericOperator);
                    proof {
                        self.lemma_grow(midl);
                        midl.graph_view().lemma_wf_facts();
                        if left_n is Some {
                            Self::lemma_eq_mono(
                                midl,
                                *self,
                                left_n->0 as int,
                                num_node(),
                                InferenceSource::NumericOperator,
                            );
                        }
                    }
                }
                let ghost mid = *self;
                n = self.graph.fresh_node();
                self.graph.add_inference(n, 1, InferenceSource::NumericOperator);
                proof {
                    self.lemma_grow(mid);
                    mid.graph_view().lemma_wf_facts();
                    if left_n is Some {
                        Self::lemma_eq_mono(
                            mid,
                            *self,
                            left_n->0 as int,
                            num_node(),
                            InferenceSource::NumericOperator,
                        );
                    }
                    if right_n is Some {
                        Self::lemma_eq_mono(
                            mid,
                            *self,
                            right_n->0 as int,
                            num_node(),
                            InferenceSource::NumericOperator,
                        );
                    }
                }
            },
            Operator::Custom => {
                proof {
                    assert(false);
                }
                n = 0;
            },
        }
        self.current_type = Some(n);
        proof {
            self.lemma_grow(*old(self));
        }
        n
    }

    /// `if cond => a else b` as an expression: the condition must be
    /// boolean and the branches must agree; the whole takes the true
    /// branch's node.
    pub fn visit_if_expr(&mut self, cond_n: Option<usize>, left_n: Option<usize>, right_n: Option<
        usize,
    >)
        requires
            old(self).inv(),
            (match cond_n {
                Some(m) => m < old(self).graph_view().nodes().len(),
                None => true,
            }),
            (match left_n {
                Some(m) => m < old(self).graph_view().nodes().len(),
                None => true,
            }),
            (match right_n {
                Some(m) => m < old(self).graph_view().nodes().len(),
                None => true,
            }),
        ensures
            final(self).inv(),
            Self::mono(*old(self), *final(self)),
            final(self).errs() == old(self).errs(),
            final(self).current() == left_n,
            cond_n is Some ==> final(self).graph_view().has_eq(
                cond_n->0 as int,
                bool_node(),
                InferenceSource::IfConditionalBool,
            ),
            left_n is Some && right_n is Some ==> final(self).graph_view().has_eq(
                left_n->0 as int,
                right_n->0 as int,
                InferenceSource::IfBranchesSame,
            ),
    {
        let ghost pre = *self;
        if let Some(c) = cond_n {
            self.graph.add_inference(c, 0, InferenceSource::IfConditionalBool);
        }
        let ghost mid = *self;
        if let (Some(l), Some(r)) = (left_n, right_n) {
            self.graph.add_inference(l, r, InferenceSource::IfBranchesSame);
        }
        self.current_type = left_n;
        proof {
            self.lemma_grow(pre);
            if cond_n is Some {
                mid.lemma_grow(pre);
                self.lemma_grow(mid);
                mid.graph_view().lemma_wf_facts();
                Self::lemma_eq_mono(
                    mid,
                    *self,
                    cond_n->0 as int,
                    bool_node(),
                    InferenceSource::IfConditionalBool,
                );
            }
        }
    }

    /// A call requires the callee's type to be a function type from the
    /// argument nodes to a fresh result node, recorded as a call-site
    /// constraint for the solver.
    pub fn visit_fn_call(&mut self, id: &crate::scoped_id::ScopedId, call_args: Vec<(String, usize)>) -> (n:
        usize)
        requires
            old(self).inv(),
            forall|j: int|
                0 <= j < call_args@.len() ==> (#[trigger] call_args@[j]).1 < old(self).graph_view().nodes().len(),
        ensures
            final(self).inv(),
            Self::mono(*old(self), *final(self)),
            final(self).errs() == old(self).errs(),
            final(self).current() == Some(n),
            final(self).graph_view().calls().len() == old(self).graph_view().calls().len() + 1,
            final(self).graph_view().calls().last().ret == n,
            final(self).graph_view().calls().last().args@ == call_args@,
            final(self).binding_node(id@) == Some(final(self).graph_view().calls().last().callee),
    {
        let callee = self.builder.get_id(&mut self.graph, id);
        let ghost mid = *self;
        let result = self.graph.fresh_node();
        proof {
            assert forall|j: int|
                0 <= j < call_args@.len() implies (#[trigger] call_args@[j]).1
                < self.graph_view().nodes().len() by {
                assert(call_args@[j].1 < old(self).graph_view().nodes().len());
                assert(old(self).graph_view().nodes().len() <= self.graph_view().nodes().len());
            }
        }
        self.graph.add_call(CallConstraint { callee, args: call_args, ret: result });
        self.current_type = Some(result);
        proof {
            mid.lemma_grow(*old(self));
            self.lemma_grow(mid);
            Self::lemma_mono_trans(*old(self), mid, *self);
        }
        result
    }

    /// Prefixes follow from unchanged-or-extended sequences.
    proof fn lemma_grow(self, pre: Self)
        requires
            pre.graph_view().nodes().len() <= self.graph_view().nodes().len(),
            forall|i: int|
                0 <= i < pre.graph_view().nodes().len() ==> pre.graph_view().nodes()[i]
                    == #[trigger] self.graph_view().nodes()[i],
            pre.graph_view().edges().len() <= self.graph_view().edges().len(),
            forall|i: int|
                0 <= i < pre.graph_view().edges().len() ==> pre.graph_view().edges()[i]
                    == #[trigger] self.graph_view().edges()[i],
            pre.graph_view().sources().len() <= self.graph_view().sources().len(),
            forall|i: int|
                0 <= i < pre.graph_view().sources().len() ==> pre.graph_view().sources()[i]
                    == #[trigger] self.graph_view().sources()[i],
            pre.graph_view().calls().len() <= self.graph_view().calls().len(),
            forall|i: int|
                0 <= i < pre.graph_view().calls().len() ==> pre.graph_view().calls()[i]
                    == #[trigger] self.graph_view().calls()[i],
            pre.errs().len() <= self.errs().len(),
            forall|i: int|
                0 <= i < pre.errs().len() ==> pre.errs()[i] == #[trigger] self.errs()[i],
        ensures
            Self::mono(pre, self),
    {
        assert(pre.graph_view().nodes() =~= self.graph_view().nodes().subrange(
            0,
            pre.graph_view().nodes().len() as int,
        ));
        assert(pre.graph_view().edges() =~= self.graph_view().edges().subrange(
            0,
            pre.graph_view().edges().len() as int,
        ));
        assert(pre.graph_view().sources() =~= self.graph_view().sources().subrange(
            0,
            pre.graph_view().sources().len() as int,
        ));
        assert(pre.graph_view().calls() =~= self.graph_view().calls().subrange(
            0,
            pre.graph_view().calls().len() as int,
        ));
        assert(pre.errs() =~= self.errs().subrange(0, pre.errs().len() as int));
    }

    /// Visit each argument of a named-argument call, collecting the nodes
    /// of the arguments that produced one.  An implicit-name shorthand
    /// argument reads as a variable reference in the caller's scope.
    fn visit_call_args(&mut self, list: &Vec<crate::ast::CallArg>) -> (r: Vec<(String, usize)>)
        requires
            old(self).inv(),
            crate::ast::arg_list_wf(list),
        ensures
            final(self).inv(),
            Self::mono(*old(self), *final(self)),
            forall|j: int|
                0 <= j < r@.len() ==> (#[trigger] r@[j]).1 < final(self).graph_view().nodes().len(),
        decreases list, 0int,
    {
        let mut call_args: Vec<(String, usize)> = Vec::new();
        let mut i: usize = 0;
        proof {
            Self::lemma_mono_refl(*old(self));
        }
        while i < list.len()
            invariant
                self.inv(),
                Self::mono(*old(self), *self),
                crate::ast::arg_list_wf(list),
                forall|j: int|
                    0 <= j < call_args@.len() ==> (#[trigger] call_args@[j]).1
                        < self.graph_view().nodes().len(),
            decreases list@.len() - i,
        {
            let ghost mid = *self;
            let arg = &list[i];
            proof {
                crate::ast::lemma_arg_list_wf_index(list, i as int);
                assert(crate::ast::arg_wf(list@[i as int]));
                assert(decreases_to!(list => list@[i as int]));
            }
            match &arg.value {
                Some(e2) => {
                    self.visit_expression(e2);
                },
                None => {
                    self.visit_var_ref(&arg.name);
                },
            }
            let ghost ca_pre = call_args@;
            if let Some(a) = self.current_type {
                call_args.push((arg.name.name.clone(), a));
            }
            proof {
                Self::lemma_mono_trans(*old(self), mid, *self);
                assert forall|j: int|
                    0 <= j < call_args@.len() implies (#[trigger] call_args@[j]).1
                    < self.graph_view().nodes().len() by {
                    if j < ca_pre.len() {
                        assert(call_args@[j] == ca_pre[j]);
                        assert(ca_pre[j].1 < mid.graph_view().nodes().len());
                    }
                }
            }
            i = i + 1;
        }
        call_args
    }

    /// What each expression form leaves behind, stated at the dispatcher so
    /// a caller needs no view of the sub-visitors.
    pub open spec fn expr_visit_claim(pre: Self, post: Self, e: Expression) -> bool {
        match e {
            Expression::Literal { value, .. } => post.current() is Some
                && post.graph_view().nodes()[post.current()->0 as int] is Fresh
                && post.graph_view().has_eq(
                post.current()->0 as int,
                literal_node(value),
                InferenceSource::LiteralValue,
            ),
            Expression::VarRef { ident } => (ident.state.is_assigned() ==> post.current() is Some
                && post.current() == post.binding_node(ident.state.id())) && (
            !ident.state.is_assigned() ==> post.current() is None && post.graph_view()
                == pre.graph_view()),
            Expression::UnaryOp { .. } => post.current() is Some && post.graph_view().has_eq(
                post.current()->0 as int,
                num_node(),
                InferenceSource::NumericOperator,
            ),
            Expression::BinaryOp { op, .. } => post.current() is Some && (op_is_numeric(op)
                ==> post.graph_view().has_eq(
                post.current()->0 as int,
                num_node(),
                InferenceSource::NumericOperator,
            )) && (op_is_comparison(op) ==> post.graph_view().has_eq(
                post.current()->0 as int,
                bool_node(),
                InferenceSource::BooleanOperator,
            )) && (op_is_equality(op) ==> post.graph_view().has_eq(
                post.current()->0 as int,
                num_node(),
                InferenceSource::EqualityOperator,
            )),
            Expression::IfExpr { .. } => true,
            Expression::FnCall { ident, .. } => (ident.state.is_assigned() ==> post.current()
                is Some && post.graph_view().calls().len() >= pre.graph_view().calls().len() + 1
                && post.graph_view().calls().last().ret == post.current()->0) && (
            !ident.state.is_assigned() ==> post.current() is None && post.graph_view()
                == pre.graph_view() && post.errs() == pre.errs()),
        }
    }

    pub fn visit_expression(&mut self, e: &Expression)
        requires
            old(self).inv(),
            expr_wf(e),
        ensures
            final(self).inv(),
            Self::mono(*old(self), *final(self)),
            Self::expr_visit_claim(*old(self), *final(self), *e),
        decreases e, 0int,
    {
        match e {
            Expression::Literal { value, .. } => {
                let _ = self.visit_literal_expr(value);
            },
            Expression::VarRef { ident } => {
                self.visit_var_ref(ident);
            },
            Expression::UnaryOp { op, inner, .. } => {
                self.visit_expression(inner);
                let inner_n = self.current_type;
                let ghost mid = *self;
                let _ = self.visit_unary_op(*op, inner_n);
                proof {
                    Self::lemma_mono_trans(*old(self), mid, *self);
                }
            },
            Expression::BinaryOp { op, left, right, .. } => {
                let ghost pre = *self;
                self.visit_expression(left);
                let left_n = self.current_type;
                let ghost mid1 = *self;
                self.visit_expression(right);
                let right_n = self.current_type;
                proof {
                    Self::lemma_mono_trans(pre, mid1, *self);
                }
                let ghost mid2 = *self;
                let _ = self.visit_binary_op(*op, left_n, right_n);
                proof {
                    Self::lemma_mono_trans(pre, mid2, *self);
                }
            },
            Expression::IfExpr { cond, true_expr, else_expr, .. } => {
                let ghost pre = *self;
                self.visit_expression(cond);
                let cond_n = self.current_type;
                let ghost mid1 = *self;
                self.visit_expression(true_expr);
                let left_n = self.current_type;
                proof {
                    Self::lemma_mono_trans(pre, mid1, *self);
                }
                let ghost mid2 = *self;
                self.visit_expression(else_expr);
                let right_n = self.current_type;
                proof {
                    Self::lemma_mono_trans(pre, mid2, *self);
                }
                let ghost mid3 = *self;
                self.visit_if_expr(cond_n, left_n, right_n);
                proof {
                    Self::lemma_mono_trans(pre, mid3, *self);
                }
            },
            Expression::FnCall { ident, args } => {
                let id = match &ident.state {
                    IdState::Assigned(id) => id,
                    IdState::Unassigned => {
                        self.current_type = None;
                        proof {
                            Self::lemma_mono_refl(*old(self));
                        }
                        return ;
                    },
                };
                let ghost pre = *self;
                let call_args: Vec<(String, usize)> = match args {
                    FnCallArgs::SingleExpr(e2) => {
                        let mut one: Vec<(String, usize)> = Vec::new();
                        proof {
                            assert(crate::ast::call_args_wf(args));
                        }
                        self.visit_expression(e2);
                        if let Some(a) = self.current_type {
                            one.push(("".to_owned(), a));
                        }
                        proof {
                            assert forall|j: int|
                                0 <= j < one@.len() implies (#[trigger] one@[j]).1
                                < self.graph_view().nodes().len() by {}
                        }
                        one
                    },
                    FnCallArgs::Arguments(list) => {
                        proof {
                            assert(crate::ast::call_args_wf(args));
                            assert(crate::ast::arg_list_wf(list));
                        }
                        self.visit_call_args(list)
                    },
                };
                let ghost mid4 = *self;
                let _ = self.visit_fn_call(id, call_args);
                proof {
                    Self::lemma_mono_trans(pre, mid4, *self);
                    Self::lemma_mono_trans(*old(self), pre, *self);
                }
            },
        }
    }
}

impl ExprTypeChecker {
    /// An assignment requires the variable's type to match the assigned
    /// expression's; an assignment produces no value.
    pub fn visit_assignment(&mut self, lvalue: &Identifier, rv_n: Option<usize>)
        requires
            old(self).inv(),
            (match rv_n {
                Some(m) => m < old(self).graph_view().nodes().len(),
                None => true,
            }),
        ensures
            final(self).inv(),
            Self::mono(*old(self), *final(self)),
            final(self).errs() == old(self).errs(),
            final(self).current() is None,
            lvalue.state.is_assigned() && rv_n is Some ==> (match final(self).binding_node(
                lvalue.state.id(),
            ) {
                Some(lv) => final(self).graph_view().has_eq(
                    lv as int,
                    rv_n->0 as int,
                    InferenceSource::Assignment,
                ),
                None => false,
            }),
    {
        match (&lvalue.state, rv_n) {
            (IdState::Assigned(id), Some(r)) => {
                let lv = self.builder.get_id(&mut self.graph, id);
                let ghost mid = *self;
                self.graph.add_inference(lv, r, InferenceSource::Assignment);
                proof {
                    self.lemma_grow(mid);
                    mid.lemma_grow(*old(self));
                    Self::lemma_mono_trans(*old(self), mid, *self);
                }
            },
            _ => {
                proof {
                    Self::lemma_mono_refl(*old(self));
                }
            },
        }
        self.current_type = None;
    }

    /// A declaration requires the new binding's type to match the
    /// initializer, and the explicitly annotated type where one is given.
    pub fn visit_declaration(
        &mut self,
        ident: &Identifier,
        type_decl: &Option<crate::ast::TypeExpr>,
        value_n: Option<usize>,
    )
        requires
            old(self).inv(),
            (match value_n {
                Some(m) => m < old(self).graph_view().nodes().len(),
                None => true,
            }),
        ensures
            final(self).inv(),
            Self::mono(*old(self), *final(self)),
            final(self).current() is None,
            ident.state.is_assigned() ==> final(self).binding_node(ident.state.id()) is Some,
            ident.state.is_assigned() && value_n is Some ==> (match final(self).binding_node(
                ident.state.id(),
            ) {
                Some(bn) => final(self).graph_view().has_eq(
                    bn as int,
                    value_n->0 as int,
                    InferenceSource::Declaration,
                ),
                None => false,
            }),
            ident.state.is_assigned() ==> (match type_decl {
                Some(t) => (match crate::type_scope::name_to_prim(t.name@) {
                    Some(p) => (match final(self).binding_node(ident.state.id()) {
                        Some(bn) => final(self).graph_view().has_eq(
                            bn as int,
                            crate::type_scope::prim_node(p),
                            InferenceSource::ExplicitDecl,
                        ),
                        None => false,
                    }),
                    None => final(self).errs().len() == old(self).errs().len() + 1 && final(self).errs().last().kind is UnknownType && final(self).errs().last().name@
                        == t.name@,
                }),
                None => final(self).errs() == old(self).errs(),
            }),
    {
        let id = match &ident.state {
            IdState::Assigned(id) => id,
            IdState::Unassigned => {
                self.current_type = None;
                proof {
                    Self::lemma_mono_refl(*old(self));
                }
                return ;
            },
        };
        let var_ix = self.builder.get_id(&mut self.graph, id);
        let ghost mid0 = *self;
        if let Some(t) = type_decl {
            match self.builder.get_named_type(&t.name) {
                Some(ty_ix) => {
                    self.graph.add_inference(var_ix, ty_ix, InferenceSource::ExplicitDecl);
                    proof {
                        self.lemma_grow(mid0);
                    }
                },
                None => {
                    let err_name = t.name.clone();
                    self.errors.push(
                        CheckerError {
                            pos: t.pos,
                            name: err_name,
                            related: Vec::new(),
                            kind: ErrorKind::UnknownType,
                        },
                    );
                    proof {
                        self.lemma_grow(mid0);
                    }
                },
            }
        } else {
            proof {
                Self::lemma_mono_refl(*self);
            }
        }
        let ghost mid1 = *self;
        if let Some(v) = value_n {
            self.graph.add_inference(var_ix, v, InferenceSource::Declaration);
            proof {
                self.lemma_grow(mid1);
                if type_decl is Some && crate::type_scope::name_to_prim(
                    type_decl->0.name@,
                ) is Some {
                    mid1.graph_view().lemma_wf_facts();
                    Self::lemma_eq_mono(
                        mid1,
                        *self,
                        var_ix as int,
                        crate::type_scope::prim_node(
                            crate::type_scope::name_to_prim(type_decl->0.name@)->0,
                        ),
                        InferenceSource::ExplicitDecl,
                    );
                }
            }
        } else {
            proof {
                Self::lemma_mono_refl(mid1);
            }
        }
        self.current_type = None;
        proof {
            mid0.lemma_grow(*old(self));
            Self::lemma_mono_trans(*old(self), mid0, *self);
        }
    }

    /// A `return` requires the function's declared return type to match
    /// the returned expression, or unit when no value is returned.
    pub fn visit_return_stmt(&mut self, value_n: Option<usize>, has_value: bool)
        requires
            old(self).inv(),
            (match value_n {
                Some(m) => m < old(self).graph_view().nodes().len(),
                None => true,
            }),
        ensures
            final(self).inv(),
            Self::mono(*old(self), *final(self)),
            final(self).errs() == old(self).errs(),
            final(self).current() is None,
            final(self).ret_slot() == old(self).ret_slot(),
            old(self).ret_slot() is Some && has_value && value_n is Some ==> final(self).graph_view().has_eq(
                old(self).ret_slot()->0 as int,
                value_n->0 as int,
                InferenceSource::ExplicitReturn,
            ),
            old(self).ret_slot() is Some && !has_value ==> final(self).graph_view().has_eq(
                old(self).ret_slot()->0 as int,
                unit_node(),
                InferenceSource::ExplicitReturn,
            ),
    {
        let ghost pre = *self;
        match (self.return_ty, value_n, has_value) {
            (Some(ret), Some(v), true) => {
                self.graph.add_inference(ret, v, InferenceSource::ExplicitReturn);
                proof {
                    self.lemma_grow(pre);
                }
            },
            (Some(ret), _, false) => {
                self.graph.add_inference(ret, 2, InferenceSource::ExplicitReturn);
                proof {
                    self.lemma_grow(pre);
                }
            },
            _ => {
                proof {
                    Self::lemma_mono_refl(pre);
                }
            },
        }
        self.current_type = None;
    }

    /// What each statement form leaves behind: only a trailing expression
    /// statement carries a value out; every other form produces none.
    pub open spec fn stmt_visit_claim(pre: Self, post: Self, s: Statement) -> bool {
        match s {
            Statement::Expression(e) => Self::expr_visit_claim(pre, post, *e),
            Statement::DoBlock(_) => true,
            _ => post.current() is None,
        }
    }

    /// The post-state half of `stmt_visit_claim`, usable where the visit's
    /// pre-state is not nameable (the trailing statement of a block).
    pub open spec fn stmt_trailing_claim(post: Self, s: Statement) -> bool {
        match s {
            Statement::Expression(e) => (match *e {
                Expression::Literal { value, .. } => post.current() is Some
                    && post.graph_view().has_eq(
                    post.current()->0 as int,
                    literal_node(value),
                    InferenceSource::LiteralValue,
                ),
                Expression::UnaryOp { .. } => post.current() is Some
                    && post.graph_view().has_eq(
                    post.current()->0 as int,
                    num_node(),
                    InferenceSource::NumericOperator,
                ),
                _ => true,
            }),
            Statement::DoBlock(_) => true,
            _ => post.current() is None,
        }
    }

    pub fn visit_statement(&mut self, s: &Statement)
        requires
            old(self).inv(),
            stmt_wf(s),
        ensures
            final(self).inv(),
            Self::mono(*old(self), *final(self)),
            Self::stmt_visit_claim(*old(self), *final(self), *s),
            Self::stmt_trailing_claim(*final(self), *s),
        decreases s, 3int,
    {
        match s {
            Statement::Expression(e) => {
                self.visit_expression(e);
            },
            Statement::Declaration(d) => {
                self.visit_expression(&d.value);
                let vn = self.current_type;
                let ghost mid = *self;
                self.visit_declaration(&d.ident, &d.type_decl, vn);
                proof {
                    Self::lemma_mono_trans(*old(self), mid, *self);
                }
            },
            Statement::Assignment { lvalue, rvalue } => {
                self.visit_expression(rvalue);
                let rv = self.current_type;
                let ghost mid = *self;
                self.visit_assignment(lvalue, rv);
                proof {
                    Self::lemma_mono_trans(*old(self), mid, *self);
                }
            },
            Statement::DoBlock(b) => {
                self.visit_do_block(b);
            },
            Statement::IfBlock(ib) => {
                let _ = self.visit_if_block(ib);
            },
            Statement::Return { value, .. } => {
                match value {
                    Some(e) => {
                        self.visit_expression(e);
                        let vn = self.current_type;
                        let ghost mid = *self;
                        self.visit_return_stmt(vn, true);
                        proof {
                            Self::lemma_mono_trans(*old(self), mid, *self);
                        }
                    },
                    None => {
                        self.visit_return_stmt(None, false);
                    },
                }
            },
        }
    }

    /// Statements of a block in order; the block's value, if any, is the
    /// trailing expression's.
    pub fn visit_block(&mut self, b: &Block)
        requires
            old(self).inv(),
            block_wf(b),
        ensures
            final(self).inv(),
            Self::mono(*old(self), *final(self)),
            b.stmts@.len() == 0 ==> *final(self) == *old(self),
            b.stmts@.len() > 0 ==> Self::stmt_trailing_claim(*final(self), b.stmts@.last()),
        decreases b, 4int,
    {
        let mut i: usize = 0;
        proof {
            Self::lemma_mono_refl(*old(self));
        }
        while i < b.stmts.len()
            invariant
                self.inv(),
                Self::mono(*old(self), *self),
                block_wf(b),
                i <= b.stmts@.len(),
                i == 0 ==> *self == *old(self),
                i > 0 ==> Self::stmt_trailing_claim(*self, b.stmts@[i - 1]),
            decreases b.stmts@.len() - i,
        {
            let ghost mid = *self;
            proof {
                assert(stmt_wf(&b.stmts@[i as int]));
            }
            self.visit_statement(&b.stmts[i]);
            proof {
                Self::lemma_mono_trans(*old(self), mid, *self);
            }
            i = i + 1;
        }
    }

    pub fn visit_do_block(&mut self, b: &Block)
        requires
            old(self).inv(),
            block_wf(b),
        ensures
            final(self).inv(),
            Self::mono(*old(self), *final(self)),
        decreases b, 5int,
    {
        self.visit_block(b);
    }

    /// The statement form of `if`: every arm's condition must be boolean;
    /// each arm's body is checked in turn.  The ghost result records, arm
    /// by arm, the condition node that was constrained to `bool` (or `None`
    /// where the condition produced no type).
    pub fn visit_if_block(&mut self, ib: &IfBlock) -> (conds: Ghost<Seq<Option<usize>>>)
        requires
            old(self).inv(),
            forall|j: int| #![trigger ib.conditionals@[j]]
                0 <= j < ib.conditionals@.len() ==> conditional_wf(&ib.conditionals@[j]),
            (match &ib.else_block {
                Some(b) => block_wf(b),
                None => true,
            }),
        ensures
            final(self).inv(),
            Self::mono(*old(self), *final(self)),
            final(self).current() is None,
            conds@.len() == ib.conditionals@.len(),
            forall|k: int|
                0 <= k < conds@.len() ==> (match #[trigger] conds@[k] {
                    Some(c) => final(self).graph_view().has_eq(
                        c as int,
                        bool_node(),
                        InferenceSource::IfConditionalBool,
                    ),
                    None => true,
                }),
            forall|k: int| #![trigger ib.conditionals@[k]]
                0 <= k < ib.conditionals@.len() && ib.conditionals@[k].cond is Literal
                    ==> conds@[k] is Some,
        decreases ib, 4int,
    {
        let mut i: usize = 0;
        let ghost mut conds: Seq<Option<usize>> = Seq::empty();
        proof {
            Self::lemma_mono_refl(*old(self));
        }
        while i < ib.conditionals.len()
            invariant
                self.inv(),
                Self::mono(*old(self), *self),
                forall|j: int| #![trigger ib.conditionals@[j]]
                    0 <= j < ib.conditionals@.len() ==> conditional_wf(&ib.conditionals@[j]),
                i <= ib.conditionals@.len(),
                conds.len() == i,
                forall|k: int|
                    0 <= k < conds.len() ==> (match #[trigger] conds[k] {
                        Some(c) => self.graph_view().has_eq(
                            c as int,
                            bool_node(),
                            InferenceSource::IfConditionalBool,
                        ),
                        None => true,
                    }),
                forall|k: int| #![trigger ib.conditionals@[k]]
                    0 <= k < conds.len() && ib.conditionals@[k].cond is Literal ==> conds[
                        k
                    ] is Some,
            decreases ib.conditionals@.len() - i,
        {
            let ghost mid = *self;
            proof {
                assert(conditional_wf(&ib.conditionals@[i as int]));
            }
            let c = &ib.conditionals[i];
            self.visit_expression(&c.cond);
            let cn = self.current_type;
            let ghost mida = *self;
            if let Some(cnode) = cn {
                self.graph.add_inference(cnode, 0, InferenceSource::IfConditionalBool);
            }
            proof {
                self.lemma_grow(mida);
                Self::lemma_mono_trans(mid, mida, *self);
            }
            let ghost midb = *self;
            self.visit_block(&c.block);
            proof {
                Self::lemma_mono_trans(mid, midb, *self);
                Self::lemma_mono_trans(*old(self), mid, *self);
                midb.graph_view().lemma_wf_facts();
                assert forall|k: int|
                    0 <= k < conds.push(cn).len() implies (match #[trigger] conds.push(cn)[k] {
                    Some(c2) => self.graph_view().has_eq(
                        c2 as int,
                        bool_node(),
                        InferenceSource::IfConditionalBool,
                    ),
                    None => true,
                }) by {
                    if k < conds.len() {
                        assert(conds.push(cn)[k] == conds[k]);
                        match conds[k] {
                            Some(c2) => {
                                mid.graph_view().lemma_wf_facts();
                                Self::lemma_eq_mono(
                                    mid,
                                    *self,
                                    c2 as int,
                                    bool_node(),
                                    InferenceSource::IfConditionalBool,
                                );
                            },
                            None => {},
                        }
                    } else {
                        assert(conds.push(cn)[k] == cn);
                        match cn {
                            Some(c2) => {
                                Self::lemma_eq_mono(
                                    midb,
                                    *self,
                                    c2 as int,
                                    bool_node(),
                                    InferenceSource::IfConditionalBool,
                                );
                            },
                            None => {},
                        }
                    }
                }
                conds = conds.push(cn);
            }
            i = i + 1;
        }
        let ghost mid4 = *self;
        if let Some(b) = &ib.else_block {
            self.visit_block(b);
        }
        self.current_type = None;
        proof {
            Self::lemma_mono_trans(*old(self), mid4, *self);
            assert forall|k: int|
                0 <= k < conds.len() implies (match #[trigger] conds[k] {
                Some(c2) => self.graph_view().has_eq(
                    c2 as int,
                    bool_node(),
                    InferenceSource::IfConditionalBool,
                ),
                None => true,
            }) by {
                match conds[k] {
                    Some(c2) => {
                        mid4.graph_view().lemma_wf_facts();
                        Self::lemma_eq_mono(
                            mid4,
                            *self,
                            c2 as int,
                            bool_node(),
                            InferenceSource::IfConditionalBool,
                        );
                    },
                    None => {},
                }
            }
        }
        Ghost(conds)
    }

    /// One function declaration: the function's own variable node equals
    /// its concrete signature node; each parameter's variable node equals
    /// its declared type; the body is walked; and when the declared return
    /// type is not unit, the trailing expression is constrained to it.  A
    /// function whose header carries no id was flagged upstream and is
    /// skipped.
    pub fn visit_block_fn_decl(&mut self, f: &FnDeclaration) -> (trailing: Ghost<Option<usize>>)
        requires
            old(self).inv(),
            fn_wf(f),
        ensures
            final(self).inv(),
            Self::mono(*old(self), *final(self)),
            !f.ident.state.is_assigned() ==> final(self).graph_view() == old(self).graph_view()
                && final(self).errs() == old(self).errs(),
            f.ident.state.is_assigned() && decl_types_known(*f) && crate::type_scope::name_to_prim(
                f.ret_ty.name@,
            ) != Some(Primitive::Unit) && trailing@ is Some ==> (trailing@->0 as int)
                < final(self).graph_view().nodes().len() && final(self).graph_view().has_eq(
                trailing@->0 as int,
                crate::type_scope::prim_node(
                    crate::type_scope::name_to_prim(f.ret_ty.name@)->0,
                ),
                InferenceSource::ExplicitReturn,
            ),
            f.ident.state.is_assigned() && decl_types_known(*f) ==> exists|fi: int, si: int|
                is_var_node(final(self).graph_view(), fi, f.ident.state.id()) && is_sig_node(
                    final(self).graph_view(),
                    si,
                    *f,
                ) && #[trigger] final(self).graph_view().has_eq(
                    fi,
                    si,
                    InferenceSource::FunctionSignature,
                ),
            f.ident.state.is_assigned() && decl_types_known(*f) ==> (forall|k2: int|
                #![trigger f.params@[k2]]
                0 <= k2 < f.params@.len() && f.params@[k2].ident.state.is_assigned()
                    ==> exists|pn: int|
                    is_var_node(
                        final(self).graph_view(),
                        pn,
                        f.params@[k2].ident.state.id(),
                    ) && #[trigger] final(self).graph_view().has_eq(
                        pn,
                        crate::type_scope::prim_node(
                            crate::type_scope::name_to_prim(f.params@[k2].ty.name@)->0,
                        ),
                        InferenceSource::FnParameter,
                    )),
        decreases f, 6int,
    {
        let id = match &f.ident.state {
            IdState::Assigned(id) => id,
            IdState::Unassigned => {
                proof {
                    Self::lemma_mono_refl(*old(self));
                }
                return Ghost(None);
            },
        };
        let mut params: Vec<(String, Primitive)> = Vec::new();
        let mut j: usize = 0;
        while j < f.params.len()
            invariant
                self.inv(),
                *self == *old(self),
                f.ident.state.is_assigned(),
                j <= f.params@.len(),
                params@.len() == j,
                forall|k2: int| #![trigger params@[k2]]
                    0 <= k2 < j ==> params@[k2].0@ == f.params@[k2].ident.name@ && Some(
                        params@[k2].1,
                    ) == crate::type_scope::name_to_prim(f.params@[k2].ty.name@),
            decreases f.params@.len() - j,
        {
            let p = &f.params[j];
            match lookup_prim(&p.ty.name) {
                Some(prim) => {
                    let ghost params_pre = params@;
                    params.push((p.ident.name.clone(), prim));
                    proof {
                        assert forall|k2: int| #![trigger params@[k2]]
                            0 <= k2 < j + 1 implies params@[k2].0@ == f.params@[k2].ident.name@
                            && Some(params@[k2].1) == crate::type_scope::name_to_prim(
                            f.params@[k2].ty.name@,
                        ) by {
                            if k2 < j {
                                assert(params@[k2] == params_pre[k2]);
                            }
                        }
                    }
                },
                None => {
                    let err_name = p.ty.name.clone();
                    self.errors.push(
                        CheckerError {
                            pos: p.ty.pos,
                            name: err_name,
                            related: Vec::new(),
                            kind: ErrorKind::UnknownType,
                        },
                    );
                    proof {
                        assert(crate::type_scope::name_to_prim(
                            f.params@[j as int].ty.name@,
                        ) is None);
                        assert(!decl_types_known(*f));
                        self.lemma_grow(*old(self));
                    }
                    return Ghost(None);
                },
            }
            j = j + 1;
        }
        let ret_prim = match lookup_prim(&f.ret_ty.name) {
            Some(prim) => prim,
            None => {
                let err_name = f.ret_ty.name.clone();
                self.errors.push(
                    CheckerError {
                        pos: f.ret_ty.pos,
                        name: err_name,
                        related: Vec::new(),
                        kind: ErrorKind::UnknownType,
                    },
                );
                proof {
                    assert(!decl_types_known(*f));
                    self.lemma_grow(*old(self));
                }
                return Ghost(None);
            },
        };
        let ghost paramsv = params@;
        let fn_ix = self.builder.get_id(&mut self.graph, id);
        proof {
            assert(old(self).errs().is_prefix_of(self.errs()));
        }
        let ghost mid0 = *self;
        let sig_ix = self.graph.add_concrete(
            ConcreteType::Function(FnSignature { params, ret: ret_prim }),
        );
        self.graph.add_inference(fn_ix, sig_ix, InferenceSource::FunctionSignature);
        proof {
            self.lemma_grow(mid0);
            Self::lemma_mono_trans(*old(self), mid0, *self);
            assert(self.graph_view().nodes()[fn_ix as int] == mid0.graph_view().nodes()[
                fn_ix as int
            ]);
            assert(is_var_node(self.graph_view(), fn_ix as int, f.ident.state.id()));
            assert((match self.graph_view().nodes()[sig_ix as int] {
                TypeNode::Concrete(ct) => (match ct {
                    ConcreteType::Function(sg) => sg.params@ == paramsv && sg.ret == ret_prim,
                    _ => false,
                }),
                _ => false,
            }));
            assert(is_sig_node(self.graph_view(), sig_ix as int, *f));
        }
        let ghost mid1 = *self;
        let mut k: usize = 0;
        while k < f.params.len()
            invariant
                self.inv(),
                Self::mono(mid1, *self),
                k <= f.params@.len(),
                decl_types_known(*f) ==> (forall|k2: int| #![trigger f.params@[k2]]
                    0 <= k2 < k && f.params@[k2].ident.state.is_assigned() ==> exists|pn: int|
                        is_var_node(
                            self.graph_view(),
                            pn,
                            f.params@[k2].ident.state.id(),
                        ) && #[trigger] self.graph_view().has_eq(
                            pn,
                            crate::type_scope::prim_node(
                                crate::type_scope::name_to_prim(f.params@[k2].ty.name@)->0,
                            ),
                            InferenceSource::FnParameter,
                        )),
            decreases f.params@.len() - k,
        {
            let ghost mid2 = *self;
            let p = &f.params[k];
            match (&p.ident.state, lookup_prim(&p.ty.name)) {
                (IdState::Assigned(pid), Some(prim)) => {
                    let p_ix = self.builder.get_id(&mut self.graph, pid);
                    proof {
                        assert(mid2.errs().is_prefix_of(self.errs()));
                    }
                    let ghost mid3 = *self;
                    let ty_ix: usize = match prim {
                        Primitive::Bool => 0,
                        Primitive::Num => 1,
                        Primitive::Unit => 2,
                    };
                    self.graph.add_inference(p_ix, ty_ix, InferenceSource::FnParameter);
                    proof {
                        self.lemma_grow(mid3);
                        Self::lemma_mono_trans(mid2, mid3, *self);
                        Self::lemma_mono_trans(mid1, mid2, *self);
                        assert(self.graph_view().nodes()[p_ix as int] == mid3.graph_view().nodes()[
                            p_ix as int
                        ]);
                        assert(is_var_node(
                            self.graph_view(),
                            p_ix as int,
                            f.params@[k as int].ident.state.id(),
                        ));
                        if decl_types_known(*f) {
                            assert forall|k2: int| #![trigger f.params@[k2]]
                                0 <= k2 < k + 1 && f.params@[k2].ident.state.is_assigned() implies
                                exists|pn: int|
                                is_var_node(
                                    self.graph_view(),
                                    pn,
                                    f.params@[k2].ident.state.id(),
                                ) && #[trigger] self.graph_view().has_eq(
                                    pn,
                                    crate::type_scope::prim_node(
                                        crate::type_scope::name_to_prim(
                                            f.params@[k2].ty.name@,
                                        )->0,
                                    ),
                                    InferenceSource::FnParameter,
                                ) by {
                                if k2 < k {
                                    let pn0 = choose|pn: int|
                                        is_var_node(
                                            mid2.graph_view(),
                                            pn,
                                            f.params@[k2].ident.state.id(),
                                        ) && #[trigger] mid2.graph_view().has_eq(
                                            pn,
                                            crate::type_scope::prim_node(
                                                crate::type_scope::name_to_prim(
                                                    f.params@[k2].ty.name@,
                                                )->0,
                                            ),
                                            InferenceSource::FnParameter,
                                        );
                                    mid2.graph_view().lemma_wf_facts();
                                    Self::lemma_eq_mono(
                                        mid2,
                                        *self,
                                        pn0,
                                        crate::type_scope::prim_node(
                                            crate::type_scope::name_to_prim(
                                                f.params@[k2].ty.name@,
                                            )->0,
                                        ),
                                        InferenceSource::FnParameter,
                                    );
                                    assert(mid2.graph_view().nodes()
                                        == self.graph_view().nodes().subrange(
                                        0,
                                        mid2.graph_view().nodes().len() as int,
                                    ));
                                    assert(self.graph_view().nodes()[pn0]
                                        == mid2.graph_view().nodes()[pn0]);
                                } else {
                                    assert(self.graph_view().has_eq(
                                        p_ix as int,
                                        crate::type_scope::prim_node(
                                            crate::type_scope::name_to_prim(
                                                f.params@[k2].ty.name@,
                                            )->0,
                                        ),
                                        InferenceSource::FnParameter,
                                    ));
                                }
                            }
                        }
                    }
                },
                _ => {
                    proof {
                        Self::lemma_mono_refl(*self);
                        Self::lemma_mono_trans(mid1, mid2, *self);
                        if decl_types_known(*f) {
                            assert(crate::type_scope::name_to_prim(
                                f.params@[k as int].ty.name@,
                            ) is Some);
                            assert(!f.params@[k as int].ident.state.is_assigned());
                        }
                    }
                },
            }
            k = k + 1;
        }
        let ret_ix: usize = match ret_prim {
            Primitive::Bool => 0,
            Primitive::Num => 1,
            Primitive::Unit => 2,
        };
        self.return_ty = Some(ret_ix);
        self.current_type = None;
        let ghost mid5 = *self;
        self.visit_block(&f.block);
        let ghost mid6 = *self;
        let mut trailing: Ghost<Option<usize>> = Ghost(None);
        if !matches!(ret_prim, Primitive::Unit) {
            if let Some(cur) = self.current_type {
                self.graph.add_inference(cur, ret_ix, InferenceSource::ExplicitReturn);
                trailing = Ghost(Some(cur));
            }
        }
        self.return_ty = None;
        self.current_type = None;
        proof {
            if trailing@ is Some {
                assert(self.graph_view().has_eq(
                    trailing@->0 as int,
                    ret_ix as int,
                    InferenceSource::ExplicitReturn,
                ));
            }
            self.lemma_grow(mid6);
            Self::lemma_mono_trans(mid5, mid6, *self);
            Self::lemma_mono_trans(mid1, mid5, *self);
            Self::lemma_mono_trans(*old(self), mid1, *self);
            if decl_types_known(*f) {
                mid5.graph_view().lemma_wf_facts();
                assert(mid5.graph_view().nodes() == self.graph_view().nodes().subrange(
                    0,
                    mid5.graph_view().nodes().len() as int,
                ));
                assert(self.graph_view().nodes()[fn_ix as int] == mid5.graph_view().nodes()[
                    fn_ix as int
                ]);
                assert(self.graph_view().nodes()[sig_ix as int] == mid5.graph_view().nodes()[
                    sig_ix as int
                ]);
                assert(is_var_node(self.graph_view(), fn_ix as int, f.ident.state.id()));
                assert(is_sig_node(self.graph_view(), sig_ix as int, *f));
                mid1.graph_view().lemma_wf_facts();
                Self::lemma_eq_mono(
                    mid1,
                    *self,
                    fn_ix as int,
                    sig_ix as int,
                    InferenceSource::FunctionSignature,
                );
                assert forall|k2: int| #![trigger f.params@[k2]]
                    0 <= k2 < f.params@.len() && f.params@[k2].ident.state.is_assigned() implies
                    exists|pn: int|
                    is_var_node(
                        self.graph_view(),
                        pn,
                        f.params@[k2].ident.state.id(),
                    ) && #[trigger] self.graph_view().has_eq(
                        pn,
                        crate::type_scope::prim_node(
                            crate::type_scope::name_to_prim(f.params@[k2].ty.name@)->0,
                        ),
                        InferenceSource::FnParameter,
                    ) by {
                    let pn0 = choose|pn: int|
                        is_var_node(
                            mid5.graph_view(),
                            pn,
                            f.params@[k2].ident.state.id(),
                        ) && #[trigger] mid5.graph_view().has_eq(
                            pn,
                            crate::type_scope::prim_node(
                                crate::type_scope::name_to_prim(f.params@[k2].ty.name@)->0,
                            ),
                            InferenceSource::FnParameter,
                        );
                    Self::lemma_eq_mono(
                        mid5,
                        *self,
                        pn0,
                        crate::type_scope::prim_node(
                            crate::type_scope::name_to_prim(f.params@[k2].ty.name@)->0,
                        ),
                        InferenceSource::FnParameter,
                    );
                    assert(self.graph_view().nodes()[pn0] == mid5.graph_view().nodes()[pn0]);
                }
            }
        }
        trailing
    }

    /// Emit the equations of every function in the unit: each item whose
    /// header is assigned and whose annotations name known types ends up
    /// with its signature equation in the graph.
    pub fn visit_unit(&mut self, u: &Unit)
        requires
            old(self).inv(),
            unit_wf(u),
        ensures
            final(self).inv(),
            Self::mono(*old(self), *final(self)),
            u.items@.len() == 0 ==> *final(self) == *old(self),
            forall|k: int| #![trigger u.items@[k]]
                0 <= k < u.items@.len() && crate::resolve::item_fn(
                    u.items@[k],
                ).ident.state.is_assigned() && decl_types_known(crate::resolve::item_fn(
                    u.items@[k],
                )) ==> exists|fi: int, si: int|
                    is_var_node(
                        final(self).graph_view(),
                        fi,
                        crate::resolve::item_fn(u.items@[k]).ident.state.id(),
                    ) && is_sig_node(
                        final(self).graph_view(),
                        si,
                        crate::resolve::item_fn(u.items@[k]),
                    ) && #[trigger] final(self).graph_view().has_eq(
                        fi,
                        si,
                        InferenceSource::FunctionSignature,
                    ),
        decreases u,
    {
        let mut i: usize = 0;
        proof {
            Self::lemma_mono_refl(*old(self));
        }
        while i < u.items.len()
            invariant
                self.inv(),
                Self::mono(*old(self), *self),
                unit_wf(u),
                i <= u.items@.len(),
                i == 0 ==> *self == *old(self),
                forall|k: int| #![trigger u.items@[k]]
                    0 <= k < i && crate::resolve::item_fn(
                        u.items@[k],
                    ).ident.state.is_assigned() && decl_types_known(crate::resolve::item_fn(
                        u.items@[k],
                    )) ==> exists|fi: int, si: int|
                        is_var_node(
                            self.graph_view(),
                            fi,
                            crate::resolve::item_fn(u.items@[k]).ident.state.id(),
                        ) && is_sig_node(
                            self.graph_view(),
                            si,
                            crate::resolve::item_fn(u.items@[k]),
                        ) && #[trigger] self.graph_view().has_eq(
                            fi,
                            si,
                            InferenceSource::FunctionSignature,
                        ),
            decreases u.items@.len() - i,
        {
            let ghost mid = *self;
            proof {
                assert(item_wf(&u.items@[i as int]));
            }
            let Item::BlockFnDeclaration(f) = &u.items[i];
            let _ = self.visit_block_fn_decl(f);
            proof {
                Self::lemma_mono_trans(*old(self), mid, *self);
                assert(crate::resolve::item_fn(u.items@[i as int]) == *f);
                assert forall|k: int| #![trigger u.items@[k]]
                    0 <= k < i + 1 && crate::resolve::item_fn(
                    u.items@[k],
                ).ident.state.is_assigned() && decl_types_known(crate::resolve::item_fn(
                    u.items@[k],
                )) implies exists|fi: int, si: int|
                    is_var_node(
                        self.graph_view(),
                        fi,
                        crate::resolve::item_fn(u.items@[k]).ident.state.id(),
                    ) && is_sig_node(
                        self.graph_view(),
                        si,
                        crate::resolve::item_fn(u.items@[k]),
                    ) && #[trigger] self.graph_view().has_eq(
                        fi,
                        si,
                        InferenceSource::FunctionSignature,
                    ) by {
                    let g = crate::resolve::item_fn(u.items@[k]);
                    if k < i {
                        let (fi0, si0): (int, int) = choose|fi: int, si: int|
                            is_var_node(
                                mid.graph_view(),
                                fi,
                                g.ident.state.id(),
                            ) && is_sig_node(mid.graph_view(), si, g)
                                && #[trigger] mid.graph_view().has_eq(
                                fi,
                                si,
                                InferenceSource::FunctionSignature,
                            );
                        mid.graph_view().lemma_wf_facts();
                        Self::lemma_eq_mono(
                            mid,
                            *self,
                            fi0,
                            si0,
                            InferenceSource::FunctionSignature,
                        );
                        assert(mid.graph_view().nodes() == self.graph_view().nodes().subrange(
                            0,
                            mid.graph_view().nodes().len() as int,
                        ));
                        assert(self.graph_view().nodes()[fi0] == mid.graph_view().nodes()[fi0]);
                        assert(self.graph_view().nodes()[si0] == mid.graph_view().nodes()[si0]);
                    }
                }
            }
            i = i + 1;
        }
    }
}

} // verus!
