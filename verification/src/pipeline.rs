//! Stage runners: resolve, then check, then hand a fully typed unit on.
//!
//! A stage that collected any user diagnostic refuses to advance: the
//! pipeline surfaces the list and stops before the next pass.

use vstd::prelude::*;
use crate::ast::{unit_wf, Unit};
use crate::check::ExprTypeChecker;
use crate::diag::CheckerError;
use crate::graph::TypeGraph;
use crate::resolve::{unit_assigned_ids, unit_fresh, NameIdentifier};
use crate::solve::{concretify, NodeOutcome};
use crate::type_scope::TypeScopeBuilder;

verus! {

/// Why a unit failed to advance.
#[derive(Debug)]
pub enum CompilationError {
    ParseError(String),
    CheckerError(Vec<CheckerError>),
}

/// Runs name resolution over one parsed unit.
pub struct IdentifyRunner {
    name: String,
    unit: Unit,
}

impl IdentifyRunner {
    pub closed spec fn unit_view(&self) -> Unit {
        self.unit
    }

    pub fn new(unit: Unit, name: String) -> (r: IdentifyRunner)
        ensures
            r.unit_view() == unit,
    {
        IdentifyRunner { name, unit }
    }

    /// Assign ids and resolve references; refuse to advance on any
    /// diagnostic.  On a fresh unit every id assigned to the resulting tree
    /// is pairwise distinct, and a well-formed unit stays well-formed, so a
    /// verified caller can hand the result straight to the type stage.
    pub fn identify(self) -> (r: Result<CheckRunner, CompilationError>)
        ensures
            (match r {
                Ok(cr) => (unit_fresh(self.unit_view()) ==> unit_assigned_ids(
                    cr.unit_view(),
                ).no_duplicates()) && (unit_wf(&self.unit_view()) ==> unit_wf(&cr.unit_view())),
                Err(e) => e is CheckerError && e->CheckerError_0@.len() > 0,
            }),
            self.unit_view().items@.len() == 0 ==> r is Ok,
    {
        let mut resolver = NameIdentifier::new();
        let unit2 = resolver.check_unit(self.unit);
        if resolver.error_count() > 0 {
            Err(CompilationError::CheckerError(resolver.into_errors()))
        } else {
            Ok(CheckRunner { name: self.name, unit: unit2 })
        }
    }
}

/// Runs type checking and solving over a resolved unit.
pub struct CheckRunner {
    name: String,
    unit: Unit,
}

impl CheckRunner {
    pub closed spec fn unit_view(&self) -> Unit {
        self.unit
    }

    /// Emit the type equations, solve them, and hand on the typed unit.
    /// Refuses to advance on any diagnostic; on success every node of the
    /// inference graph appears in the final mapping with a concrete type.
    pub fn check(self) -> (r: Result<CheckedUnit, CompilationError>)
        requires
            unit_wf(&self.unit_view()),
        ensures
            (match r {
                Ok(cu) => forall|i: int| 0 <= i < cu.map_view().len() ==> cu.map_view()[i] is Resolved,
                Err(e) => e is CheckerError && e->CheckerError_0@.len() > 0,
            }),
            self.unit_view().items@.len() == 0 ==> r is Ok,
    {
        let builder = TypeScopeBuilder::with_primitives();
        let graph = TypeGraph::with_primitives();
        proof {
            assert(builder.coherent(graph.nodes()));
        }
        let mut tc = ExprTypeChecker::new(builder, graph);
        proof {
            assert(unit_wf(&self.unit));
        }
        tc.visit_unit(&self.unit);
        let parts = tc.into_parts();
        let graph2 = parts.1;
        let errors = parts.2;
        if errors.len() > 0 {
            return Err(CompilationError::CheckerError(errors));
        }
        let outcomes = concretify(&graph2);
        let mut type_errors: Vec<CheckerError> = Vec::new();
        let mut i: usize = 0;
        while i < outcomes.len()
            invariant
                i <= outcomes@.len(),
                forall|j: int| 0 <= j < i ==> outcomes@[j] is Resolved || type_errors@.len() > 0,
                (forall|j: int| 0 <= j < i ==> outcomes@[j] is Resolved) ==> type_errors@.len()
                    == 0,
            decreases outcomes@.len() - i,
        {
            match &outcomes[i] {
                NodeOutcome::Resolved(_) => {},
                NodeOutcome::NoType => {
                    type_errors.push(
                        CheckerError {
                            pos: 0,
                            name: String::new(),
                            related: Vec::new(),
                            kind: crate::diag::ErrorKind::Untyped,
                        },
                    );
                },
                NodeOutcome::Mismatch { expected, found, source } => {
                    type_errors.push(
                        CheckerError {
                            pos: 0,
                            name: String::new(),
                            related: Vec::new(),
                            kind: crate::diag::ErrorKind::TypeMismatch {
                                expected: expected.duplicate(),
                                found: found.duplicate(),
                                source: *source,
                            },
                        },
                    );
                },
            }
            i = i + 1;
        }
        if type_errors.len() > 0 {
            return Err(CompilationError::CheckerError(type_errors));
        }
        Ok(CheckedUnit { name: self.name, unit: self.unit, map: outcomes })
    }
}

/// A unit that passed every check, with its final node-to-type mapping for
/// code generation.
pub struct CheckedUnit {
    name: String,
    unit: Unit,
    map: Vec<NodeOutcome>,
}

impl CheckedUnit {
    pub closed spec fn map_view(&self) -> Seq<NodeOutcome> {
        self.map@
    }

    pub fn unit(&self) -> (r: &Unit) {
        &self.unit
    }

    pub fn type_map(&self) -> (r: &Vec<NodeOutcome>)
        ensures
            r@ == self.map_view(),
    {
        &self.map
    }

    pub fn unit_name(&self) -> (r: &String) {
        &self.name
    }
}

} // verus!
