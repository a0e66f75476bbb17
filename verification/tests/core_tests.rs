use protosnirk::ast::{
    Block, CallArg, Conditional, Declaration, Expression, FnCallArgs, FnDeclaration, FnParam,
    Identifier, IfBlock, Item, LiteralValue, Operator, Statement, TypeExpr, Unit,
};
use protosnirk::diag::ErrorKind;
use protosnirk::pipeline::{CompilationError, IdentifyRunner};
use protosnirk::resolve::NameIdentifier;
use protosnirk::scope::ScopeBuilder;
use protosnirk::scoped_id::{IdState, ScopedId};
use protosnirk::solve::NodeOutcome;
use protosnirk::types::{ConcreteType, InferenceSource, Primitive};

fn ident(pos: u32, name: &str) -> Identifier {
    Identifier::new(pos, name.to_string())
}

fn num(pos: u32, v: i64) -> Expression {
    Expression::Literal { pos, value: LiteralValue::Num(v) }
}

fn boolean(pos: u32, v: bool) -> Expression {
    Expression::Literal { pos, value: LiteralValue::Bool(v) }
}

fn var(pos: u32, name: &str) -> Expression {
    Expression::VarRef { ident: ident(pos, name) }
}

fn decl(pos: u32, name: &str, value: Expression) -> Statement {
    Statement::Declaration(Declaration {
        ident: ident(pos, name),
        type_decl: None,
        value: Box::new(value),
    })
}

fn unit_ty(pos: u32) -> TypeExpr {
    TypeExpr { pos, name: "()".to_string() }
}

fn num_ty(pos: u32) -> TypeExpr {
    TypeExpr { pos, name: "num".to_string() }
}

fn fn_item(pos: u32, name: &str, params: Vec<FnParam>, ret: TypeExpr, stmts: Vec<Statement>) -> Item {
    Item::BlockFnDeclaration(FnDeclaration {
        ident: ident(pos, name),
        params,
        ret_ty: ret,
        block: Block { stmts },
    })
}

fn assigned_id(st: &IdState) -> &ScopedId {
    match st {
        IdState::Assigned(id) => id,
        IdState::Unassigned => panic!("expected an assigned id"),
    }
}

fn collect_decl_ids(items: &[Item]) -> Vec<ScopedId> {
    let mut out = Vec::new();
    for item in items {
        let Item::BlockFnDeclaration(f) = item;
        if let IdState::Assigned(id) = &f.ident.state {
            out.push(id.snapshot());
        }
        for p in &f.params {
            if let IdState::Assigned(id) = &p.ident.state {
                out.push(id.snapshot());
            }
        }
        collect_block(&f.block, &mut out);
    }
    out
}

fn collect_block(b: &Block, out: &mut Vec<ScopedId>) {
    for s in &b.stmts {
        collect_stmt(s, out);
    }
}

fn collect_stmt(s: &Statement, out: &mut Vec<ScopedId>) {
    match s {
        Statement::Declaration(d) => {
            if let IdState::Assigned(id) = &d.ident.state {
                out.push(id.snapshot());
            }
        }
        Statement::DoBlock(b) => collect_block(b, out),
        Statement::IfBlock(ib) => {
            for c in &ib.conditionals {
                collect_block(&c.block, out);
            }
            if let Some(b) = &ib.else_block {
                collect_block(b, out);
            }
        }
        _ => {}
    }
}

fn resolve(unit: Unit) -> (Unit, NameIdentifier) {
    let mut r = NameIdentifier::new();
    let out = r.check_unit(unit);
    (out, r)
}

/// Uniqueness: every id handed out across headers, parameters, locals and
/// nested blocks is pairwise distinct.
#[test]
fn unique_ids_across_unit() {
    let unit = Unit {
        items: vec![
            fn_item(
                1,
                "main",
                vec![],
                unit_ty(2),
                vec![
                    decl(3, "a", num(4, 1)),
                    decl(5, "b", num(6, 2)),
                    Statement::DoBlock(Block { stmts: vec![decl(7, "c", num(8, 3))] }),
                    decl(9, "d", num(10, 4)),
                ],
            ),
            fn_item(
                11,
                "helper",
                vec![
                    FnParam { ident: ident(12, "x"), ty: num_ty(13) },
                    FnParam { ident: ident(14, "y"), ty: num_ty(15) },
                ],
                num_ty(16),
                vec![decl(17, "t", num(18, 5))],
            ),
        ],
    };
    let (out, r) = resolve(unit);
    assert_eq!(r.error_count(), 0);
    let ids = collect_decl_ids(&out.items);
    // two headers, two params, five locals
    assert_eq!(ids.len(), 9);
    for i in 0..ids.len() {
        for j in 0..ids.len() {
            if i != j {
                assert!(!ids[i].same_as(&ids[j]), "ids {} and {} collide", i, j);
            }
        }
    }
}

/// Shadowing: inside the nested block the name resolves to the inner id;
/// after the block closes it resolves to the outer id again.
#[test]
fn shadowing_resolves_nearest() {
    let unit = Unit {
        items: vec![fn_item(
            1,
            "main",
            vec![],
            unit_ty(2),
            vec![
                decl(3, "x", num(4, 1)),
                Statement::DoBlock(Block {
                    stmts: vec![decl(5, "x", num(6, 2)), decl(7, "inner", var(8, "x"))],
                }),
                decl(9, "outer", var(10, "x")),
            ],
        )],
    };
    let (out, r) = resolve(unit);
    assert_eq!(r.error_count(), 0);
    let Item::BlockFnDeclaration(f) = &out.items[0];
    let outer_x = match &f.block.stmts[0] {
        Statement::Declaration(d) => assigned_id(&d.ident.state),
        _ => unreachable!(),
    };
    let (inner_x, inner_ref) = match &f.block.stmts[1] {
        Statement::DoBlock(b) => {
            let ix = match &b.stmts[0] {
                Statement::Declaration(d) => assigned_id(&d.ident.state),
                _ => unreachable!(),
            };
            let ir = match &b.stmts[1] {
                Statement::Declaration(d) => match &*d.value {
                    Expression::VarRef { ident } => assigned_id(&ident.state),
                    _ => unreachable!(),
                },
                _ => unreachable!(),
            };
            (ix, ir)
        }
        _ => unreachable!(),
    };
    let outer_ref = match &f.block.stmts[2] {
        Statement::Declaration(d) => match &*d.value {
            Expression::VarRef { ident } => assigned_id(&ident.state),
            _ => unreachable!(),
        },
        _ => unreachable!(),
    };
    assert!(inner_ref.same_as(inner_x));
    assert!(!inner_ref.same_as(outer_x));
    assert!(outer_ref.same_as(outer_x));
    assert!(!outer_ref.same_as(inner_x));
}

/// The scope stack itself shadows and restores.
#[test]
fn scope_builder_shadowing() {
    let mut b = ScopeBuilder::new();
    b.new_scope();
    let outer = ScopedId::from_level(1);
    b.define_local("x".to_string(), outer.snapshot());
    b.new_scope();
    let inner = ScopedId::from_level(2);
    b.define_local("x".to_string(), inner.snapshot());
    let got = b.get(&"x".to_string()).expect("inner binding");
    assert!(got.same_as(&inner));
    b.pop();
    let got = b.get(&"x".to_string()).expect("outer binding");
    assert!(got.same_as(&outer));
    assert!(b.get(&"y".to_string()).is_none());
}

/// Duplicate rejection: the second declaration gets exactly one error and
/// no id; a third declaration of the same name errors independently.
#[test]
fn duplicate_declarations() {
    let unit = Unit {
        items: vec![fn_item(
            1,
            "main",
            vec![],
            unit_ty(2),
            vec![
                decl(3, "x", num(4, 1)),
                decl(5, "x", num(6, 2)),
                decl(7, "x", num(8, 3)),
            ],
        )],
    };
    let (out, r) = resolve(unit);
    assert_eq!(r.error_count(), 2);
    let Item::BlockFnDeclaration(f) = &out.items[0];
    match &f.block.stmts[0] {
        Statement::Declaration(d) => assert!(matches!(d.ident.state, IdState::Assigned(_))),
        _ => unreachable!(),
    }
    for k in 1..3 {
        match &f.block.stmts[k] {
            Statement::Declaration(d) => {
                assert!(matches!(d.ident.state, IdState::Unassigned));
            }
            _ => unreachable!(),
        }
    }
    let errs = r.into_errors();
    assert!(errs.iter().all(|e| matches!(e.kind, ErrorKind::DuplicateVariable)));
    assert!(errs.iter().all(|e| e.name == "x"));
}

/// Duplicate parameters are rejected; the later one keeps no id.
#[test]
fn duplicate_parameters() {
    let unit = Unit {
        items: vec![fn_item(
            1,
            "f",
            vec![
                FnParam { ident: ident(2, "a"), ty: num_ty(3) },
                FnParam { ident: ident(4, "a"), ty: num_ty(5) },
            ],
            unit_ty(6),
            vec![],
        )],
    };
    let (out, r) = resolve(unit);
    assert_eq!(r.error_count(), 1);
    let errs = r.into_errors();
    assert!(matches!(errs[0].kind, ErrorKind::DuplicateParameter));
    let Item::BlockFnDeclaration(f) = &out.items[0];
    assert!(matches!(f.params[0].ident.state, IdState::Assigned(_)));
    assert!(matches!(f.params[1].ident.state, IdState::Unassigned));
}

/// Duplicate top-level function names are rejected once.
#[test]
fn duplicate_functions() {
    let unit = Unit {
        items: vec![
            fn_item(1, "f", vec![], unit_ty(2), vec![]),
            fn_item(3, "f", vec![], unit_ty(4), vec![]),
        ],
    };
    let (out, r) = resolve(unit);
    assert_eq!(r.error_count(), 1);
    let errs = r.into_errors();
    assert!(matches!(errs[0].kind, ErrorKind::DuplicateFunction));
    let Item::BlockFnDeclaration(f1) = &out.items[1];
    assert!(matches!(f1.ident.state, IdState::Unassigned));
}

/// An unknown callee yields exactly one error and its arguments are left
/// unvisited.
#[test]
fn unknown_function_call() {
    let unit = Unit {
        items: vec![fn_item(
            1,
            "main",
            vec![],
            unit_ty(2),
            vec![
                decl(3, "a", num(4, 1)),
                Statement::Expression(Box::new(Expression::FnCall {
                    ident: ident(5, "foo"),
                    args: FnCallArgs::Arguments(vec![CallArg {
                        name: ident(6, "a"),
                        value: None,
                    }]),
                })),
            ],
        )],
    };
    let (out, r) = resolve(unit);
    assert_eq!(r.error_count(), 1);
    let Item::BlockFnDeclaration(f) = &out.items[0];
    match &f.block.stmts[1] {
        Statement::Expression(e) => match &**e {
            Expression::FnCall { ident: ci, args } => {
                assert!(matches!(ci.state, IdState::Unassigned));
                match args {
                    FnCallArgs::Arguments(list) => {
                        // the shorthand argument was not resolved
                        assert!(matches!(list[0].name.state, IdState::Unassigned));
                    }
                    _ => unreachable!(),
                }
            }
            _ => unreachable!(),
        },
        _ => unreachable!(),
    }
    let errs = r.into_errors();
    assert!(matches!(errs[0].kind, ErrorKind::UnknownFunction));
    assert_eq!(errs[0].name, "foo");
}

/// A known callee has its id attached and its arguments resolved.
#[test]
fn known_function_call_resolves() {
    let unit = Unit {
        items: vec![
            fn_item(1, "callee", vec![], unit_ty(2), vec![]),
            fn_item(
                3,
                "main",
                vec![],
                unit_ty(4),
                vec![Statement::Expression(Box::new(Expression::FnCall {
                    ident: ident(5, "callee"),
                    args: FnCallArgs::SingleExpr(Box::new(num(6, 1))),
                }))],
            ),
        ],
    };
    let (out, r) = resolve(unit);
    assert_eq!(r.error_count(), 0);
    let Item::BlockFnDeclaration(callee) = &out.items[0];
    let callee_id = assigned_id(&callee.ident.state);
    let Item::BlockFnDeclaration(main) = &out.items[1];
    match &main.block.stmts[0] {
        Statement::Expression(e) => match &**e {
            Expression::FnCall { ident: ci, .. } => {
                assert!(assigned_id(&ci.state).same_as(callee_id));
            }
            _ => unreachable!(),
        },
        _ => unreachable!(),
    }
}

/// Idempotence guard: an item header that already carries an id is left
/// whole — no new id, no error, no table entry.
#[test]
fn rerun_is_noop_for_assigned_header() {
    let mut r = NameIdentifier::new();
    let f = FnDeclaration {
        ident: Identifier {
            pos: 1,
            name: "done".to_string(),
            state: IdState::Assigned(ScopedId::from_level(7)),
        },
        params: vec![],
        ret_ty: unit_ty(2),
        block: Block { stmts: vec![] },
    };
    let (f2, assigned_here) = r.identify_item_header(f);
    assert!(!assigned_here);
    assert_eq!(r.error_count(), 0);
    let id = assigned_id(&f2.ident.state);
    assert!(id.same_as(&ScopedId::from_level(7)));
}

/// Re-running the whole pass over an already-identified unit adds no
/// errors and keeps every id.
#[test]
fn rerun_unit_is_quiet() {
    let unit = Unit {
        items: vec![fn_item(
            1,
            "main",
            vec![FnParam { ident: ident(2, "p"), ty: num_ty(3) }],
            unit_ty(4),
            vec![decl(5, "x", num(6, 1))],
        )],
    };
    let (out, r) = resolve(unit);
    assert_eq!(r.error_count(), 0);
    let before = collect_decl_ids(&out.items);
    let (out2, r2) = resolve(out);
    assert_eq!(r2.error_count(), 0);
    let after = collect_decl_ids(&out2.items);
    assert_eq!(before.len(), after.len());
    for (a, b) in before.iter().zip(after.iter()) {
        assert!(a.same_as(b));
    }
}

fn run_pipeline(unit: Unit) -> Result<Vec<NodeOutcome>, CompilationError> {
    let cr = IdentifyRunner::new(unit, "test".to_string()).identify()?;
    let cu = cr.check()?;
    Ok(cu.type_map().iter().map(|o| clone_outcome(o)).collect())
}

fn clone_outcome(o: &NodeOutcome) -> NodeOutcome {
    match o {
        NodeOutcome::Resolved(t) => NodeOutcome::Resolved(t.duplicate()),
        NodeOutcome::NoType => NodeOutcome::NoType,
        NodeOutcome::Mismatch { expected, found, source } => NodeOutcome::Mismatch {
            expected: expected.duplicate(),
            found: found.duplicate(),
            source: *source,
        },
    }
}

fn is_prim(o: &NodeOutcome, p: Primitive) -> bool {
    matches!(o, NodeOutcome::Resolved(ConcreteType::Prim(q)) if *q == p)
}

/// Type soundness for literals: a boolean literal resolves to `bool`, a
/// numeric literal to the numeric primitive, a valueless literal to unit.
#[test]
fn literal_types_resolve() {
    let unit = Unit {
        items: vec![fn_item(
            1,
            "main",
            vec![],
            unit_ty(2),
            vec![
                Statement::Expression(Box::new(boolean(3, true))),
                Statement::Expression(Box::new(num(4, 42))),
                Statement::Expression(Box::new(Expression::Literal {
                    pos: 5,
                    value: LiteralValue::Unit,
                })),
            ],
        )],
    };
    let map = run_pipeline(unit).expect("clean unit");
    // nodes 0..2 are the primitives, 3 the function, 4 its signature;
    // the three literal nodes follow in visiting order
    assert!(is_prim(&map[5], Primitive::Bool));
    assert!(is_prim(&map[6], Primitive::Num));
    assert!(is_prim(&map[7], Primitive::Unit));
}

/// Operator typing: `1 + 2` makes both operands and the result numeric.
#[test]
fn addition_is_numeric() {
    let unit = Unit {
        items: vec![fn_item(
            1,
            "main",
            vec![],
            unit_ty(2),
            vec![Statement::Expression(Box::new(Expression::BinaryOp {
                pos: 3,
                op: Operator::Addition,
                left: Box::new(num(4, 1)),
                right: Box::new(num(5, 2)),
            }))],
        )],
    };
    let map = run_pipeline(unit).expect("clean unit");
    assert!(is_prim(&map[5], Primitive::Num));
    assert!(is_prim(&map[6], Primitive::Num));
    assert!(is_prim(&map[7], Primitive::Num));
}

/// Operator typing: `1 < 2` has numeric operands and a boolean result.
#[test]
fn comparison_is_boolean() {
    let unit = Unit {
        items: vec![fn_item(
            1,
            "main",
            vec![],
            unit_ty(2),
            vec![Statement::Expression(Box::new(Expression::BinaryOp {
                pos: 3,
                op: Operator::LessThan,
                left: Box::new(num(4, 1)),
                right: Box::new(num(5, 2)),
            }))],
        )],
    };
    let map = run_pipeline(unit).expect("clean unit");
    assert!(is_prim(&map[5], Primitive::Num));
    assert!(is_prim(&map[6], Primitive::Num));
    assert!(is_prim(&map[7], Primitive::Bool));
}

/// Operator typing: comparing incompatible concrete types is an error.
#[test]
fn equality_of_incompatible_types_errors() {
    let unit = Unit {
        items: vec![fn_item(
            1,
            "main",
            vec![],
            unit_ty(2),
            vec![Statement::Expression(Box::new(Expression::BinaryOp {
                pos: 3,
                op: Operator::Equality,
                left: Box::new(boolean(4, true)),
                right: Box::new(num(5, 1)),
            }))],
        )],
    };
    match run_pipeline(unit) {
        Err(CompilationError::CheckerError(errs)) => {
            assert!(errs.iter().any(|e| matches!(e.kind, ErrorKind::TypeMismatch { .. })));
        }
        _ => panic!("expected a type mismatch"),
    }
}

/// If-expression agreement: numeric branches pass; mixed branches are a
/// mismatch whose justification is the branches-must-agree rule.
#[test]
fn if_expression_branches() {
    let good = Unit {
        items: vec![fn_item(
            1,
            "main",
            vec![],
            unit_ty(2),
            vec![Statement::Expression(Box::new(Expression::IfExpr {
                pos: 3,
                cond: Box::new(boolean(4, true)),
                true_expr: Box::new(num(5, 1)),
                else_expr: Box::new(num(6, 2)),
            }))],
        )],
    };
    assert!(run_pipeline(good).is_ok());

    let bad = Unit {
        items: vec![fn_item(
            1,
            "main",
            vec![],
            unit_ty(2),
            vec![Statement::Expression(Box::new(Expression::IfExpr {
                pos: 3,
                cond: Box::new(boolean(4, true)),
                true_expr: Box::new(num(5, 1)),
                else_expr: Box::new(boolean(6, true)),
            }))],
        )],
    };
    match run_pipeline(bad) {
        Err(CompilationError::CheckerError(errs)) => {
            assert!(errs.iter().any(|e| matches!(
                e.kind,
                ErrorKind::TypeMismatch { source: InferenceSource::IfBranchesSame, .. }
            )));
        }
        _ => panic!("expected a branch mismatch"),
    }
}

/// The condition of any if-construct must be boolean.
#[test]
fn if_condition_must_be_boolean() {
    let bad = Unit {
        items: vec![fn_item(
            1,
            "main",
            vec![],
            unit_ty(2),
            vec![Statement::IfBlock(IfBlock {
                pos: 3,
                conditionals: vec![Conditional {
                    cond: num(4, 1),
                    block: Block { stmts: vec![] },
                }],
                else_block: None,
            })],
        )],
    };
    match run_pipeline(bad) {
        Err(CompilationError::CheckerError(errs)) => {
            assert!(errs.iter().any(|e| matches!(e.kind, ErrorKind::TypeMismatch { .. })));
        }
        _ => panic!("expected a condition mismatch"),
    }
}

/// Call typing: a declared function called with a wrongly typed argument
/// yields a mismatch justified as a call argument.
#[test]
fn call_argument_mismatch() {
    let unit = Unit {
        items: vec![
            fn_item(
                1,
                "g",
                vec![FnParam { ident: ident(2, "x"), ty: num_ty(3) }],
                num_ty(4),
                vec![Statement::Return { pos: 5, value: Some(Box::new(var(6, "x"))) }],
            ),
            fn_item(
                7,
                "main",
                vec![],
                unit_ty(8),
                vec![Statement::Expression(Box::new(Expression::FnCall {
                    ident: ident(9, "g"),
                    args: FnCallArgs::SingleExpr(Box::new(boolean(10, true))),
                }))],
            ),
        ],
    };
    match run_pipeline(unit) {
        Err(CompilationError::CheckerError(errs)) => {
            assert!(errs.iter().any(|e| matches!(
                e.kind,
                ErrorKind::TypeMismatch { source: InferenceSource::CallArgument, .. }
            )));
        }
        _ => panic!("expected a call-argument mismatch"),
    }
}

/// A well-typed call resolves its result to the declared return type.
#[test]
fn call_result_type() {
    let unit = Unit {
        items: vec![
            fn_item(
                1,
                "g",
                vec![FnParam { ident: ident(2, "x"), ty: num_ty(3) }],
                num_ty(4),
                vec![Statement::Return { pos: 5, value: Some(Box::new(var(6, "x"))) }],
            ),
            fn_item(
                7,
                "main",
                vec![],
                num_ty(8),
                vec![Statement::Expression(Box::new(Expression::FnCall {
                    ident: ident(9, "g"),
                    args: FnCallArgs::SingleExpr(Box::new(num(10, 5))),
                }))],
            ),
        ],
    };
    let map = run_pipeline(unit).expect("clean unit");
    // every node of a successful run is resolved
    assert!(map.iter().all(|o| matches!(o, NodeOutcome::Resolved(_))));
}

/// Solver totality: on a successful run every node of the graph appears in
/// the mapping with a concrete type; on a failing run each offending node
/// is the origin of a diagnostic.
#[test]
fn solver_totality() {
    let unit = Unit {
        items: vec![fn_item(
            1,
            "main",
            vec![],
            unit_ty(2),
            vec![
                decl(3, "a", num(4, 1)),
                decl(5, "b", var(6, "a")),
            ],
        )],
    };
    let map = run_pipeline(unit).expect("clean unit");
    assert!(map.len() >= 3);
    assert!(map.iter().all(|o| matches!(o, NodeOutcome::Resolved(_))));

    let bad = Unit {
        items: vec![fn_item(
            1,
            "main",
            vec![],
            unit_ty(2),
            vec![Statement::Expression(Box::new(Expression::BinaryOp {
                pos: 3,
                op: Operator::Equality,
                left: Box::new(boolean(4, true)),
                right: Box::new(num(5, 1)),
            }))],
        )],
    };
    match run_pipeline(bad) {
        Err(CompilationError::CheckerError(errs)) => assert!(!errs.is_empty()),
        _ => panic!("expected diagnostics"),
    }
}

/// Declarations carry their initializer's type to the binding, and an
/// explicit annotation that disagrees with the initializer is a mismatch.
#[test]
fn declaration_typing() {
    let bad = Unit {
        items: vec![fn_item(
            1,
            "main",
            vec![],
            unit_ty(2),
            vec![Statement::Declaration(Declaration {
                ident: ident(3, "x"),
                type_decl: Some(TypeExpr { pos: 4, name: "bool".to_string() }),
                value: Box::new(num(5, 1)),
            })],
        )],
    };
    match run_pipeline(bad) {
        Err(CompilationError::CheckerError(errs)) => {
            assert!(errs.iter().any(|e| matches!(e.kind, ErrorKind::TypeMismatch { .. })));
        }
        _ => panic!("expected a declaration mismatch"),
    }
}

/// An unknown type annotation is reported.
#[test]
fn unknown_type_name() {
    let bad = Unit {
        items: vec![fn_item(
            1,
            "main",
            vec![],
            TypeExpr { pos: 2, name: "mystery".to_string() },
            vec![],
        )],
    };
    match run_pipeline(bad) {
        Err(CompilationError::CheckerError(errs)) => {
            assert!(matches!(errs[0].kind, ErrorKind::UnknownType));
            assert_eq!(errs[0].name, "mystery");
        }
        _ => panic!("expected an unknown-type error"),
    }
}

/// An empty unit sails through with an empty mapping but the primitive
/// nodes resolved.
#[test]
fn empty_unit() {
    let map = run_pipeline(Unit { items: vec![] }).expect("empty unit");
    assert_eq!(map.len(), 3);
    assert!(is_prim(&map[0], Primitive::Bool));
    assert!(is_prim(&map[1], Primitive::Num));
    assert!(is_prim(&map[2], Primitive::Unit));
}

/// An unresolved plain variable reference is left silent by name
/// resolution (the documented open decision), so a binding initialized
/// from one reaches the solver with no constraint and is reported as
/// untyped rather than dropped.
#[test]
fn unresolved_variable_surfaces_as_untyped() {
    let unit = Unit {
        items: vec![fn_item(
            1,
            "main",
            vec![],
            unit_ty(2),
            vec![decl(3, "x", var(4, "y"))],
        )],
    };
    match run_pipeline(unit) {
        Err(CompilationError::CheckerError(errs)) => {
            assert!(errs.iter().any(|e| matches!(e.kind, ErrorKind::Untyped)));
        }
        _ => panic!("expected an untyped diagnostic"),
    }
}

/// Named arguments are matched to parameters by name.
#[test]
fn named_argument_call() {
    let unit = Unit {
        items: vec![
            fn_item(
                1,
                "g",
                vec![
                    FnParam { ident: ident(2, "a"), ty: num_ty(3) },
                    FnParam { ident: ident(4, "b"), ty: TypeExpr { pos: 5, name: "bool".to_string() } },
                ],
                num_ty(6),
                vec![Statement::Return { pos: 7, value: Some(Box::new(var(8, "a"))) }],
            ),
            fn_item(
                9,
                "main",
                vec![],
                num_ty(10),
                vec![Statement::Expression(Box::new(Expression::FnCall {
                    ident: ident(11, "g"),
                    args: FnCallArgs::Arguments(vec![
                        CallArg { name: ident(12, "a"), value: Some(Box::new(num(13, 1))) },
                        CallArg { name: ident(14, "b"), value: Some(Box::new(boolean(15, true))) },
                    ]),
                }))],
            ),
        ],
    };
    let map = run_pipeline(unit).expect("clean unit");
    assert!(map.iter().all(|o| matches!(o, NodeOutcome::Resolved(_))));
}

/// Parameter ids extend the function header's id by one level, in
/// declaration order: parameter k of a function with id F carries F ++ [k].
#[test]
fn param_ids_follow_declaration_order() {
    let unit = Unit {
        items: vec![fn_item(
            1,
            "f",
            vec![
                FnParam { ident: ident(2, "a"), ty: num_ty(3) },
                FnParam { ident: ident(4, "b"), ty: num_ty(5) },
                FnParam { ident: ident(6, "c"), ty: num_ty(7) },
            ],
            unit_ty(8),
            vec![],
        )],
    };
    let (out, r) = resolve(unit);
    assert_eq!(r.error_count(), 0);
    let Item::BlockFnDeclaration(f) = &out.items[0];
    let fid = assigned_id(&f.ident.state);
    // the first unit gets level 1, its first item index 0: F == [1, 0]
    let mut expected_f = ScopedId::from_level(1);
    expected_f.push();
    assert!(fid.same_as(&expected_f));
    for (k, p) in f.params.iter().enumerate() {
        let pid = assigned_id(&p.ident.state);
        let mut expected = fid.snapshot();
        expected.push();
        for _ in 0..k {
            expected.increment();
        }
        assert!(pid.same_as(&expected), "param {} id mismatch", k);
    }
}

/// Re-running the unit pass over a fully identified unit changes nothing.
#[test]
fn rerun_identified_unit_is_noop() {
    let unit = Unit {
        items: vec![fn_item(
            1,
            "f",
            vec![FnParam { ident: ident(2, "a"), ty: num_ty(3) }],
            unit_ty(4),
            vec![decl(5, "x", num(6, 1))],
        )],
    };
    let (out, r) = resolve(unit);
    assert_eq!(r.error_count(), 0);
    let before = collect_decl_ids(&out.items);
    let mut r2 = NameIdentifier::new();
    let out2 = r2.check_unit(out);
    assert_eq!(r2.error_count(), 0);
    let after = collect_decl_ids(&out2.items);
    assert_eq!(before.len(), after.len());
    for (a, b) in before.iter().zip(after.iter()) {
        assert!(a.same_as(b));
    }
}

/// The id-space guard: a fresh resolver has room and is not exhausted.
#[test]
fn resolver_not_exhausted() {
    let (_, r) = resolve(Unit { items: vec![] });
    assert!(!r.id_space_exhausted());
}
