//! The abstract syntax tree the two passes annotate.
//!
//! A closed union of node kinds with exhaustive matching per pass, as the
//! checks require.  Identifier nodes carry a mutable assignment slot
//! ([`IdState`]), initialized to `Unassigned`; name resolution freezes a
//! [`crate::scoped_id::ScopedId`] snapshot onto it.

use vstd::prelude::*;
use crate::scoped_id::IdState;

verus! {

/// An identifier occurrence: its source position, its text, and the slot
/// that name resolution fills.
#[derive(Debug)]
pub struct Identifier {
    pub pos: u32,
    pub name: String,
    pub state: IdState,
}

impl Identifier {
    pub fn new(pos: u32, name: String) -> (r: Identifier)
        ensures
            r.pos == pos,
            r.name == name,
            !r.state.is_assigned(),
    {
        Identifier { pos, name, state: IdState::Unassigned }
    }
}

/// A literal's value.  The numeric literal is the language's single numeric
/// primitive.
#[derive(Debug)]
pub enum LiteralValue {
    Bool(bool),
    Num(i64),
    Unit,
}

/// Every unary and binary operator of the grammar, plus the placeholder for
/// user-defined operators, which no checked position may contain.
#[derive(Debug, Clone, Copy, PartialEq, Eq, Structural)]
pub enum Operator {
    Addition,
    Subtraction,
    Multiplication,
    Division,
    Modulus,
    Equality,
    NonEquality,
    LessThan,
    GreaterThan,
    LessThanEquals,
    GreaterThanEquals,
    Custom,
}

/// A named type annotation, e.g. `bool`, `num` or `()`.
#[derive(Debug)]
pub struct TypeExpr {
    pub pos: u32,
    pub name: String,
}

#[derive(Debug)]
pub enum Expression {
    Literal { pos: u32, value: LiteralValue },
    VarRef { ident: Identifier },
    UnaryOp { pos: u32, op: Operator, inner: Box<Expression> },
    BinaryOp { pos: u32, op: Operator, left: Box<Expression>, right: Box<Expression> },
    IfExpr {
        pos: u32,
        cond: Box<Expression>,
        true_expr: Box<Expression>,
        else_expr: Box<Expression>,
    },
    FnCall { ident: Identifier, args: FnCallArgs },
}

/// A call site's arguments: one positional expression, or a named list.
#[derive(Debug)]
pub enum FnCallArgs {
    SingleExpr(Box<Expression>),
    Arguments(Vec<CallArg>),
}

/// One named argument.  `value: None` is the implicit-name shorthand: the
/// name itself must resolve as a variable reference in the caller's scope.
#[derive(Debug)]
pub struct CallArg {
    pub name: Identifier,
    pub value: Option<Box<Expression>>,
}

#[derive(Debug)]
pub enum Statement {
    Expression(Box<Expression>),
    Declaration(Declaration),
    Assignment { lvalue: Identifier, rvalue: Box<Expression> },
    DoBlock(Block),
    IfBlock(IfBlock),
    Return { pos: u32, value: Option<Box<Expression>> },
}

/// `let name [: ty] = value`.  The initializer is resolved before the name
/// becomes visible, so a binding is never visible to its own initializer.
#[derive(Debug)]
pub struct Declaration {
    pub ident: Identifier,
    pub type_decl: Option<TypeExpr>,
    pub value: Box<Expression>,
}

#[derive(Debug)]
pub struct Block {
    pub stmts: Vec<Statement>,
}

/// One `if`/`else if` arm: a condition and its body.
#[derive(Debug)]
pub struct Conditional {
    pub cond: Expression,
    pub block: Block,
}

/// The statement form of `if`: a list of arms and an optional `else` body.
#[derive(Debug)]
pub struct IfBlock {
    pub pos: u32,
    pub conditionals: Vec<Conditional>,
    pub else_block: Option<Block>,
}

/// One function parameter with its declared type.
#[derive(Debug)]
pub struct FnParam {
    pub ident: Identifier,
    pub ty: TypeExpr,
}

/// `fn name(params) -> ret block`.
#[derive(Debug)]
pub struct FnDeclaration {
    pub ident: Identifier,
    pub params: Vec<FnParam>,
    pub ret_ty: TypeExpr,
    pub block: Block,
}

/// A top-level item.
#[derive(Debug)]
pub enum Item {
    BlockFnDeclaration(FnDeclaration),
}

/// A compilation unit: the list of top-level items.
#[derive(Debug)]
pub struct Unit {
    pub items: Vec<Item>,
}

/// No checked position may hold the user-defined-operator placeholder: the
/// operator dispatch of the type pass is exhaustive over the real operators,
/// and meeting `Custom` there would be an internal-consistency failure, so
/// the pass requires trees free of it.
pub open spec fn expr_wf(e: &Expression) -> bool
    decreases e,
{
    match e {
        Expression::Literal { .. } => true,
        Expression::VarRef { .. } => true,
        Expression::UnaryOp { op, inner, .. } => {
            &&& (op == Operator::Addition || op == Operator::Subtraction)
            &&& expr_wf(inner)
        },
        Expression::BinaryOp { op, left, right, .. } => {
            &&& op != Operator::Custom
            &&& expr_wf(left)
            &&& expr_wf(right)
        },
        Expression::IfExpr { cond, true_expr, else_expr, .. } => {
            &&& expr_wf(cond)
            &&& expr_wf(true_expr)
            &&& expr_wf(else_expr)
        },
        Expression::FnCall { args, .. } => call_args_wf(args),
    }
}

pub open spec fn call_args_wf(a: &FnCallArgs) -> bool
    decreases a,
{
    match a {
        FnCallArgs::SingleExpr(inner) => expr_wf(inner),
        FnCallArgs::Arguments(list) => arg_list_wf(list),
    }
}

pub open spec fn arg_list_wf(list: &Vec<CallArg>) -> bool
    decreases list,
{
    forall|i: int| #![trigger list@[i]] 0 <= i < list@.len() ==> arg_wf(list@[i])
}

/// Instantiate a well-formed argument list at one index.
pub proof fn lemma_arg_list_wf_index(list: &Vec<CallArg>, i: int)
    requires
        arg_list_wf(list),
        0 <= i < list@.len(),
    ensures
        arg_wf(list@[i]),
{
    reveal_with_fuel(arg_list_wf, 2);
    assert(arg_wf(list@[i]));
}

pub open spec fn arg_wf(a: CallArg) -> bool
    decreases a,
{
    match a.value {
        Some(e) => expr_wf(&e),
        None => true,
    }
}

pub open spec fn stmt_wf(s: &Statement) -> bool
    decreases s,
{
    match s {
        Statement::Expression(e) => expr_wf(e),
        Statement::Declaration(d) => expr_wf(&d.value),
        Statement::Assignment { rvalue, .. } => expr_wf(rvalue),
        Statement::DoBlock(b) => block_wf(b),
        Statement::IfBlock(ib) => {
            &&& (forall|i: int| #![trigger ib.conditionals@[i]]
                0 <= i < ib.conditionals@.len() ==> conditional_wf(&ib.conditionals@[i]))
            &&& match &ib.else_block {
                Some(b) => block_wf(b),
                None => true,
            }
        },
        Statement::Return { value, .. } => match value {
            Some(e) => expr_wf(e),
            None => true,
        },
    }
}

pub open spec fn conditional_wf(c: &Conditional) -> bool
    decreases c,
{
    &&& expr_wf(&c.cond)
    &&& block_wf(&c.block)
}

pub open spec fn block_wf(b: &Block) -> bool
    decreases b,
{
    forall|i: int| #![trigger b.stmts@[i]] 0 <= i < b.stmts@.len() ==> stmt_wf(&b.stmts@[i])
}

pub open spec fn fn_wf(f: &FnDeclaration) -> bool {
    block_wf(&f.block)
}

pub open spec fn item_wf(it: &Item) -> bool {
    match it {
        Item::BlockFnDeclaration(f) => fn_wf(f),
    }
}

pub open spec fn unit_wf(u: &Unit) -> bool {
    forall|i: int| #![trigger u.items@[i]] 0 <= i < u.items@.len() ==> item_wf(&u.items@[i])
}

/// Executable check of [`expr_wf`], for callers outside verified code.
pub fn expr_is_wf(e: &Expression) -> (r: bool)
    ensures
        r == expr_wf(e),
    decreases e, 1int,
{
    proof {
        reveal_with_fuel(expr_wf, 2);
    }
    match e {
        Expression::Literal { .. } => true,
        Expression::VarRef { .. } => true,
        Expression::UnaryOp { op, inner, .. } => (*op == Operator::Addition || *op
            == Operator::Subtraction) && expr_is_wf(inner),
        Expression::BinaryOp { op, left, right, .. } => *op != Operator::Custom && expr_is_wf(
            left,
        ) && expr_is_wf(right),
        Expression::IfExpr { cond, true_expr, else_expr, .. } => expr_is_wf(cond) && expr_is_wf(
            true_expr,
        ) && expr_is_wf(else_expr),
        Expression::FnCall { args, .. } => {
            let r = match args {
                FnCallArgs::SingleExpr(inner) => expr_is_wf(inner),
                FnCallArgs::Arguments(list) => arg_list_is_wf(list),
            };
            proof {
                reveal_with_fuel(call_args_wf, 2);
            }
            r
        },
    }
}

pub fn arg_list_is_wf(list: &Vec<CallArg>) -> (r: bool)
    ensures
        r == arg_list_wf(list),
    decreases list, 0int,
{
    let mut i: usize = 0;
    while i < list.len()
        invariant
            i <= list@.len(),
            forall|j: int| #![trigger list@[j]] 0 <= j < i ==> arg_wf(list@[j]),
        decreases list@.len() - i,
    {
        let ok = match &list[i].value {
            Some(e) => expr_is_wf(e),
            None => true,
        };
        if !ok {
            proof {
                reveal_with_fuel(arg_list_wf, 2);
                assert(!arg_wf(list@[i as int]));
            }
            return false;
        }
        i = i + 1;
    }
    proof {
        reveal_with_fuel(arg_list_wf, 2);
    }
    true
}

pub fn stmt_is_wf(s: &Statement) -> (r: bool)
    ensures
        r == stmt_wf(s),
    decreases s, 2int,
{
    proof {
        reveal_with_fuel(stmt_wf, 2);
    }
    match s {
        Statement::Expression(e) => expr_is_wf(e),
        Statement::Declaration(d) => expr_is_wf(&d.value),
        Statement::Assignment { rvalue, .. } => expr_is_wf(rvalue),
        Statement::DoBlock(b) => block_is_wf(b),
        Statement::IfBlock(ib) => if_block_is_wf(ib),
        Statement::Return { value, .. } => match value {
            Some(e) => expr_is_wf(e),
            None => true,
        },
    }
}

pub fn if_block_is_wf(ib: &IfBlock) -> (r: bool)
    ensures
        r == ((forall|i: int| #![trigger ib.conditionals@[i]]
            0 <= i < ib.conditionals@.len() ==> conditional_wf(&ib.conditionals@[i])) && (
        match &ib.else_block {
            Some(b) => block_wf(b),
            None => true,
        })),
    decreases ib, 2int,
{
    let mut i: usize = 0;
    while i < ib.conditionals.len()
        invariant
            i <= ib.conditionals@.len(),
            forall|j: int| #![trigger ib.conditionals@[j]]
                0 <= j < i ==> conditional_wf(&ib.conditionals@[j]),
        decreases ib.conditionals@.len() - i,
    {
        let c = &ib.conditionals[i];
        if !(expr_is_wf(&c.cond) && block_is_wf(&c.block)) {
            proof {
                assert(!conditional_wf(&ib.conditionals@[i as int]));
            }
            return false;
        }
        i = i + 1;
    }
    match &ib.else_block {
        Some(b) => block_is_wf(b),
        None => true,
    }
}

pub fn block_is_wf(b: &Block) -> (r: bool)
    ensures
        r == block_wf(b),
    decreases b, 3int,
{
    proof {
        reveal_with_fuel(block_wf, 2);
    }
    let mut i: usize = 0;
    while i < b.stmts.len()
        invariant
            i <= b.stmts@.len(),
            forall|j: int| #![trigger b.stmts@[j]] 0 <= j < i ==> stmt_wf(&b.stmts@[j]),
        decreases b.stmts@.len() - i,
    {
        if !stmt_is_wf(&b.stmts[i]) {
            return false;
        }
        i = i + 1;
    }
    true
}

/// Executable check of [`unit_wf`]: lets a driver test the type stage's
/// precondition at run time instead of trusting construction.
pub fn unit_is_wf(u: &Unit) -> (r: bool)
    ensures
        r == unit_wf(u),
{
    let mut i: usize = 0;
    while i < u.items.len()
        invariant
            i <= u.items@.len(),
            forall|j: int| #![trigger u.items@[j]] 0 <= j < i ==> item_wf(&u.items@[j]),
        decreases u.items@.len() - i,
    {
        let Item::BlockFnDeclaration(f) = &u.items[i];
        if !block_is_wf(&f.block) {
            return false;
        }
        i = i + 1;
    }
    true
}

} // verus!
