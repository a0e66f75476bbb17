//! Name resolution.
//!
//! [`NameIdentifier`] walks a unit and assigns every declaration — function,
//! parameter, local variable — a fresh [`ScopedId`] snapshot of its cursor,
//! resolving every reference to the nearest enclosing declaration and
//! collecting duplicate-name and unknown-function diagnostics.
//!
//! Every id the pass hands out is recorded in a ghost log, and the pass
//! maintains that the log never repeats an id: each new snapshot is either
//! strictly above everything logged so far in the path order [`id_lt`], or
//! deeper than every entry that is not.  That log is the uniqueness story
//! the later passes (and code generation, which keys storage slots by id)
//! depend on.

use vstd::prelude::*;
use crate::ast::{
    arg_list_wf, arg_wf, block_wf, call_args_wf, conditional_wf, expr_wf, fn_wf, stmt_wf, unit_wf,
    Block, CallArg, Conditional, Declaration, Expression, FnCallArgs, FnDeclaration, FnParam,
    Identifier, IfBlock, Item, Statement, Unit,
};
use crate::diag::{CheckerError, ErrorKind};
use crate::scope::{assoc_find, assoc_get, chain_find, ScopeBuilder};
use crate::scoped_id::{
    id_lt, lemma_id_lt_advance, lemma_id_lt_from_diff, lemma_id_lt_irrefl, lemma_id_lt_last,
    lemma_id_lt_prefix, lemma_id_lt_push, lemma_id_lt_push_inc, lemma_id_lt_self_advance, IdState,
    ScopedId,
};

verus! {

broadcast use vstd::seq::group_seq_axioms, vstd::std_specs::vec::axiom_vec_index_decreases;

/// The ids assigned to a statement, in assignment order: its own binding for
/// a declaration, and the bindings made inside nested blocks.
pub open spec fn stmt_decl_ids(s: Statement) -> Seq<Seq<u32>>
    decreases s, 0int,
{
    match s {
        Statement::Expression(_) => Seq::empty(),
        Statement::Declaration(d) => opt_assigned(d.ident.state),
        Statement::Assignment { .. } => Seq::empty(),
        Statement::DoBlock(b) => block_decl_ids(b),
        Statement::IfBlock(ib) => ifblock_decl_ids(ib),
        Statement::Return { .. } => Seq::empty(),
    }
}

pub open spec fn opt_assigned(st: IdState) -> Seq<Seq<u32>> {
    if st.is_assigned() {
        seq![st.id()]
    } else {
        Seq::empty()
    }
}

pub open spec fn block_decl_ids(b: Block) -> Seq<Seq<u32>>
    decreases b, b.stmts@.len() as int + 1int,
{
    block_ids_upto(b, b.stmts@.len() as int)
}

/// The ids of the first `i` statements of the block.
pub open spec fn block_ids_upto(b: Block, i: int) -> Seq<Seq<u32>>
    decreases b, i,
{
    if i <= 0 || i > b.stmts@.len() {
        Seq::empty()
    } else {
        block_ids_upto(b, i - 1) + stmt_decl_ids(b.stmts@[i - 1])
    }
}

pub open spec fn ifblock_decl_ids(ib: IfBlock) -> Seq<Seq<u32>>
    decreases ib, ib.conditionals@.len() as int + 2int,
{
    conds_ids_upto(ib, ib.conditionals@.len() as int) + (match ib.else_block {
        Some(b) => block_decl_ids(b),
        None => Seq::empty(),
    })
}

pub open spec fn conds_ids_upto(ib: IfBlock, i: int) -> Seq<Seq<u32>>
    decreases ib, i,
{
    if i <= 0 || i > ib.conditionals@.len() {
        Seq::empty()
    } else {
        conds_ids_upto(ib, i - 1) + block_decl_ids(ib.conditionals@[i - 1].block)
    }
}

/// The ids assigned within one function declaration, headers aside: its
/// parameters in order, then its body.
pub open spec fn fn_assigned_ids(f: FnDeclaration) -> Seq<Seq<u32>> {
    params_ids_upto(f, f.params@.len() as int) + block_decl_ids(f.block)
}

pub open spec fn params_ids_upto(f: FnDeclaration, i: int) -> Seq<Seq<u32>>
    decreases i,
{
    if i <= 0 || i > f.params@.len() {
        Seq::empty()
    } else {
        params_ids_upto(f, i - 1) + opt_assigned(f.params@[i - 1].ident.state)
    }
}

pub open spec fn item_header_id(it: Item) -> Seq<Seq<u32>> {
    match it {
        Item::BlockFnDeclaration(f) => opt_assigned(f.ident.state),
    }
}

pub open spec fn item_body_ids(it: Item) -> Seq<Seq<u32>> {
    match it {
        Item::BlockFnDeclaration(f) => fn_assigned_ids(f),
    }
}

pub open spec fn headers_upto(items: Seq<Item>, i: int) -> Seq<Seq<u32>>
    decreases i,
{
    if i <= 0 || i > items.len() {
        Seq::empty()
    } else {
        headers_upto(items, i - 1) + item_header_id(items[i - 1])
    }
}

pub open spec fn bodies_upto(items: Seq<Item>, i: int) -> Seq<Seq<u32>>
    decreases i,
{
    if i <= 0 || i > items.len() {
        Seq::empty()
    } else {
        bodies_upto(items, i - 1) + item_body_ids(items[i - 1])
    }
}

/// Every id assigned across one unit, in assignment order: the pass first
/// fixes every item's header, then walks each body in turn.
pub open spec fn unit_assigned_ids(u: Unit) -> Seq<Seq<u32>> {
    headers_upto(u.items@, u.items@.len() as int) + bodies_upto(u.items@, u.items@.len() as int)
}

/// A tree is fresh when no declaration position carries an id yet: the
/// state a parser hands over.  Nodes that already carry an id are treated
/// as processed and skipped, so the pass's accounting of its own
/// assignments is stated for fresh inputs.
pub open spec fn stmt_fresh(s: Statement) -> bool
    decreases s,
{
    match s {
        Statement::Expression(_) => true,
        Statement::Declaration(d) => !d.ident.state.is_assigned(),
        Statement::Assignment { .. } => true,
        Statement::DoBlock(b) => block_fresh(b),
        Statement::IfBlock(ib) => {
            &&& (forall|i: int|
                0 <= i < ib.conditionals@.len() ==> block_fresh(
                    (#[trigger] ib.conditionals@[i]).block,
                ))
            &&& (match ib.else_block {
                Some(b) => block_fresh(b),
                None => true,
            })
        },
        Statement::Return { .. } => true,
    }
}

pub open spec fn block_fresh(b: Block) -> bool
    decreases b,
{
    forall|i: int| 0 <= i < b.stmts@.len() ==> stmt_fresh(#[trigger] b.stmts@[i])
}

pub open spec fn stmts_fresh(ss: Seq<Statement>) -> bool {
    forall|i: int| 0 <= i < ss.len() ==> stmt_fresh(#[trigger] ss[i])
}

pub open spec fn fn_fresh(f: FnDeclaration) -> bool {
    &&& (forall|i: int| 0 <= i < f.params@.len() ==> !(#[trigger] f.params@[i]).ident.state.is_assigned())
    &&& block_fresh(f.block)
}

pub open spec fn unit_fresh(u: Unit) -> bool {
    forall|i: int|
        0 <= i < u.items@.len() ==> (match #[trigger] u.items@[i] {
            Item::BlockFnDeclaration(f) => !f.ident.state.is_assigned() && fn_fresh(f),
        })
}

/// `block_decl_ids`, restated over the bare statement sequence, which is the
/// shape the traversal's loops reason in.
pub open spec fn seq_stmt_ids(ss: Seq<Statement>) -> Seq<Seq<u32>>
    decreases ss,
{
    if ss.len() == 0 {
        Seq::empty()
    } else {
        seq_stmt_ids(ss.drop_last()) + stmt_decl_ids(ss.last())
    }
}

pub open spec fn seq_cond_ids(ss: Seq<Conditional>) -> Seq<Seq<u32>>
    decreases ss,
{
    if ss.len() == 0 {
        Seq::empty()
    } else {
        seq_cond_ids(ss.drop_last()) + block_decl_ids(ss.last().block)
    }
}

pub proof fn lemma_block_ids_upto(b: Block, i: int)
    requires
        0 <= i <= b.stmts@.len(),
    ensures
        block_ids_upto(b, i) == seq_stmt_ids(b.stmts@.subrange(0, i)),
    decreases i,
{
    if i == 0 {
        assert(seq_stmt_ids(b.stmts@.subrange(0, 0)).len() == 0);
    } else {
        lemma_block_ids_upto(b, i - 1);
        let sub = b.stmts@.subrange(0, i);
        assert(sub.drop_last() =~= b.stmts@.subrange(0, i - 1));
        assert(sub.last() == b.stmts@[i - 1]);
    }
}

/// Bridge: a block's ids are the ids of its statement sequence.
pub proof fn lemma_block_ids(b: Block)
    ensures
        block_decl_ids(b) == seq_stmt_ids(b.stmts@),
{
    lemma_block_ids_upto(b, b.stmts@.len() as int);
    assert(b.stmts@.subrange(0, b.stmts@.len() as int) =~= b.stmts@);
}

pub proof fn lemma_conds_ids_upto(ib: IfBlock, i: int)
    requires
        0 <= i <= ib.conditionals@.len(),
    ensures
        conds_ids_upto(ib, i) == seq_cond_ids(ib.conditionals@.subrange(0, i)),
    decreases i,
{
    if i == 0 {
        assert(seq_cond_ids(ib.conditionals@.subrange(0, 0)).len() == 0);
    } else {
        lemma_conds_ids_upto(ib, i - 1);
        let sub = ib.conditionals@.subrange(0, i);
        assert(sub.drop_last() =~= ib.conditionals@.subrange(0, i - 1));
        assert(sub.last() == ib.conditionals@[i - 1]);
    }
}

/// Bridge: an if-block's ids are its arms' ids then its else ids.
pub proof fn lemma_ifblock_ids(ib: IfBlock)
    ensures
        ifblock_decl_ids(ib) == seq_cond_ids(ib.conditionals@) + (match ib.else_block {
            Some(b) => block_decl_ids(b),
            None => Seq::<Seq<u32>>::empty(),
        }),
{
    lemma_conds_ids_upto(ib, ib.conditionals@.len() as int);
    assert(ib.conditionals@.subrange(0, ib.conditionals@.len() as int) =~= ib.conditionals@);
}

/// The name-resolution pass: the scope stack, the table of declared
/// functions, the diagnostics collected so far, and the id cursor with its
/// ghost log of every id handed out.
pub struct NameIdentifier {
    builder: ScopeBuilder,
    fn_table: Vec<(String, ScopedId)>,
    errors: Vec<CheckerError>,
    current: ScopedId,
    exhausted: bool,
    issued: Ghost<Seq<Seq<u32>>>,
}

impl NameIdentifier {
    /// Every id this pass has assigned, in order.
    pub closed spec fn log(&self) -> Seq<Seq<u32>> {
        self.issued@
    }

    pub closed spec fn cursor(&self) -> Seq<u32> {
        self.current@
    }

    /// True once the id space of some level ran out; the pass then stops
    /// assigning rather than repeat an id.
    pub closed spec fn is_exhausted(&self) -> bool {
        self.exhausted
    }

    pub closed spec fn errs(&self) -> Seq<CheckerError> {
        self.errors@
    }

    pub closed spec fn scope_view(&self) -> Seq<Seq<(String, ScopedId)>> {
        self.builder@
    }

    pub closed spec fn fn_view(&self) -> Seq<(String, ScopedId)> {
        self.fn_table@
    }

    /// The freshness invariant: no id is logged twice, and every logged id
    /// is either strictly behind the cursor or shallower than the cursor's
    /// current depth (a header whose subtree the pass has left for good).
    pub open spec fn inv(&self) -> bool {
        &&& self.cursor().len() >= 1
        &&& self.log().no_duplicates()
        &&& (!self.is_exhausted() ==> forall|i: int|
            0 <= i < self.log().len() ==> id_lt(#[trigger] self.log()[i], self.cursor())
                || self.log()[i].len() < self.cursor().len())
    }

    /// What a statement-level visit may do to the pass: keep the cursor's
    /// depth and enclosing levels, move its last level forward, append to
    /// the log and the diagnostics, and keep the scope depth and the
    /// function table.  New log entries sit inside the current scope's
    /// subtree and stay behind the final cursor.
    pub open spec fn frame(pre: Self, post: Self) -> bool {
        let len = pre.cursor().len() as int;
        &&& post.cursor().len() == pre.cursor().len()
        &&& post.cursor().subrange(0, len - 1) == pre.cursor().subrange(0, len - 1)
        &&& pre.cursor().last() <= post.cursor().last()
        &&& pre.log().is_prefix_of(post.log())
        &&& pre.errs().is_prefix_of(post.errs())
        &&& post.scope_view().len() == pre.scope_view().len()
        &&& post.scope_view().subrange(0, pre.scope_view().len() - 1) == pre.scope_view().subrange(
            0,
            pre.scope_view().len() - 1,
        )
        &&& post.fn_view() == pre.fn_view()
        &&& (pre.is_exhausted() ==> post.is_exhausted())
        &&& (!post.is_exhausted() ==> forall|i: int|
            pre.log().len() <= i < post.log().len() ==> (#[trigger] post.log()[i]).len() >= len
                && post.log()[i].subrange(0, len - 1) == pre.cursor().subrange(0, len - 1)
                && id_lt(post.log()[i], post.cursor()))
    }

    /// What an expression-level visit may do: only resolve references and
    /// report errors — the cursor, the log, the scopes and the function
    /// table stay exactly as they are.
    pub open spec fn scaffold(pre: Self, post: Self) -> bool {
        &&& post.cursor() == pre.cursor()
        &&& post.log() == pre.log()
        &&& post.is_exhausted() == pre.is_exhausted()
        &&& post.scope_view() == pre.scope_view()
        &&& post.fn_view() == pre.fn_view()
        &&& pre.errs().is_prefix_of(post.errs())
    }

    pub proof fn lemma_frame_trans(a: Self, b: Self, c: Self)
        requires
            Self::frame(a, b),
            Self::frame(b, c),
        ensures
            Self::frame(a, c),
    {
        let len = a.cursor().len() as int;
        lemma_prefix_trans(a.log(), b.log(), c.log());
        lemma_prefix_trans(a.errs(), b.errs(), c.errs());
        assert(b.log().is_prefix_of(c.log()));
        if !c.is_exhausted() {
            assert forall|i: int|
                a.log().len() <= i < c.log().len() implies (#[trigger] c.log()[i]).len() >= len
                && c.log()[i].subrange(0, len - 1) == a.cursor().subrange(0, len - 1)
                && id_lt(c.log()[i], c.cursor()) by {
                if i < b.log().len() {
                    assert(c.log()[i] == b.log()[i]);
                    lemma_id_lt_advance(b.log()[i], b.cursor(), c.cursor());
                }
            }
        }
    }

    /// A scaffold step inside a frame keeps the frame.
    pub proof fn lemma_frame_then_scaffold(a: Self, b: Self, c: Self)
        requires
            Self::frame(a, b),
            Self::scaffold(b, c),
        ensures
            Self::frame(a, c),
    {
        lemma_prefix_trans(a.errs(), b.errs(), c.errs());
    }

    pub proof fn lemma_frame_refl(a: Self)
        ensures
            Self::frame(a, a),
    {
        assert(a.log().is_prefix_of(a.log()));
        assert(a.errs().is_prefix_of(a.errs()));
    }

    /// A fresh pass: empty scopes, no functions, no diagnostics, the cursor
    /// at its reserved starting value, nothing logged.
    pub fn new() -> (r: NameIdentifier)
        ensures
            r.inv(),
            r.log() == Seq::<Seq<u32>>::empty(),
            r.errs() == Seq::<CheckerError>::empty(),
            r.cursor() == seq![0u32],
            !r.is_exhausted(),
            r.scope_view() == Seq::<Seq<(String, ScopedId)>>::empty(),
            r.fn_view() == Seq::<(String, ScopedId)>::empty(),
    {
        NameIdentifier {
            builder: ScopeBuilder::new(),
            fn_table: Vec::new(),
            errors: Vec::new(),
            current: ScopedId::new(),
            exhausted: false,
            issued: Ghost(Seq::empty()),
        }
    }

    /// The diagnostics collected so far.
    pub fn into_errors(self) -> (r: Vec<CheckerError>)
        ensures
            r@ == self.errs(),
    {
        self.errors
    }

    pub fn error_count(&self) -> (r: usize)
        ensures
            r == self.errs().len(),
    {
        self.errors.len()
    }

    pub fn id_space_exhausted(&self) -> (r: bool)
        ensures
            r == self.is_exhausted(),
    {
        self.exhausted
    }

    /// Move the cursor to the next id of the current scope; once a level
    /// runs out, mark the pass exhausted instead of wrapping around.
    fn bump(&mut self)
        requires
            old(self).cursor().len() >= 1,
        ensures
            final(self).cursor().len() == old(self).cursor().len(),
            final(self).cursor().subrange(0, old(self).cursor().len() - 1)
                == old(self).cursor().subrange(0, old(self).cursor().len() - 1),
            old(self).cursor().last() <= final(self).cursor().last(),
            final(self).log() == old(self).log(),
            final(self).errs() == old(self).errs(),
            final(self).scope_view() == old(self).scope_view(),
            final(self).fn_view() == old(self).fn_view(),
            old(self).is_exhausted() ==> *final(self) == *old(self),
            !final(self).is_exhausted() ==> !old(self).is_exhausted()
                && old(self).cursor().last() < u32::MAX
                && final(self).cursor() == old(self).cursor().update(
                old(self).cursor().len() - 1,
                (old(self).cursor().last() + 1) as u32,
            ),
            !old(self).is_exhausted() && old(self).cursor().last() < u32::MAX
                ==> !final(self).is_exhausted(),
    {
        if self.exhausted {
            return ;
        }
        if self.current.last_level() < u32::MAX {
            self.current.increment();
            proof {
                assert(final(self).cursor().subrange(0, old(self).cursor().len() - 1)
                    =~= old(self).cursor().subrange(0, old(self).cursor().len() - 1));
            }
        } else {
            self.exhausted = true;
        }
    }

    /// Hand out the next id: a snapshot of the cursor, which is then moved
    /// past it.  Returns `None` once the id space is exhausted; the caller
    /// then leaves the node unassigned, exactly as it does for duplicates.
    fn allocate(&mut self) -> (r: Option<ScopedId>)
        requires
            old(self).inv(),
        ensures
            final(self).inv(),
            final(self).errs() == old(self).errs(),
            final(self).scope_view() == old(self).scope_view(),
            final(self).fn_view() == old(self).fn_view(),
            final(self).cursor().len() == old(self).cursor().len(),
            final(self).cursor().subrange(0, old(self).cursor().len() - 1)
                == old(self).cursor().subrange(0, old(self).cursor().len() - 1),
            old(self).cursor().last() <= final(self).cursor().last(),
            old(self).is_exhausted() ==> final(self).is_exhausted(),
            match r {
                Option::None => *final(self) == *old(self) && old(self).is_exhausted(),
                Option::Some(id) => {
                    &&& !old(self).is_exhausted()
                    &&& id@ == old(self).cursor()
                    &&& final(self).log() == old(self).log().push(id@)
                    &&& (!final(self).is_exhausted() ==> id_lt(id@, final(self).cursor())
                        && old(self).cursor().last() < u32::MAX
                        && final(self).cursor() == old(self).cursor().update(
                        old(self).cursor().len() - 1,
                        (old(self).cursor().last() + 1) as u32,
                    ))
                },
            },
    {
        if self.exhausted {
            return None;
        }
        let id = self.current.snapshot();
        proof {
            let lg = self.log();
            let cur = self.cursor();
            assert forall|i: int| 0 <= i < lg.len() implies lg[i] != id@ by {
                if id_lt(lg[i], cur) {
                    lemma_id_lt_irrefl(cur);
                }
            }
            assert(lg.push(id@).no_duplicates());
        }
        self.issued = Ghost(self.issued@.push(id@));
        let ghost pre_bump = *self;
        self.bump();
        proof {
            if !self.is_exhausted() {
                let len = old(self).cursor().len() as int;
                assert(self.cursor() == old(self).cursor().update(
                    len - 1,
                    (old(self).cursor().last() + 1) as u32,
                ));
                assert(self.cursor().last() == old(self).cursor().last() + 1);
                assert(self.cursor().subrange(0, len - 1) =~= old(self).cursor().subrange(
                    0,
                    len - 1,
                ));
                lemma_id_lt_self_advance(id@, self.cursor());
                assert forall|i: int|
                    0 <= i < self.log().len() implies id_lt(#[trigger] self.log()[i], self.cursor())
                    || self.log()[i].len() < self.cursor().len() by {
                    if i < old(self).log().len() {
                        if id_lt(self.log()[i], old(self).cursor()) {
                            lemma_id_lt_advance(self.log()[i], old(self).cursor(), self.cursor());
                        }
                    }
                }
            }
        }
        Some(id)
    }
}

impl NameIdentifier {
    pub proof fn lemma_scaffold_trans(a: Self, b: Self, c: Self)
        requires
            Self::scaffold(a, b),
            Self::scaffold(b, c),
        ensures
            Self::scaffold(a, c),
    {
        lemma_prefix_trans(a.errs(), b.errs(), c.errs());
    }

    /// Resolve one variable reference: attach the nearest enclosing
    /// binding's id, or leave the reference untouched when the name is not
    /// declared anywhere (the surrounding form decides whether that is an
    /// error).
    pub fn check_var_ref(&mut self, ident: Identifier) -> (r: Identifier)
        requires
            old(self).inv(),
        ensures
            final(self).inv(),
            *final(self) == *old(self),
            r.pos == ident.pos,
            r.name@ == ident.name@,
            (match chain_find(old(self).scope_view(), ident.name@) {
                Some(v) => r.state.is_assigned() && r.state.id() == v,
                None => r.state == ident.state,
            }),
    {
        let found = self.builder.get(&ident.name);
        match found {
            Some(id) => Identifier { pos: ident.pos, name: ident.name, state: IdState::Assigned(id) },
            None => ident,
        }
    }

    /// Resolve a call: the callee name is looked up among declared
    /// functions, not in the lexical variable scope.  An unknown callee is
    /// reported once and its arguments are deliberately not descended into;
    /// a known callee has its id attached and every argument resolved (an
    /// implicit-name shorthand argument resolves as a variable reference in
    /// the caller's own scope).
    pub fn check_fn_call(&mut self, ident: Identifier, args: FnCallArgs) -> (r: Expression)
        requires
            old(self).inv(),
        ensures
            final(self).inv(),
            Self::scaffold(*old(self), *final(self)),
            assoc_find(old(self).fn_view(), ident.name@) is None ==> final(self).errs().len()
                == old(self).errs().len() + 1
                && final(self).errs().last().kind is UnknownFunction
                && final(self).errs().last().name@ == ident.name@
                && final(self).errs().last().pos == ident.pos
                && r == (Expression::FnCall { ident, args }),
            assoc_find(old(self).fn_view(), ident.name@) is Some ==> final(self).errs().len()
                >= old(self).errs().len(),
            (match r {
                Expression::FnCall { ident: ri, .. } => {
                    &&& ri.name@ == ident.name@
                    &&& ri.pos == ident.pos
                    &&& (match assoc_find(old(self).fn_view(), ident.name@) {
                        Some(v) => ri.state.is_assigned() && ri.state.id() == v,
                        None => ri.state == ident.state,
                    })
                },
                _ => false,
            }),
            call_args_wf(&args) ==> (match r {
                Expression::FnCall { args: ra, .. } => call_args_wf(&ra),
                _ => false,
            }),
            assoc_find(old(self).fn_view(), ident.name@) is Some && (match args {
                FnCallArgs::Arguments(list) => forall|i: int| #![trigger list@[i]]
                    0 <= i < list@.len() ==> list@[i].value is None,
                FnCallArgs::SingleExpr(_) => false,
            }) ==> final(self).errs() == old(self).errs(),
            assoc_find(old(self).fn_view(), ident.name@) is Some ==> (match r {
                Expression::FnCall { args: ra, .. } => (match args {
                    FnCallArgs::SingleExpr(_) => ra is SingleExpr,
                    FnCallArgs::Arguments(list) => (match ra {
                        FnCallArgs::Arguments(rl) => rl@.len() == list@.len() && (forall|i: int|
                            #![trigger rl@[i]]
                            0 <= i < rl@.len() ==> rl@[i].name.name@ == list@[i].name.name@ && (
                            rl@[i].value is Some <==> list@[i].value is Some)) && (forall|i: int|
                            #![trigger rl@[i]]
                            0 <= i < rl@.len() && list@[i].value is None ==> (match chain_find(
                                old(self).scope_view(),
                                list@[i].name.name@,
                            ) {
                                Some(v) => rl@[i].name.state.is_assigned() && rl@[
                                    i
                                ].name.state.id() == v,
                                None => rl@[i].name.state == list@[i].name.state,
                            })),
                        _ => false,
                    }),
                }),
                _ => false,
            }),
        decreases args, 1int,
    {
        let found = assoc_get(&self.fn_table, &ident.name);
        match found {
            None => {
                let err_name = ident.name.clone();
                self.errors.push(
                    CheckerError {
                        pos: ident.pos,
                        name: err_name,
                        related: Vec::new(),
                        kind: ErrorKind::UnknownFunction,
                    },
                );
                proof {
                    assert(old(self).errs().is_prefix_of(self.errs())) by {
                        assert(old(self).errs() =~= self.errs().subrange(
                            0,
                            old(self).errs().len() as int,
                        ));
                    }
                }
                Expression::FnCall { ident, args }
            },
            Some(fid) => {
                let new_ident = Identifier {
                    pos: ident.pos,
                    name: ident.name,
                    state: IdState::Assigned(fid),
                };
                let new_args = match args {
                    FnCallArgs::SingleExpr(e) => FnCallArgs::SingleExpr(
                        Box::new(self.resolve_expression(*e)),
                    ),
                    FnCallArgs::Arguments(list) => FnCallArgs::Arguments(
                        self.resolve_call_args(list),
                    ),
                };
                Expression::FnCall { ident: new_ident, args: new_args }
            },
        }
    }

    /// Resolve each argument of a named-argument call in order.
    fn resolve_call_args(&mut self, list: Vec<CallArg>) -> (r: Vec<CallArg>)
        requires
            old(self).inv(),
        ensures
            final(self).inv(),
            Self::scaffold(*old(self), *final(self)),
            arg_list_wf(&list) ==> arg_list_wf(&r),
            r@.len() == list@.len(),
            forall|i: int| #![trigger r@[i]]
                0 <= i < r@.len() ==> r@[i].name.name@ == list@[i].name.name@ && (r@[i].value
                    is Some <==> list@[i].value is Some),
            forall|i: int| #![trigger r@[i]]
                0 <= i < r@.len() && list@[i].value is None ==> (match chain_find(
                    old(self).scope_view(),
                    list@[i].name.name@,
                ) {
                    Some(v) => r@[i].name.state.is_assigned() && r@[i].name.state.id() == v,
                    None => r@[i].name.state == list@[i].name.state,
                }),
            (forall|i: int| #![trigger list@[i]] 0 <= i < list@.len() ==> list@[i].value is None)
                ==> final(self).errs() == old(self).errs(),
        decreases list, 0int,
    {
        let ghost pre = *self;
        let mut rest = list;
        let mut out: Vec<CallArg> = Vec::new();
        let ghost mut k: int = 0;
        proof {
            assert(rest@ =~= list@.skip(0));
        }
        while rest.len() > 0
            invariant
                self.inv(),
                pre == *old(self),
                Self::scaffold(pre, *self),
                0 <= k <= list@.len(),
                rest@ =~= list@.skip(k),
                out@.len() == k,
                arg_list_wf(&list) ==> (forall|j: int| #![trigger out@[j]]
                    0 <= j < k ==> arg_wf(out@[j])),
                (forall|i: int| #![trigger list@[i]]
                    0 <= i < list@.len() ==> list@[i].value is None) ==> self.errs() == old(self).errs(),
                forall|i: int| #![trigger out@[i]]
                    0 <= i < k ==> out@[i].name.name@ == list@[i].name.name@ && (out@[i].value
                        is Some <==> list@[i].value is Some),
                forall|i: int| #![trigger out@[i]]
                    0 <= i < k && list@[i].value is None ==> (match chain_find(
                        old(self).scope_view(),
                        list@[i].name.name@,
                    ) {
                        Some(v) => out@[i].name.state.is_assigned() && out@[i].name.state.id()
                            == v,
                        None => out@[i].name.state == list@[i].name.state,
                    }),
            decreases rest@.len(),
        {
            let arg = rest.remove(0);
            proof {
                assert(arg == list@[k]);
                assert(decreases_to!(list => list@[k]));
                assert(rest@ =~= list@.skip(k + 1));
                if arg_list_wf(&list) {
                    assert(arg_wf(list@[k]));
                }
            }
            let ghost mid = *self;
            let ghost out_pre = out@;
            let new_arg = match arg {
                CallArg { name, value: Some(e) } => {
                    let e2 = self.resolve_expression(*e);
                    CallArg { name, value: Some(Box::new(e2)) }
                },
                CallArg { name, value: None } => {
                    let ghost nm0 = name;
                    let n2 = self.check_var_ref(name);
                    proof {
                        assert(nm0 == list@[k].name);
                        assert(list@[k].value is None);
                        assert(n2.name@ == nm0.name@);
                        assert((match chain_find(mid.scope_view(), nm0.name@) {
                            Some(v) => n2.state.is_assigned() && n2.state.id() == v,
                            None => n2.state == nm0.state,
                        }));
                    }
                    CallArg { name: n2, value: None }
                },
            };
            out.push(new_arg);
            proof {
                Self::lemma_scaffold_trans(pre, mid, *self);
                if arg_list_wf(&list) {
                    assert forall|j: int| #![trigger out@[j]] 0 <= j < k + 1 implies arg_wf(
                        out@[j],
                    ) by {
                        if j < k {
                            assert(out@[j] == out_pre[j]);
                        } else {
                            assert(out@[j] == new_arg);
                        }
                    }
                }
                assert forall|i: int| #![trigger out@[i]]
                    0 <= i < k + 1 implies out@[i].name.name@ == list@[i].name.name@ && (out@[
                    i].value is Some <==> list@[i].value is Some) by {
                    if i < k {
                        assert(out@[i] == out_pre[i]);
                    } else {
                        assert(out@[i] == new_arg);
                    }
                }
                assert forall|i: int| #![trigger out@[i]]
                    0 <= i < k + 1 && list@[i].value is None implies (match chain_find(
                    old(self).scope_view(),
                    list@[i].name.name@,
                ) {
                    Some(v) => out@[i].name.state.is_assigned() && out@[i].name.state.id() == v,
                    None => out@[i].name.state == list@[i].name.state,
                }) by {
                    if i < k {
                        assert(out@[i] == out_pre[i]);
                    } else {
                        assert(out@[i] == new_arg);
                        assert(mid.scope_view() == old(self).scope_view());
                    }
                }
                k = k + 1;
            }
        }
        proof {
            if arg_list_wf(&list) {
                assert forall|i: int| #![trigger out@[i]] 0 <= i < out@.len() implies arg_wf(
                    out@[i],
                ) by {}
            }
        }
        out
    }

    /// Resolve every reference inside one expression.  Expressions declare
    /// nothing: the cursor, the log and the scopes come out exactly as they
    /// went in.
    pub fn resolve_expression(&mut self, e: Expression) -> (r: Expression)
        requires
            old(self).inv(),
        ensures
            final(self).inv(),
            Self::scaffold(*old(self), *final(self)),
            expr_wf(&e) ==> expr_wf(&r),
            (match e {
                Expression::VarRef { ident } => (match r {
                    Expression::VarRef { ident: ri } => ri.name@ == ident.name@ && ri.pos
                        == ident.pos && (match chain_find(old(self).scope_view(), ident.name@) {
                        Some(v) => ri.state.is_assigned() && ri.state.id() == v,
                        None => ri.state == ident.state,
                    }),
                    _ => false,
                }),
                _ => true,
            }),
        decreases e, 2int,
    {
        match e {
            Expression::Literal { pos, value } => Expression::Literal { pos, value },
            Expression::VarRef { ident } => {
                let r = self.check_var_ref(ident);
                proof {
                    assert(self.errs().is_prefix_of(self.errs()));
                }
                Expression::VarRef { ident: r }
            },
            Expression::UnaryOp { pos, op, inner } => {
                let i2 = self.resolve_expression(*inner);
                Expression::UnaryOp { pos, op, inner: Box::new(i2) }
            },
            Expression::BinaryOp { pos, op, left, right } => {
                let ghost pre = *self;
                let l2 = self.resolve_expression(*left);
                let ghost mid = *self;
                let r2 = self.resolve_expression(*right);
                proof {
                    Self::lemma_scaffold_trans(pre, mid, *self);
                }
                Expression::BinaryOp { pos, op, left: Box::new(l2), right: Box::new(r2) }
            },
            Expression::IfExpr { pos, cond, true_expr, else_expr } => {
                let ghost pre = *self;
                let c2 = self.resolve_expression(*cond);
                let ghost mid1 = *self;
                let t2 = self.resolve_expression(*true_expr);
                proof {
                    Self::lemma_scaffold_trans(pre, mid1, *self);
                }
                let ghost mid2 = *self;
                let f2 = self.resolve_expression(*else_expr);
                proof {
                    Self::lemma_scaffold_trans(pre, mid2, *self);
                }
                Expression::IfExpr {
                    pos,
                    cond: Box::new(c2),
                    true_expr: Box::new(t2),
                    else_expr: Box::new(f2),
                }
            },
            Expression::FnCall { ident, args } => self.check_fn_call(ident, args),
        }
    }
}

impl NameIdentifier {
    pub proof fn lemma_scaffold_frame(a: Self, b: Self)
        requires
            Self::scaffold(a, b),
        ensures
            Self::frame(a, b),
    {
        assert(a.log().is_prefix_of(b.log())) by {
            assert(a.log() =~= b.log().subrange(0, a.log().len() as int));
        }
    }

    /// Resolve a declaration: the initializer first (the new name is not
    /// visible to it), then the duplicate check against the innermost scope
    /// only — shadowing an outer binding is legal, a second binding in the
    /// same scope is an error and the earlier binding stays authoritative.
    pub fn check_declaration(&mut self, d: Declaration) -> (r: Declaration)
        requires
            old(self).inv(),
            old(self).scope_view().len() >= 1,
        ensures
            final(self).inv(),
            Self::frame(*old(self), *final(self)),
            r.ident.name@ == d.ident.name@,
            r.ident.pos == d.ident.pos,
            expr_wf(&d.value) ==> expr_wf(&r.value),
            !d.ident.state.is_assigned() ==> (match *d.value {
                Expression::VarRef { ident: vi } => (match *r.value {
                    Expression::VarRef { ident: rvi } => rvi.name@ == vi.name@ && (
                    match chain_find(old(self).scope_view(), vi.name@) {
                        Some(v) => rvi.state.is_assigned() && rvi.state.id() == v,
                        None => rvi.state == vi.state,
                    }),
                    _ => false,
                }),
                _ => true,
            }),
            !d.ident.state.is_assigned() ==> final(self).log() == old(self).log()
                + opt_assigned(r.ident.state),
            d.ident.state.is_assigned() ==> *final(self) == *old(self) && r == d,
            !d.ident.state.is_assigned() && assoc_find(
                old(self).scope_view().last(),
                d.ident.name@,
            ) is Some ==> !r.ident.state.is_assigned() && final(self).errs().len() >= old(self).errs().len() + 1 && final(self).errs().last().kind is DuplicateVariable && final(self).errs().last().name@ == d.ident.name@ && final(self).scope_view() == old(self).scope_view(),
            !d.ident.state.is_assigned() && assoc_find(
                old(self).scope_view().last(),
                d.ident.name@,
            ) is None && !final(self).is_exhausted() ==> r.ident.state.is_assigned() && assoc_find(
                final(self).scope_view().last(),
                d.ident.name@,
            ) == Some(r.ident.state.id()),
        decreases d, 0int,
    {
        if matches!(&d.ident.state, IdState::Assigned(_)) {
            proof {
                Self::lemma_frame_refl(*old(self));
            }
            return d;
        }
        let Declaration { ident, type_decl, value } = d;
        let v2 = self.resolve_expression(*value);
        let ghost mid = *self;
        let found = self.builder.get_local(&ident.name);
        match found {
            Some(_) => {
                let err_name = ident.name.clone();
                self.errors.push(
                    CheckerError {
                        pos: ident.pos,
                        name: err_name,
                        related: Vec::new(),
                        kind: ErrorKind::DuplicateVariable,
                    },
                );
                let r = Declaration { ident, type_decl, value: Box::new(v2) };
                proof {
                    assert(mid.errs().is_prefix_of(self.errs())) by {
                        assert(mid.errs() =~= self.errs().subrange(0, mid.errs().len() as int));
                    }
                    lemma_prefix_trans(old(self).errs(), mid.errs(), self.errs());
                    Self::lemma_frame_refl(*old(self));
                    assert(old(self).log() + opt_assigned(r.ident.state) =~= old(self).log());
                }
                r
            },
            None => {
                let allocated = self.allocate();
                match allocated {
                    Some(id) => {
                        let name_copy = ident.name.clone();
                        let table_id = id.snapshot();
                        self.builder.define_local(name_copy, table_id);
                        proof {
                            assert(final(self).scope_view().subrange(
                                0,
                                old(self).scope_view().len() - 1,
                            ) =~= old(self).scope_view().subrange(
                                0,
                                old(self).scope_view().len() - 1,
                            ));
                        }
                        let new_ident = Identifier {
                            pos: ident.pos,
                            name: ident.name,
                            state: IdState::Assigned(id),
                        };
                        let r = Declaration { ident: new_ident, type_decl, value: Box::new(v2) };
                        proof {
                            assert(final(self).scope_view().last() == mid.scope_view().last().push(
                                (name_copy, table_id),
                            ));
                            assert(old(self).log() + opt_assigned(r.ident.state) =~= mid.log().push(
                                id@,
                            ));
                            assert(final(self).cursor().subrange(
                                0,
                                old(self).cursor().len() - 1,
                            ) == old(self).cursor().subrange(0, old(self).cursor().len() - 1));
                            assert(old(self).log().is_prefix_of(final(self).log())) by {
                                assert(old(self).log() =~= final(self).log().subrange(
                                    0,
                                    old(self).log().len() as int,
                                ));
                            }
                            if !self.is_exhausted() {
                                assert forall|i: int|
                                    old(self).log().len() <= i < self.log().len() implies (
                                #[trigger] self.log()[i]).len() >= old(self).cursor().len()
                                    && self.log()[i].subrange(0, old(self).cursor().len() - 1)
                                    == old(self).cursor().subrange(
                                    0,
                                    old(self).cursor().len() - 1,
                                ) && id_lt(self.log()[i], self.cursor()) by {
                                    assert(self.log()[i] == id@);
                                    assert(id@ == old(self).cursor());
                                }
                            }
                        }
                        r
                    },
                    None => {
                        let r = Declaration { ident, type_decl, value: Box::new(v2) };
                        proof {
                            Self::lemma_frame_refl(*old(self));
                            assert(old(self).log() + opt_assigned(r.ident.state) =~= old(self).log());
                        }
                        r
                    },
                }
            },
        }
    }

    /// Resolve one statement.
    pub fn resolve_statement(&mut self, s: Statement) -> (r: Statement)
        requires
            old(self).inv(),
            old(self).scope_view().len() >= 1,
        ensures
            final(self).inv(),
            Self::frame(*old(self), *final(self)),
            stmt_fresh(s) ==> final(self).log() == old(self).log() + stmt_decl_ids(r),
            stmt_wf(&s) ==> stmt_wf(&r),
        decreases s, 3int,
    {
        match s {
            Statement::Expression(e) => {
                let e2 = self.resolve_expression(*e);
                let r = Statement::Expression(Box::new(e2));
                proof {
                    Self::lemma_scaffold_frame(*old(self), *self);
                    assert(old(self).log() + stmt_decl_ids(r) =~= old(self).log());
                }
                r
            },
            Statement::Declaration(d) => {
                let d2 = self.check_declaration(d);
                Statement::Declaration(d2)
            },
            Statement::Assignment { lvalue, rvalue } => {
                let l2 = self.check_var_ref(lvalue);
                let r2 = self.resolve_expression(*rvalue);
                let r = Statement::Assignment { lvalue: l2, rvalue: Box::new(r2) };
                proof {
                    Self::lemma_scaffold_frame(*old(self), *self);
                    assert(old(self).log() + stmt_decl_ids(r) =~= old(self).log());
                }
                r
            },
            Statement::DoBlock(b) => {
                let b2 = self.check_block(b);
                Statement::DoBlock(b2)
            },
            Statement::IfBlock(ib) => {
                let ib2 = self.resolve_if_block(ib);
                Statement::IfBlock(ib2)
            },
            Statement::Return { pos, value } => {
                let v2 = match value {
                    Some(e) => Some(Box::new(self.resolve_expression(*e))),
                    None => None,
                };
                let r = Statement::Return { pos, value: v2 };
                proof {
                    if self.errs() == old(self).errs() {
                        Self::lemma_frame_refl(*old(self));
                    } else {
                        Self::lemma_scaffold_frame(*old(self), *self);
                    }
                    assert(old(self).log() + stmt_decl_ids(r) =~= old(self).log());
                }
                r
            },
        }
    }

    /// Resolve a statement list in order, in the current scope.
    fn resolve_stmts(&mut self, list: Vec<Statement>) -> (r: Vec<Statement>)
        requires
            old(self).inv(),
            old(self).scope_view().len() >= 1,
        ensures
            final(self).inv(),
            Self::frame(*old(self), *final(self)),
            stmts_fresh(list@) ==> final(self).log() == old(self).log() + seq_stmt_ids(r@),
            (forall|i: int| #![trigger list@[i]] 0 <= i < list@.len() ==> stmt_wf(&list@[i]))
                ==> (forall|i: int| #![trigger r@[i]] 0 <= i < r@.len() ==> stmt_wf(&r@[i])),
            list@.len() == 0 ==> *final(self) == *old(self),
            r@.len() == list@.len(),
        decreases list, 0int,
    {
        let mut rest = list;
        let mut out: Vec<Statement> = Vec::new();
        let ghost mut k: int = 0;
        proof {
            assert(rest@ =~= list@.skip(0));
            Self::lemma_frame_refl(*old(self));
            assert(old(self).log() + seq_stmt_ids(out@) =~= old(self).log());
        }
        while rest.len() > 0
            invariant
                self.inv(),
                self.scope_view().len() >= 1,
                Self::frame(*old(self), *self),
                0 <= k <= list@.len(),
                rest@ =~= list@.skip(k),
                out@.len() == k,
                k == 0 ==> *self == *old(self),
                stmts_fresh(list@) ==> self.log() == old(self).log() + seq_stmt_ids(out@),
                (forall|i: int| #![trigger list@[i]] 0 <= i < list@.len() ==> stmt_wf(&list@[i]))
                    ==> (forall|i: int| #![trigger out@[i]] 0 <= i < out@.len() ==> stmt_wf(
                        &out@[i],
                    )),
            decreases rest@.len(),
        {
            let stmt = rest.remove(0);
            proof {
                assert(stmt == list@[k]);
                assert(decreases_to!(list => list@[k]));
                assert(rest@ =~= list@.skip(k + 1));
                if forall|i: int| #![trigger list@[i]]
                    0 <= i < list@.len() ==> stmt_wf(&list@[i]) {
                    assert(stmt_wf(&list@[k]));
                }
            }
            let ghost mid = *self;
            let ghost out_pre = out@;
            let s2 = self.resolve_statement(stmt);
            out.push(s2);
            proof {
                Self::lemma_frame_trans(*old(self), mid, *self);
                if forall|i: int| #![trigger list@[i]]
                    0 <= i < list@.len() ==> stmt_wf(&list@[i]) {
                    assert forall|i: int| #![trigger out@[i]] 0 <= i < out@.len() implies stmt_wf(
                        &out@[i],
                    ) by {
                        if i < out@.len() - 1 {
                            assert(out@[i] == out_pre[i]);
                        } else {
                            assert(out@[i] == s2);
                        }
                    }
                }
                if stmts_fresh(list@) {
                    assert(stmt_fresh(list@[k]));
                    assert(out@.drop_last() =~= out_pre);
                    assert(seq_stmt_ids(out@) == seq_stmt_ids(out_pre) + stmt_decl_ids(s2));
                    assert(old(self).log() + seq_stmt_ids(out@) =~= (old(self).log()
                        + seq_stmt_ids(out_pre)) + stmt_decl_ids(s2));
                }
                k = k + 1;
            }
        }
        out
    }

    /// Resolve a block: enter a scope and a cursor level, walk the
    /// statements, then discard the scope and move the enclosing level past
    /// the block, so ids made after the block cannot collide with ids made
    /// inside it.
    pub fn check_block(&mut self, b: Block) -> (r: Block)
        requires
            old(self).inv(),
        ensures
            final(self).inv(),
            Self::frame(*old(self), *final(self)),
            block_fresh(b) ==> final(self).log() == old(self).log() + block_decl_ids(r),
            block_wf(&b) ==> block_wf(&r),
            final(self).scope_view() == old(self).scope_view(),
            !final(self).is_exhausted() ==> final(self).cursor() == old(self).cursor().update(
                old(self).cursor().len() - 1,
                (old(self).cursor().last() + 1) as u32,
            ),
        decreases b, 4int,
    {
        let ghost c0 = old(self).cursor();
        let ghost len0 = c0.len() as int;
        self.current.push();
        self.builder.new_scope();
        proof {
            if !self.is_exhausted() {
                assert forall|i: int|
                    0 <= i < self.log().len() implies id_lt(#[trigger] self.log()[i], self.cursor())
                    || self.log()[i].len() < self.cursor().len() by {
                    if id_lt(self.log()[i], c0) {
                        lemma_id_lt_push(self.log()[i], c0, 0u32);
                    }
                }
            }
        }
        let ghost pushed = *self;
        let Block { stmts } = b;
        let s2 = self.resolve_stmts(stmts);
        let ghost mid = *self;
        self.builder.pop();
        self.current.pop();
        proof {
            assert(self.scope_view() =~= old(self).scope_view()) by {
                assert(mid.scope_view().subrange(0, pushed.scope_view().len() - 1)
                    == pushed.scope_view().subrange(0, pushed.scope_view().len() - 1));
                assert(pushed.scope_view().subrange(0, pushed.scope_view().len() - 1)
                    =~= old(self).scope_view());
                assert(self.scope_view() =~= mid.scope_view().subrange(
                    0,
                    pushed.scope_view().len() - 1,
                ));
            }
            assert(self.cursor() =~= c0) by {
                assert(mid.cursor().subrange(0, len0) == pushed.cursor().subrange(0, len0));
                assert(pushed.cursor().subrange(0, len0) =~= c0);
            }
        }
        self.bump();
        let r = Block { stmts: s2 };
        proof {
            let c1 = self.cursor();
            assert(mid.cursor() =~= c0.push(mid.cursor().last())) by {
                assert(mid.cursor().subrange(0, len0) == pushed.cursor().subrange(0, len0));
                assert(pushed.cursor().subrange(0, len0) =~= c0);
            }
            if !self.is_exhausted() {
                assert(!mid.is_exhausted());
                assert(!old(self).is_exhausted());
                assert(c1 == c0.update(len0 - 1, (c0.last() + 1) as u32));
                assert(c1.subrange(0, len0 - 1) =~= c0.subrange(0, len0 - 1));
                assert(old(self).log() == self.log().subrange(0, old(self).log().len() as int));
                assert forall|i: int|
                    0 <= i < self.log().len() implies id_lt(#[trigger] self.log()[i], c1)
                    || self.log()[i].len() < c1.len() by {
                    if i < old(self).log().len() {
                        assert(self.log()[i] == old(self).log()[i]);
                        assert(id_lt(old(self).log()[i], c0) || old(self).log()[i].len()
                            < c0.len());
                        if id_lt(self.log()[i], c0) {
                            lemma_id_lt_advance(self.log()[i], c0, c1);
                        }
                    } else {
                        assert(id_lt(self.log()[i], mid.cursor()));
                        lemma_id_lt_push_inc(
                            self.log()[i],
                            c0,
                            mid.cursor().last(),
                            (c0.last() + 1) as u32,
                        );
                    }
                }
                assert forall|i: int|
                    old(self).log().len() <= i < self.log().len() implies (
                #[trigger] self.log()[i]).len() >= len0 && self.log()[i].subrange(0, len0 - 1)
                    == c0.subrange(0, len0 - 1) && id_lt(self.log()[i], c1) by {
                    assert(self.log()[i].len() >= len0 + 1);
                    assert(self.log()[i].subrange(0, len0) == pushed.cursor().subrange(0, len0));
                    assert(pushed.cursor().subrange(0, len0) =~= c0);
                    assert(self.log()[i].subrange(0, len0 - 1) =~= self.log()[i].subrange(
                        0,
                        len0,
                    ).subrange(0, len0 - 1));
                    assert(c0.subrange(0, len0 - 1) =~= c0.subrange(0, len0).subrange(
                        0,
                        len0 - 1,
                    ));
                    assert(c0.subrange(0, len0) =~= c0);
                }
            }
            lemma_prefix_trans(old(self).log(), pushed.log(), self.log());
            lemma_prefix_trans(old(self).errs(), pushed.errs(), self.errs());
            if block_fresh(b) {
                lemma_block_ids(r);
            }
        }
        r
    }

    /// Resolve each `if`/`else if` arm: the condition in the enclosing
    /// scope, then the arm's block.
    fn resolve_conditionals(&mut self, list: Vec<Conditional>) -> (r: Vec<Conditional>)
        requires
            old(self).inv(),
        ensures
            final(self).inv(),
            Self::frame(*old(self), *final(self)),
            (forall|i: int| 0 <= i < list@.len() ==> block_fresh((#[trigger] list@[i]).block))
                ==> final(self).log() == old(self).log() + seq_cond_ids(r@),
            (forall|i: int| #![trigger list@[i]]
                0 <= i < list@.len() ==> conditional_wf(&list@[i])) ==> (forall|i: int|
                #![trigger r@[i]]
                0 <= i < r@.len() ==> conditional_wf(&r@[i])),
        decreases list, 0int,
    {
        let mut rest = list;
        let mut out: Vec<Conditional> = Vec::new();
        let ghost mut k: int = 0;
        proof {
            assert(rest@ =~= list@.skip(0));
            Self::lemma_frame_refl(*old(self));
            assert(old(self).log() + seq_cond_ids(out@) =~= old(self).log());
        }
        while rest.len() > 0
            invariant
                self.inv(),
                Self::frame(*old(self), *self),
                0 <= k <= list@.len(),
                rest@ =~= list@.skip(k),
                out@.len() == k,
                (forall|i: int| 0 <= i < list@.len() ==> block_fresh((#[trigger] list@[i]).block))
                    ==> self.log() == old(self).log() + seq_cond_ids(out@),
                (forall|i: int| #![trigger list@[i]]
                    0 <= i < list@.len() ==> conditional_wf(&list@[i])) ==> (forall|i: int|
                    #![trigger out@[i]]
                    0 <= i < out@.len() ==> conditional_wf(&out@[i])),
            decreases rest@.len(),
        {
            let c = rest.remove(0);
            proof {
                assert(c == list@[k]);
                assert(decreases_to!(list => list@[k]));
                assert(rest@ =~= list@.skip(k + 1));
                if forall|i: int| #![trigger list@[i]]
                    0 <= i < list@.len() ==> conditional_wf(&list@[i]) {
                    assert(conditional_wf(&list@[k]));
                }
            }
            let Conditional { cond, block } = c;
            let ghost mid0 = *self;
            let cond2 = self.resolve_expression(cond);
            let ghost mid1 = *self;
            let ghost out_pre2 = out@;
            let block2 = self.check_block(block);
            let new_cond = Conditional { cond: cond2, block: block2 };
            out.push(new_cond);
            proof {
                Self::lemma_scaffold_frame(mid0, mid1);
                Self::lemma_frame_trans(mid0, mid1, *self);
                Self::lemma_frame_trans(*old(self), mid0, *self);
                if forall|i: int| #![trigger list@[i]]
                    0 <= i < list@.len() ==> conditional_wf(&list@[i]) {
                    assert forall|i: int| #![trigger out@[i]]
                        0 <= i < out@.len() implies conditional_wf(&out@[i]) by {
                        if i < out@.len() - 1 {
                            assert(out@[i] == out_pre2[i]);
                        } else {
                            assert(out@[i] == new_cond);
                        }
                    }
                }
                if forall|i: int|
                    0 <= i < list@.len() ==> block_fresh((#[trigger] list@[i]).block) {
                    assert(block_fresh(list@[k].block));
                    assert(out@.drop_last() =~= out_pre2);
                    assert(seq_cond_ids(out@) == seq_cond_ids(out_pre2) + block_decl_ids(block2));
                    assert(old(self).log() + seq_cond_ids(out@) =~= (old(self).log()
                        + seq_cond_ids(out_pre2)) + block_decl_ids(block2));
                }
                k = k + 1;
            }
        }
        out
    }

    /// Resolve the statement form of `if`: every arm, then the `else` body.
    fn resolve_if_block(&mut self, ib: IfBlock) -> (r: IfBlock)
        requires
            old(self).inv(),
        ensures
            final(self).inv(),
            Self::frame(*old(self), *final(self)),
            stmt_fresh(Statement::IfBlock(ib)) ==> final(self).log() == old(self).log()
                + ifblock_decl_ids(r),
            stmt_wf(&Statement::IfBlock(ib)) ==> stmt_wf(&Statement::IfBlock(r)),
        decreases ib, 5int,
    {
        let IfBlock { pos, conditionals, else_block } = ib;
        let c2 = self.resolve_conditionals(conditionals);
        let ghost mid = *self;
        let e2 = match else_block {
            Some(blk) => Some(self.check_block(blk)),
            None => None,
        };
        let r = IfBlock { pos, conditionals: c2, else_block: e2 };
        proof {
            Self::lemma_frame_trans(*old(self), mid, *self);
            if stmt_fresh(Statement::IfBlock(ib)) {
                lemma_ifblock_ids(r);
                assert(old(self).log() + ifblock_decl_ids(r) =~= (old(self).log() + seq_cond_ids(
                    c2@,
                )) + (match r.else_block {
                    Some(b) => block_decl_ids(b),
                    None => Seq::<Seq<u32>>::empty(),
                }));
                if else_block is None {
                    assert(self.log() =~= self.log() + Seq::<Seq<u32>>::empty());
                }
            }
        }
        r
    }
}

impl NameIdentifier {
    /// Give each parameter its id, in order.  A name repeated among the
    /// parameters of one function is a duplicate-argument error: the later
    /// occurrence gets no id and the earlier binding stays authoritative.
    fn resolve_params(&mut self, list: Vec<FnParam>) -> (r: Vec<FnParam>)
        requires
            old(self).inv(),
            old(self).scope_view().len() >= 1,
            old(self).scope_view().last() == Seq::<(String, ScopedId)>::empty(),
        ensures
            final(self).inv(),
            Self::frame(*old(self), *final(self)),
            (forall|i: int| 0 <= i < list@.len() ==> !(#[trigger] list@[i]).ident.state.is_assigned())
                ==> final(self).log() == old(self).log() + seq_param_ids(r@),
            r@.len() == list@.len(),
            forall|i: int| #![trigger r@[i]]
                0 <= i < r@.len() ==> r@[i].ident.name@ == list@[i].ident.name@ && r@[i].ty
                    == list@[i].ty,
            (forall|i: int|
                0 <= i < list@.len() ==> !(#[trigger] list@[i]).ident.state.is_assigned())
                && !final(self).is_exhausted() ==> forall|i: int| #![trigger r@[i]]
                0 <= i < r@.len() ==> (r@[i].ident.state.is_assigned()
                    <==> !param_name_dup_before(list@, i)),
            list@.len() == 0 ==> *final(self) == *old(self),
            (forall|i: int|
                0 <= i < list@.len() ==> !(#[trigger] list@[i]).ident.state.is_assigned())
                && (forall|i: int| 0 <= i < list@.len() ==> !param_name_dup_before(list@, i))
                && !final(self).is_exhausted() ==> forall|i: int| #![trigger r@[i]]
                0 <= i < r@.len() ==> r@[i].ident.state.is_assigned() && r@[i].ident.state.id()
                    == old(self).cursor().update(
                    old(self).cursor().len() - 1,
                    (old(self).cursor().last() + i) as u32,
                ),
    {
        let mut rest = list;
        let mut out: Vec<FnParam> = Vec::new();
        let ghost mut k: int = 0;
        proof {
            assert(rest@ =~= list@.skip(0));
            Self::lemma_frame_refl(*old(self));
            assert(old(self).log() + seq_param_ids(out@) =~= old(self).log());
        }
        while rest.len() > 0
            invariant
                self.inv(),
                self.scope_view().len() >= 1,
                Self::frame(*old(self), *self),
                0 <= k <= list@.len(),
                rest@ =~= list@.skip(k),
                out@.len() == k,
                (forall|i: int|
                    0 <= i < list@.len() ==> !(#[trigger] list@[i]).ident.state.is_assigned())
                    ==> self.log() == old(self).log() + seq_param_ids(out@),
                forall|i: int| #![trigger out@[i]]
                    0 <= i < k ==> out@[i].ident.name@ == list@[i].ident.name@ && out@[i].ty
                        == list@[i].ty,
                k == 0 ==> *self == *old(self),
                (forall|i: int|
                    0 <= i < list@.len() ==> !(#[trigger] list@[i]).ident.state.is_assigned())
                    && (forall|i: int| 0 <= i < list@.len() ==> !param_name_dup_before(list@, i))
                    && !self.is_exhausted() ==> old(self).cursor().last() + k <= u32::MAX
                    && self.cursor() == old(self).cursor().update(
                    old(self).cursor().len() - 1,
                    (old(self).cursor().last() + k) as u32,
                ) && (forall|i: int| #![trigger out@[i]]
                    0 <= i < k ==> out@[i].ident.state.is_assigned() && out@[i].ident.state.id()
                        == old(self).cursor().update(
                        old(self).cursor().len() - 1,
                        (old(self).cursor().last() + i) as u32,
                    )),
                (forall|i: int|
                    0 <= i < list@.len() ==> !(#[trigger] list@[i]).ident.state.is_assigned())
                    && !self.is_exhausted() ==> (forall|i: int| #![trigger out@[i]]
                    0 <= i < k ==> (out@[i].ident.state.is_assigned() <==> !param_name_dup_before(
                        list@,
                        i,
                    ))) && (forall|i: int| #![trigger list@[i]]
                    0 <= i < k ==> assoc_find(
                        self.scope_view().last(),
                        list@[i].ident.name@,
                    ) is Some) && (forall|e: int| #![trigger self.scope_view().last()[e]]
                    0 <= e < self.scope_view().last().len() ==> exists|j: int| #![trigger list@[j]]
                        0 <= j < k && list@[j].ident.name@ == self.scope_view().last()[e].0@),
            decreases rest@.len(),
        {
            let p = rest.remove(0);
            proof {
                assert(p == list@[k]);
                assert(rest@ =~= list@.skip(k + 1));
            }
            let ghost mid = *self;
            let ghost out_pre = out@;
            let p2 = self.resolve_one_param(p);
            out.push(p2);
            proof {
                Self::lemma_frame_trans(*old(self), mid, *self);
                assert forall|i: int| #![trigger out@[i]]
                    0 <= i < k + 1 implies out@[i].ident.name@ == list@[i].ident.name@
                    && out@[i].ty == list@[i].ty by {
                    if i < k {
                        assert(out@[i] == out_pre[i]);
                    } else {
                        assert(out@[i] == p2);
                    }
                }
                if (forall|i: int|
                    0 <= i < list@.len() ==> !(#[trigger] list@[i]).ident.state.is_assigned())
                    && !self.is_exhausted() {
                    assert(!mid.is_exhausted());
                    let nm = list@[k].ident.name@;
                    assert(!p.ident.state.is_assigned());
                    crate::scope::lemma_assoc_find_none(mid.scope_view().last(), nm);
                    if !param_name_dup_before(list@, k) {
                        assert forall|e: int|
                            0 <= e < mid.scope_view().last().len() implies (
                        #[trigger] mid.scope_view().last()[e]).0@ != nm by {
                            let j = choose|j: int| #![trigger list@[j]]
                                0 <= j < k && list@[j].ident.name@ == mid.scope_view().last()[
                                e].0@;
                            assert(list@[j].ident.name@ != nm);
                        }
                        assert(assoc_find(mid.scope_view().last(), nm) is None);
                        assert(p2.ident.state.is_assigned());
                    } else {
                        let j = choose|j: int| #![trigger list@[j]]
                            0 <= j < k && list@[j].ident.name@ == list@[k].ident.name@;
                        assert(assoc_find(mid.scope_view().last(), list@[j].ident.name@)
                            is Some);
                        assert(assoc_find(mid.scope_view().last(), nm) is Some);
                        assert(!p2.ident.state.is_assigned());
                    }
                    assert forall|i: int| #![trigger out@[i]]
                        0 <= i < k + 1 implies (out@[i].ident.state.is_assigned()
                        <==> !param_name_dup_before(list@, i)) by {
                        if i < k {
                            assert(out@[i] == out_pre[i]);
                        } else {
                            assert(out@[i] == p2);
                        }
                    }
                    assert forall|i: int| #![trigger list@[i]]
                        0 <= i < k + 1 implies assoc_find(
                        self.scope_view().last(),
                        list@[i].ident.name@,
                    ) is Some by {
                        let nmi = list@[i].ident.name@;
                        crate::scope::lemma_assoc_find_none(self.scope_view().last(), nmi);
                        if i < k {
                            crate::scope::lemma_assoc_find_none(mid.scope_view().last(), nmi);
                            let wi = choose|e: int|
                                0 <= e < mid.scope_view().last().len() && (
                                #[trigger] mid.scope_view().last()[e]).0@ == nmi;
                            if self.scope_view().last().len() == mid.scope_view().last().len() {
                                assert(self.scope_view() == mid.scope_view());
                            } else {
                                assert(self.scope_view().last()[wi]
                                    == mid.scope_view().last()[wi]);
                            }
                        } else {
                            if p2.ident.state.is_assigned() {
                                assert(assoc_find(self.scope_view().last(), nm) is Some);
                            } else {
                                assert(self.scope_view() == mid.scope_view());
                            }
                        }
                    }
                    assert forall|e: int| #![trigger self.scope_view().last()[e]]
                        0 <= e < self.scope_view().last().len() implies exists|j: int|
                        #![trigger list@[j]]
                        0 <= j < k + 1 && list@[j].ident.name@ == self.scope_view().last()[
                        e].0@ by {
                        if e < mid.scope_view().last().len() {
                            assert(self.scope_view().last()[e] == mid.scope_view().last()[e]);
                        } else {
                            assert(self.scope_view().last()[e]
                                == self.scope_view().last().last());
                            assert(list@[k].ident.name@ == self.scope_view().last()[e].0@);
                        }
                    }
                }
                if (forall|i: int|
                    0 <= i < list@.len() ==> !(#[trigger] list@[i]).ident.state.is_assigned())
                    && (forall|i: int| 0 <= i < list@.len() ==> !param_name_dup_before(list@, i))
                    && !self.is_exhausted() {
                    assert(!mid.is_exhausted());
                    let c0 = old(self).cursor();
                    let len0 = c0.len() as int;
                    let last0 = c0.last();
                    assert(mid.cursor() == c0.update(len0 - 1, (last0 + k) as u32));
                    assert(mid.cursor().last() == (last0 + k) as u32);
                    assert(!param_name_dup_before(list@, k));
                    assert(p2.ident.state.is_assigned());
                    assert(p2.ident.state.id() == mid.cursor());
                    assert(mid.cursor().last() < u32::MAX);
                    assert(last0 + k < u32::MAX);
                    assert(self.cursor() == mid.cursor().update(
                        len0 - 1,
                        (mid.cursor().last() + 1) as u32,
                    ));
                    assert(self.cursor() =~= c0.update(len0 - 1, (last0 + (k + 1)) as u32));
                    assert forall|i: int| #![trigger out@[i]]
                        0 <= i < k + 1 implies out@[i].ident.state.is_assigned() && out@[
                    i].ident.state.id() == c0.update(len0 - 1, (last0 + i) as u32) by {
                        if i < k {
                            assert(out@[i] == out_pre[i]);
                        } else {
                            assert(out@[i] == p2);
                            assert(p2.ident.state.id() =~= c0.update(
                                len0 - 1,
                                (last0 + i) as u32,
                            ));
                        }
                    }
                }
                if forall|i: int|
                    0 <= i < list@.len() ==> !(#[trigger] list@[i]).ident.state.is_assigned() {
                    assert(!list@[k].ident.state.is_assigned());
                    assert(out@.drop_last() =~= out_pre);
                    assert(seq_param_ids(out@) == seq_param_ids(out_pre) + opt_assigned(
                        p2.ident.state,
                    ));
                    assert(old(self).log() + seq_param_ids(out@) =~= (old(self).log()
                        + seq_param_ids(out_pre)) + opt_assigned(p2.ident.state));
                }
                k = k + 1;
            }
        }
        out
    }

    /// One parameter: check for a duplicate in the function's own scope,
    /// then snapshot, record and bind its id.
    fn resolve_one_param(&mut self, p: FnParam) -> (r: FnParam)
        requires
            old(self).inv(),
            old(self).scope_view().len() >= 1,
        ensures
            final(self).inv(),
            Self::frame(*old(self), *final(self)),
            !p.ident.state.is_assigned() ==> final(self).log() == old(self).log() + opt_assigned(
                r.ident.state,
            ),
            p.ident.state.is_assigned() ==> *final(self) == *old(self) && r == p,
            r.ident.name@ == p.ident.name@,
            r.ident.pos == p.ident.pos,
            r.ty == p.ty,
            !p.ident.state.is_assigned() && assoc_find(
                old(self).scope_view().last(),
                p.ident.name@,
            ) is Some ==> !r.ident.state.is_assigned() && final(self).errs().len() == old(self).errs().len() + 1 && final(self).errs().last().kind is DuplicateParameter && final(self).errs().last().name@ == p.ident.name@ && final(self).scope_view() == old(self).scope_view(),
            !p.ident.state.is_assigned() && assoc_find(
                old(self).scope_view().last(),
                p.ident.name@,
            ) is None && !final(self).is_exhausted() ==> r.ident.state.is_assigned() && assoc_find(
                final(self).scope_view().last(),
                p.ident.name@,
            ) == Some(r.ident.state.id()) && final(self).scope_view().last().len() == old(self).scope_view().last().len() + 1 && final(self).scope_view().last().drop_last() == old(self).scope_view().last() && final(self).scope_view().last().last().0@ == p.ident.name@
                && r.ident.state.id() == old(self).cursor() && old(self).cursor().last()
                < u32::MAX && final(self).cursor() == old(self).cursor().update(
                old(self).cursor().len() - 1,
                (old(self).cursor().last() + 1) as u32,
            ),
            !p.ident.state.is_assigned() && assoc_find(
                old(self).scope_view().last(),
                p.ident.name@,
            ) is None && final(self).is_exhausted() && !r.ident.state.is_assigned() ==> final(self).scope_view() == old(self).scope_view(),
    {
        if matches!(&p.ident.state, IdState::Assigned(_)) {
            proof {
                Self::lemma_frame_refl(*old(self));
            }
            return p;
        }
        let FnParam { ident, ty } = p;
        let found = self.builder.get_local(&ident.name);
        match found {
            Some(_) => {
                let err_name = ident.name.clone();
                self.errors.push(
                    CheckerError {
                        pos: ident.pos,
                        name: err_name,
                        related: Vec::new(),
                        kind: ErrorKind::DuplicateParameter,
                    },
                );
                let r = FnParam { ident, ty };
                proof {
                    assert(old(self).errs().is_prefix_of(self.errs())) by {
                        assert(old(self).errs() =~= self.errs().subrange(
                            0,
                            old(self).errs().len() as int,
                        ));
                    }
                    Self::lemma_frame_refl(*old(self));
                    assert(old(self).log() + opt_assigned(r.ident.state) =~= old(self).log());
                }
                r
            },
            None => {
                let allocated = self.allocate();
                match allocated {
                    Some(id) => {
                        let name_copy = ident.name.clone();
                        let table_id = id.snapshot();
                        self.builder.define_local(name_copy, table_id);
                        proof {
                            assert(final(self).scope_view().subrange(
                                0,
                                old(self).scope_view().len() - 1,
                            ) =~= old(self).scope_view().subrange(
                                0,
                                old(self).scope_view().len() - 1,
                            ));
                        }
                        let new_ident = Identifier {
                            pos: ident.pos,
                            name: ident.name,
                            state: IdState::Assigned(id),
                        };
                        let r = FnParam { ident: new_ident, ty };
                        proof {
                            assert(old(self).log() + opt_assigned(r.ident.state) =~= old(self).log().push(id@));
                            assert(old(self).log().is_prefix_of(final(self).log())) by {
                                assert(old(self).log() =~= final(self).log().subrange(
                                    0,
                                    old(self).log().len() as int,
                                ));
                            }
                            if !self.is_exhausted() {
                                assert forall|i: int|
                                    old(self).log().len() <= i < self.log().len() implies (
                                #[trigger] self.log()[i]).len() >= old(self).cursor().len()
                                    && self.log()[i].subrange(0, old(self).cursor().len() - 1)
                                    == old(self).cursor().subrange(0, old(self).cursor().len() - 1)
                                    && id_lt(self.log()[i], self.cursor()) by {
                                    assert(self.log()[i] == id@);
                                    assert(id@ == old(self).cursor());
                                }
                            }
                        }
                        r
                    },
                    None => {
                        let r = FnParam { ident, ty };
                        proof {
                            Self::lemma_frame_refl(*old(self));
                            assert(old(self).log() + opt_assigned(r.ident.state) =~= old(self).log());
                        }
                        r
                    },
                }
            },
        }
    }
}

pub open spec fn seq_param_ids(ps: Seq<FnParam>) -> Seq<Seq<u32>>
    decreases ps.len(),
{
    if ps.len() == 0 {
        Seq::empty()
    } else {
        seq_param_ids(ps.drop_last()) + opt_assigned(ps.last().ident.state)
    }
}

pub open spec fn seq_head_ids(items: Seq<Item>) -> Seq<Seq<u32>>
    decreases items.len(),
{
    if items.len() == 0 {
        Seq::empty()
    } else {
        seq_head_ids(items.drop_last()) + item_header_id(items.last())
    }
}

pub open spec fn seq_body_ids(items: Seq<Item>) -> Seq<Seq<u32>>
    decreases items.len(),
{
    if items.len() == 0 {
        Seq::empty()
    } else {
        seq_body_ids(items.drop_last()) + item_body_ids(items.last())
    }
}

pub proof fn lemma_params_ids_upto(f: FnDeclaration, i: int)
    requires
        0 <= i <= f.params@.len(),
    ensures
        params_ids_upto(f, i) == seq_param_ids(f.params@.subrange(0, i)),
    decreases i,
{
    if i == 0 {
        assert(seq_param_ids(f.params@.subrange(0, 0)).len() == 0);
    } else {
        lemma_params_ids_upto(f, i - 1);
        let sub = f.params@.subrange(0, i);
        assert(sub.drop_last() =~= f.params@.subrange(0, i - 1));
        assert(sub.last() == f.params@[i - 1]);
    }
}

/// Bridge: a function's assigned ids are its parameters' then its body's.
pub proof fn lemma_fn_ids(f: FnDeclaration)
    ensures
        fn_assigned_ids(f) == seq_param_ids(f.params@) + block_decl_ids(f.block),
{
    lemma_params_ids_upto(f, f.params@.len() as int);
    assert(f.params@.subrange(0, f.params@.len() as int) =~= f.params@);
}

pub proof fn lemma_headers_upto(items: Seq<Item>, i: int)
    requires
        0 <= i <= items.len(),
    ensures
        headers_upto(items, i) == seq_head_ids(items.subrange(0, i)),
    decreases i,
{
    if i == 0 {
        assert(seq_head_ids(items.subrange(0, 0)).len() == 0);
    } else {
        lemma_headers_upto(items, i - 1);
        let sub = items.subrange(0, i);
        assert(sub.drop_last() =~= items.subrange(0, i - 1));
        assert(sub.last() == items[i - 1]);
    }
}

pub proof fn lemma_bodies_upto(items: Seq<Item>, i: int)
    requires
        0 <= i <= items.len(),
    ensures
        bodies_upto(items, i) == seq_body_ids(items.subrange(0, i)),
    decreases i,
{
    if i == 0 {
        assert(seq_body_ids(items.subrange(0, 0)).len() == 0);
    } else {
        lemma_bodies_upto(items, i - 1);
        let sub = items.subrange(0, i);
        assert(sub.drop_last() =~= items.subrange(0, i - 1));
        assert(sub.last() == items[i - 1]);
    }
}

/// Two item lists with the same headers, position by position, enumerate
/// the same header ids.
pub proof fn lemma_head_ids_congruent(a: Seq<Item>, b: Seq<Item>)
    requires
        a.len() == b.len(),
        forall|i: int| 0 <= i < a.len() ==> item_header_id(#[trigger] a[i]) == item_header_id(b[i]),
    ensures
        seq_head_ids(a) == seq_head_ids(b),
    decreases a.len(),
{
    if a.len() > 0 {
        lemma_head_ids_congruent(a.drop_last(), b.drop_last());
        assert(a.drop_last().len() == b.drop_last().len());
        assert(item_header_id(a.last()) == item_header_id(b.last()));
    }
}

/// A suffix of a duplicate-free sequence is duplicate-free.
pub proof fn lemma_no_dup_suffix(a: Seq<Seq<u32>>, b: Seq<Seq<u32>>)
    requires
        (a + b).no_duplicates(),
    ensures
        b.no_duplicates(),
{
    assert forall|i: int, j: int| 0 <= i < j < b.len() implies b[i] != b[j] by {
        assert((a + b)[a.len() + i] == b[i]);
        assert((a + b)[a.len() + j] == b[j]);
    }
}

impl NameIdentifier {
    /// Walk one function's parameters and body.  A function whose header
    /// carries no id was flagged as a duplicate upstream and is skipped
    /// whole: checking it anyway could at best repeat errors and at worst
    /// break the uniqueness of ids already on the tree.  Otherwise the
    /// header's id becomes the cursor baseline, one scope holds the
    /// parameters and the body's statements together, and every id made
    /// here extends the header's id.
    pub fn check_fn_declaration(&mut self, f: FnDeclaration) -> (r: FnDeclaration)
        requires
            old(self).inv(),
            old(self).scope_view().len() == 0,
            f.ident.state.is_assigned() && !old(self).is_exhausted() ==> forall|i: int|
                0 <= i < old(self).log().len() ==> id_lt(
                    #[trigger] old(self).log()[i],
                    f.ident.state.id().push(0u32),
                ) || old(self).log()[i].len() < f.ident.state.id().len() + 1,
        ensures
            final(self).inv(),
            final(self).scope_view().len() == 0,
            final(self).fn_view() == old(self).fn_view(),
            old(self).log().is_prefix_of(final(self).log()),
            old(self).errs().is_prefix_of(final(self).errs()),
            old(self).is_exhausted() ==> final(self).is_exhausted(),
            !f.ident.state.is_assigned() ==> *final(self) == *old(self) && r == f,
            r.ident == f.ident,
            r.ret_ty == f.ret_ty,
            fn_wf(&f) ==> fn_wf(&r),
            f.ident.state.is_assigned() ==> r.params@.len() == f.params@.len() && (forall|i: int|
                #![trigger r.params@[i]]
                0 <= i < r.params@.len() ==> r.params@[i].ident.name@ == f.params@[
                    i
                ].ident.name@),
            f.ident.state.is_assigned() && fn_fresh(f) && !final(self).is_exhausted()
                ==> forall|i: int| #![trigger r.params@[i]]
                0 <= i < r.params@.len() ==> (r.params@[i].ident.state.is_assigned()
                    <==> !param_name_dup_before(f.params@, i)),
            f.ident.state.is_assigned() && fn_fresh(f) && !final(self).is_exhausted() && (forall|
                k: int|
                0 <= k < f.params@.len() ==> !param_name_dup_before(f.params@, k)) ==> forall|
                k: int|
                #![trigger r.params@[k]]
                0 <= k < r.params@.len() ==> r.params@[k].ident.state.is_assigned() && r.params@[
                    k
                ].ident.state.id() == f.ident.state.id().push(k as u32),
            f.ident.state.is_assigned() && !old(self).is_exhausted() && f.params@.len() == 0
                && f.block.stmts@.len() == 0 ==> !final(self).is_exhausted() && final(self).errs()
                == old(self).errs(),
            f.ident.state.is_assigned() && fn_fresh(f) ==> final(self).log() == old(self).log()
                + fn_assigned_ids(r),
            f.ident.state.is_assigned() && !final(self).is_exhausted() ==> forall|i: int|
                old(self).log().len() <= i < final(self).log().len() ==> (#[trigger] final(self).log()[i]).len() >= f.ident.state.id().len() + 1 && final(self).log()[i].subrange(
                    0,
                    f.ident.state.id().len() as int,
                ) == f.ident.state.id(),
    {
        let fid = match &f.ident.state {
            IdState::Assigned(s) => s.snapshot(),
            IdState::Unassigned => {
                return f;
            },
        };
        let ghost fidv = fid@;
        let FnDeclaration { ident, params, ret_ty, block } = f;
        self.current = fid;
        self.current.push();
        self.builder.new_scope();
        proof {
            if !self.is_exhausted() {
                assert forall|i: int|
                    0 <= i < self.log().len() implies id_lt(#[trigger] self.log()[i], self.cursor())
                    || self.log()[i].len() < self.cursor().len() by {
                    assert(id_lt(old(self).log()[i], fidv.push(0u32)) || old(self).log()[i].len()
                        < fidv.len() + 1);
                }
            }
            assert(self.scope_view().last() =~= Seq::<(String, ScopedId)>::empty());
        }
        let ghost adopted = *self;
        let p2 = self.resolve_params(params);
        let ghost mid = *self;
        let Block { stmts } = block;
        let s2 = self.resolve_stmts(stmts);
        proof {
            Self::lemma_frame_trans(adopted, mid, *self);
        }
        self.builder.pop();
        let r = FnDeclaration {
            ident,
            params: p2,
            ret_ty,
            block: Block { stmts: s2 },
        };
        proof {
            lemma_prefix_trans(old(self).log(), adopted.log(), self.log());
            lemma_prefix_trans(old(self).errs(), adopted.errs(), self.errs());
            if fn_fresh(f) {
                lemma_fn_ids(r);
                lemma_block_ids(r.block);
                assert(old(self).log() + fn_assigned_ids(r) =~= (old(self).log() + seq_param_ids(
                    p2@,
                )) + seq_stmt_ids(s2@));
            }
            if fn_fresh(f) && !self.is_exhausted() && (forall|k: int|
                0 <= k < f.params@.len() ==> !param_name_dup_before(f.params@, k)) {
                assert(!mid.is_exhausted());
                assert(adopted.cursor() =~= fidv.push(0u32));
                assert forall|k: int| #![trigger r.params@[k]]
                    0 <= k < r.params@.len() implies r.params@[k].ident.state.is_assigned()
                    && r.params@[k].ident.state.id() == fidv.push(k as u32) by {
                    assert(p2@[k].ident.state.id() == adopted.cursor().update(
                        adopted.cursor().len() - 1,
                        (adopted.cursor().last() + k) as u32,
                    ));
                    assert(adopted.cursor().update(
                        adopted.cursor().len() - 1,
                        (adopted.cursor().last() + k) as u32,
                    ) =~= fidv.push(k as u32));
                }
            }
            if !self.is_exhausted() {
                assert forall|i: int|
                    old(self).log().len() <= i < self.log().len() implies (
                #[trigger] self.log()[i]).len() >= fidv.len() + 1 && self.log()[i].subrange(
                    0,
                    fidv.len() as int,
                ) == fidv by {
                    assert(self.log()[i].len() >= adopted.cursor().len());
                    assert(self.log()[i].subrange(0, adopted.cursor().len() - 1)
                        == adopted.cursor().subrange(0, adopted.cursor().len() - 1));
                    assert(adopted.cursor() =~= fidv.push(0u32));
                    assert(adopted.cursor().subrange(0, adopted.cursor().len() - 1) =~= fidv);
                }
            }
        }
        r
    }

    /// Fix one item's header id, before any body is walked, so items can be
    /// referenced from every function regardless of declaration order.  A
    /// header that already carries an id was processed before: the item is
    /// returned untouched, no id is allocated and no error is reported.
    /// Otherwise a repeated name is a duplicate-function error and the item
    /// keeps no id, and a new name is snapshotted and published in the
    /// function table.  The second result says whether this call assigned
    /// the header.
    pub fn identify_item_header(&mut self, f: FnDeclaration) -> (r: (FnDeclaration, bool))
        requires
            old(self).inv(),
        ensures
            final(self).inv(),
            final(self).cursor().len() == old(self).cursor().len(),
            final(self).cursor().subrange(0, old(self).cursor().len() - 1) == old(self).cursor().subrange(0, old(self).cursor().len() - 1),
            old(self).cursor().last() <= final(self).cursor().last(),
            old(self).log().is_prefix_of(final(self).log()),
            old(self).errs().is_prefix_of(final(self).errs()),
            final(self).scope_view() == old(self).scope_view(),
            old(self).fn_view().is_prefix_of(final(self).fn_view()),
            old(self).is_exhausted() ==> final(self).is_exhausted(),
            f.ident.state.is_assigned() ==> *final(self) == *old(self) && r.0 == f && r.1
                == false,
            !f.ident.state.is_assigned() ==> final(self).log() == old(self).log() + opt_assigned(
                r.0.ident.state,
            ),
            r.1 == (!f.ident.state.is_assigned() && r.0.ident.state.is_assigned()),
            r.0.params == f.params,
            r.0.ret_ty == f.ret_ty,
            r.0.block == f.block,
            r.0.ident.name@ == f.ident.name@,
            r.0.ident.pos == f.ident.pos,
            r.1 ==> r.0.ident.state.id() == old(self).cursor() && final(self).log() == old(self).log().push(old(self).cursor()) && assoc_find(final(self).fn_view(), f.ident.name@)
                == Some(r.0.ident.state.id()) && final(self).fn_view().len() == old(self).fn_view().len() + 1 && final(self).fn_view().last().0@ == f.ident.name@,
            !r.1 ==> final(self).log() == old(self).log() && final(self).fn_view() == old(self).fn_view(),
            !f.ident.state.is_assigned() && assoc_find(old(self).fn_view(), f.ident.name@)
                is Some ==> !r.0.ident.state.is_assigned() && final(self).errs().len() == old(self).errs().len() + 1 && final(self).errs().last().kind is DuplicateFunction && final(self).errs().last().name@ == f.ident.name@,
            !f.ident.state.is_assigned() && assoc_find(old(self).fn_view(), f.ident.name@) is None
                && !final(self).is_exhausted() ==> r.0.ident.state.is_assigned(),
            !final(self).is_exhausted() && !old(self).is_exhausted() ==> forall|i: int|
                old(self).log().len() <= i < final(self).log().len() ==> #[trigger] final(self).log()[i] == old(self).cursor() && id_lt(final(self).log()[i], final(self).cursor()),
    {
        if matches!(&f.ident.state, IdState::Assigned(_)) {
            return (f, false);
        }
        let FnDeclaration { ident, params, ret_ty, block } = f;
        let found = assoc_get(&self.fn_table, &ident.name);
        match found {
            Some(_) => {
                let err_name = ident.name.clone();
                self.errors.push(
                    CheckerError {
                        pos: ident.pos,
                        name: err_name,
                        related: Vec::new(),
                        kind: ErrorKind::DuplicateFunction,
                    },
                );
                let r = FnDeclaration { ident, params, ret_ty, block };
                proof {
                    assert(old(self).errs().is_prefix_of(self.errs())) by {
                        assert(old(self).errs() =~= self.errs().subrange(
                            0,
                            old(self).errs().len() as int,
                        ));
                    }
                    assert(old(self).log() + opt_assigned(r.ident.state) =~= old(self).log());
                    assert(old(self).log().is_prefix_of(self.log()));
                    assert(old(self).fn_view().is_prefix_of(self.fn_view()));
                }
                (r, false)
            },
            None => {
                let allocated = self.allocate();
                match allocated {
                    Some(id) => {
                        let name_copy = ident.name.clone();
                        let table_id = id.snapshot();
                        self.fn_table.push((name_copy, table_id));
                        let new_ident = Identifier {
                            pos: ident.pos,
                            name: ident.name,
                            state: IdState::Assigned(id),
                        };
                        let r = FnDeclaration { ident: new_ident, params, ret_ty, block };
                        proof {
                            assert(old(self).log() + opt_assigned(r.ident.state) =~= old(self).log().push(id@));
                            assert(old(self).log().is_prefix_of(self.log())) by {
                                assert(old(self).log() =~= self.log().subrange(
                                    0,
                                    old(self).log().len() as int,
                                ));
                            }
                            assert(old(self).fn_view().is_prefix_of(self.fn_view())) by {
                                assert(old(self).fn_view() =~= self.fn_view().subrange(
                                    0,
                                    old(self).fn_view().len() as int,
                                ));
                            }
                            assert(self.fn_view().last() == (name_copy, table_id));
                        }
                        (r, true)
                    },
                    None => {
                        let r = FnDeclaration { ident, params, ret_ty, block };
                        proof {
                            assert(old(self).log() + opt_assigned(r.ident.state) =~= old(self).log());
                            assert(old(self).log().is_prefix_of(self.log()));
                            assert(old(self).errs().is_prefix_of(self.errs()));
                            assert(old(self).fn_view().is_prefix_of(self.fn_view()));
                        }
                        (r, false)
                    },
                }
            },
        }
    }
}

/// Nothing is enumerated from a fresh subtree: the id accounting of a run
/// starts from zero on parser output.
pub proof fn lemma_fresh_stmt_ids(s: Statement)
    requires
        stmt_fresh(s),
    ensures
        stmt_decl_ids(s) == Seq::<Seq<u32>>::empty(),
    decreases s, 3int,
{
    match s {
        Statement::DoBlock(b) => {
            lemma_fresh_block_ids(b);
        },
        Statement::IfBlock(ib) => {
            lemma_fresh_conds_upto(ib, ib.conditionals@.len() as int);
            match ib.else_block {
                Some(b) => {
                    lemma_fresh_block_ids(b);
                },
                None => {},
            }
            assert(ifblock_decl_ids(ib) =~= Seq::<Seq<u32>>::empty());
        },
        _ => {},
    }
}

pub proof fn lemma_fresh_block_ids(b: Block)
    requires
        block_fresh(b),
    ensures
        block_decl_ids(b) == Seq::<Seq<u32>>::empty(),
    decreases b, b.stmts@.len() as int + 1int,
{
    lemma_fresh_block_upto(b, b.stmts@.len() as int);
}

pub proof fn lemma_fresh_block_upto(b: Block, i: int)
    requires
        block_fresh(b),
        0 <= i <= b.stmts@.len(),
    ensures
        block_ids_upto(b, i) == Seq::<Seq<u32>>::empty(),
    decreases b, i,
{
    if i > 0 {
        lemma_fresh_block_upto(b, i - 1);
        assert(stmt_fresh(b.stmts@[i - 1]));
        lemma_fresh_stmt_ids(b.stmts@[i - 1]);
        assert(block_ids_upto(b, i) =~= Seq::<Seq<u32>>::empty());
    }
}

pub proof fn lemma_fresh_conds_upto(ib: IfBlock, i: int)
    requires
        forall|j: int|
            0 <= j < ib.conditionals@.len() ==> block_fresh((#[trigger] ib.conditionals@[j]).block),
        0 <= i <= ib.conditionals@.len(),
    ensures
        conds_ids_upto(ib, i) == Seq::<Seq<u32>>::empty(),
    decreases ib, i,
{
    if i > 0 {
        lemma_fresh_conds_upto(ib, i - 1);
        lemma_fresh_block_ids(ib.conditionals@[i - 1].block);
        assert(conds_ids_upto(ib, i) =~= Seq::<Seq<u32>>::empty());
    }
}

pub proof fn lemma_fresh_params_upto(f: FnDeclaration, i: int)
    requires
        forall|j: int| 0 <= j < f.params@.len() ==> !(#[trigger] f.params@[j]).ident.state.is_assigned(),
        0 <= i <= f.params@.len(),
    ensures
        params_ids_upto(f, i) == Seq::<Seq<u32>>::empty(),
    decreases i,
{
    if i > 0 {
        lemma_fresh_params_upto(f, i - 1);
        assert(params_ids_upto(f, i) =~= Seq::<Seq<u32>>::empty());
    }
}

pub proof fn lemma_fresh_fn_ids(f: FnDeclaration)
    requires
        fn_fresh(f),
    ensures
        fn_assigned_ids(f) == Seq::<Seq<u32>>::empty(),
{
    lemma_fresh_params_upto(f, f.params@.len() as int);
    lemma_fresh_block_ids(f.block);
    assert(fn_assigned_ids(f) =~= Seq::<Seq<u32>>::empty());
}

pub open spec fn item_fn(it: Item) -> FnDeclaration {
    match it {
        Item::BlockFnDeclaration(f) => f,
    }
}

/// Every item header already carries an id: the state after a completed
/// identification pass.
pub open spec fn unit_identified(u: Unit) -> bool {
    forall|k: int| #![trigger u.items@[k]]
        0 <= k < u.items@.len() ==> item_fn(u.items@[k]).ident.state.is_assigned()
}

/// An earlier parameter of the same function already uses this name.
pub open spec fn param_name_dup_before(ps: Seq<FnParam>, k: int) -> bool {
    exists|j: int| #![trigger ps[j]]
        0 <= j < k && ps[j].ident.name@ == ps[k].ident.name@
}

/// An earlier item of the same unit already declares this item's name.
pub open spec fn name_dup_before(items: Seq<Item>, k: int) -> bool {
    exists|j: int| #![trigger items[j]]
        0 <= j < k && item_fn(items[j]).ident.name@ == item_fn(items[k]).ident.name@
}

impl NameIdentifier {
    /// Check one compilation unit: first fix every item's header id, then
    /// walk each function's parameters and body.  The cursor is incremented
    /// before anything is assigned, so the reserved starting id is never
    /// given out and one pass object can check several units in sequence.
    ///
    /// On a fresh unit (no id assigned anywhere yet) the ghost log grows by
    /// exactly the ids now sitting on the returned tree, in assignment
    /// order, and that enumeration repeats no id: every assigned id is
    /// pairwise distinct.
    pub fn check_unit(&mut self, u: Unit) -> (r: Unit)
        requires
            old(self).inv(),
            old(self).cursor().len() == 1,
            old(self).scope_view().len() == 0,
        ensures
            final(self).inv(),
            final(self).cursor().len() == 1,
            final(self).scope_view().len() == 0,
            old(self).log().is_prefix_of(final(self).log()),
            old(self).errs().is_prefix_of(final(self).errs()),
            r.items@.len() == u.items@.len(),
            unit_fresh(u) ==> final(self).log() == old(self).log() + unit_assigned_ids(r),
            unit_fresh(u) ==> unit_assigned_ids(r).no_duplicates(),
            unit_wf(&u) ==> unit_wf(&r),
            forall|k2: int| #![trigger r.items@[k2]]
                0 <= k2 < r.items@.len() ==> item_fn(r.items@[k2]).ident.name@ == item_fn(
                    u.items@[k2],
                ).ident.name@,
            unit_fresh(u) && !final(self).is_exhausted() ==> forall|k2: int|
                #![trigger r.items@[k2]]
                0 <= k2 < r.items@.len() ==> (item_fn(r.items@[k2]).ident.state.is_assigned()
                    <==> (assoc_find(
                    old(self).fn_view(),
                    item_fn(u.items@[k2]).ident.name@,
                ) is None && !name_dup_before(u.items@, k2))),
            !final(self).is_exhausted() ==> forall|i: int|
                old(self).log().len() <= i < final(self).log().len() ==> (#[trigger] final(self).log()[i]).len() >= 1 && (final(self).log()[i][0] as int) >= 1,
            !old(self).is_exhausted() && old(self).cursor().last() + 1 < u32::MAX
                && u.items@.len() == 0 ==> !final(self).is_exhausted() && final(self).errs()
                == old(self).errs(),
            unit_identified(u) ==> r.items@ == u.items@ && final(self).log() == old(self).log()
                && final(self).errs() == old(self).errs(),
    {
        let ghost pre = *old(self);
        let ghost n = u.items@.len() as int;
        self.bump();
        let unit_level = self.current.last_level();
        let ghost base = self.cursor();
        proof {
            if !pre.is_exhausted() {
                assert forall|i: int|
                    0 <= i < pre.log().len() implies (#[trigger] pre.log()[i]).len() == 0
                    || id_lt(pre.log()[i], base) by {
                    if pre.log()[i].len() >= pre.cursor().len() {
                        assert(id_lt(pre.log()[i], pre.cursor()));
                        if self.is_exhausted() {
                            assert(base == pre.cursor());
                        } else {
                            lemma_id_lt_advance(pre.log()[i], pre.cursor(), base);
                        }
                    }
                }
            }
            assert(base =~= seq![unit_level]);
        }
        self.current.push();
        proof {
            if !self.is_exhausted() {
                assert forall|i: int|
                    0 <= i < self.log().len() implies id_lt(#[trigger] self.log()[i], self.cursor())
                    || self.log()[i].len() < self.cursor().len() by {
                    assert(self.log()[i] == pre.log()[i]);
                    if self.log()[i].len() == 0 {
                        assert(id_lt(self.log()[i], self.cursor()));
                    } else {
                        assert(id_lt(self.log()[i], base));
                        lemma_id_lt_push(self.log()[i], base, 0u32);
                    }
                }
            }
            assert(self.cursor() =~= base.push(0u32));
            assert(self.cursor().subrange(0, 1) =~= base);
        }
        let Unit { items } = u;
        let ghost pa0 = *self;
        let mut rest = items;
        let mut out1: Vec<Item> = Vec::new();
        let mut marks: Vec<bool> = Vec::new();
        let ghost mut k: int = 0;
        proof {
            assert(rest@ =~= items@.skip(0));
            assert(pre.log().is_prefix_of(self.log()));
            assert(pre.errs().is_prefix_of(self.errs()));
            if unit_fresh(u) {
                assert(self.log() =~= pre.log() + seq_head_ids(out1@));
            }
        }
        while rest.len() > 0
            invariant
                self.inv(),
                self.cursor().len() == 2,
                self.cursor().subrange(0, 1) == base,
                base.len() == 1,
                self.scope_view() == pre.scope_view(),
                pre.log().is_prefix_of(self.log()),
                pre.errs().is_prefix_of(self.errs()),
                pre.is_exhausted() ==> self.is_exhausted(),
                0 <= k <= n,
                n == items@.len(),
                u.items@ == items@,
                rest@ =~= items@.skip(k),
                out1@.len() == k,
                marks@.len() == k,
                k == 0 ==> *self == pa0,
                unit_identified(u) ==> out1@ =~= items@.subrange(0, k) && *self == pa0 && (forall|
                    j: int|
                    0 <= j < k ==> !marks@[j]),
                unit_fresh(u) ==> self.log() == pre.log() + seq_head_ids(out1@),
                !self.is_exhausted() ==> forall|i: int|
                    pre.log().len() <= i < self.log().len() ==> (#[trigger] self.log()[
                        i
                    ]).len() == 2 && self.log()[i].subrange(0, 1) == base && (self.log()[
                        i
                    ].last() as int) < (self.cursor().last() as int),
                !self.is_exhausted() ==> forall|j: int|
                    0 <= j < k && marks@[j] ==> (#[trigger] item_fn(
                        out1@[j],
                    )).ident.state.is_assigned() && item_fn(out1@[j]).ident.state.id().len() == 2
                        && item_fn(out1@[j]).ident.state.id().subrange(0, 1) == base && (item_fn(
                        out1@[j],
                    ).ident.state.id().last() as int) < (self.cursor().last() as int),
                !self.is_exhausted() ==> forall|j1: int, j2: int|
                    0 <= j1 < j2 < k && marks@[j1] && marks@[j2] ==> (item_fn(
                        #[trigger] out1@[j1],
                    ).ident.state.id().last() as int) < (item_fn(
                        #[trigger] out1@[j2],
                    ).ident.state.id().last() as int),
                unit_fresh(u) ==> forall|j: int|
                    0 <= j < k ==> (marks@[j] == (#[trigger] item_fn(
                        out1@[j],
                    )).ident.state.is_assigned()) && fn_fresh(item_fn(out1@[j])),
                forall|j: int| #![trigger out1@[j]]
                    0 <= j < k ==> item_fn(out1@[j]).ident.name@ == item_fn(
                        items@[j],
                    ).ident.name@,
                forall|j: int| #![trigger out1@[j]]
                    0 <= j < k ==> item_fn(out1@[j]).block == item_fn(items@[j]).block,
                pre.fn_view().is_prefix_of(self.fn_view()),
                unit_fresh(u) && !self.is_exhausted() ==> forall|j: int| #![trigger items@[j]]
                    0 <= j < k ==> assoc_find(
                        self.fn_view(),
                        item_fn(items@[j]).ident.name@,
                    ) is Some,
                unit_fresh(u) && !self.is_exhausted() ==> forall|i: int|
                    #![trigger self.fn_view()[i]]
                    pre.fn_view().len() <= i < self.fn_view().len() ==> exists|j: int|
                        #![trigger items@[j]]
                        0 <= j < k && item_fn(items@[j]).ident.name@ == self.fn_view()[i].0@,
                unit_fresh(u) && !self.is_exhausted() ==> forall|j: int| #![trigger out1@[j]]
                    0 <= j < k ==> (item_fn(out1@[j]).ident.state.is_assigned() <==> (assoc_find(
                        pre.fn_view(),
                        item_fn(items@[j]).ident.name@,
                    ) is None && !name_dup_before(items@, j))),
            decreases rest@.len(),
        {
            let it = rest.remove(0);
            proof {
                assert(it == items@[k]);
                assert(rest@ =~= items@.skip(k + 1));
            }
            let Item::BlockFnDeclaration(f) = it;
            let ghost smid = *self;
            let ghost out1_pre = out1@;
            let pair = self.identify_item_header(f);
            let f2 = pair.0;
            let assigned_here = pair.1;
            out1.push(Item::BlockFnDeclaration(f2));
            marks.push(assigned_here);
            proof {
                if unit_identified(u) {
                    assert(item_fn(items@[k]).ident.state.is_assigned());
                    assert(f.ident.state.is_assigned());
                    assert(f2 == f);
                    assert(!assigned_here);
                    assert(out1@ =~= items@.subrange(0, k + 1));
                }
                if unit_fresh(u) {
                    assert(match items@[k] {
                        Item::BlockFnDeclaration(g) => !g.ident.state.is_assigned() && fn_fresh(
                            g,
                        ),
                    });
                    assert(!f.ident.state.is_assigned());
                    assert(out1@.drop_last() =~= out1_pre);
                    assert(seq_head_ids(out1@) == seq_head_ids(out1_pre) + item_header_id(
                        out1@.last(),
                    ));
                    assert(pre.log() + seq_head_ids(out1@) =~= (pre.log() + seq_head_ids(
                        out1_pre,
                    )) + opt_assigned(f2.ident.state));
                }
                lemma_prefix_trans(pre.log(), smid.log(), self.log());
                lemma_prefix_trans(pre.errs(), smid.errs(), self.errs());
                if !self.is_exhausted() {
                    assert(!smid.is_exhausted());
                    assert forall|i: int|
                        pre.log().len() <= i < self.log().len() implies (#[trigger] self.log()[
                            i
                        ]).len() == 2 && self.log()[i].subrange(0, 1) == base && (self.log()[
                            i
                        ].last() as int) < (self.cursor().last() as int) by {
                        if i < smid.log().len() {
                            assert(self.log()[i] == smid.log()[i]);
                        } else {
                            assert(self.log()[i] == smid.cursor());
                            lemma_id_lt_last(self.log()[i], self.cursor());
                        }
                    }
                    if assigned_here {
                        assert(f2.ident.state.id() == smid.cursor());
                        assert(self.log()[smid.log().len() as int] == smid.cursor());
                        assert((smid.cursor().last() as int) < (self.cursor().last() as int));
                    }
                }
                lemma_prefix_trans(pre.fn_view(), smid.fn_view(), self.fn_view());
                assert forall|j: int| #![trigger out1@[j]]
                    0 <= j < k + 1 implies item_fn(out1@[j]).ident.name@ == item_fn(
                    items@[j],
                ).ident.name@ && item_fn(out1@[j]).block == item_fn(items@[j]).block by {
                    if j < k {
                        assert(out1@[j] == out1_pre[j]);
                    } else {
                        assert(out1@[j] == out1@.last());
                    }
                }
                if unit_fresh(u) && !self.is_exhausted() {
                    assert(!smid.is_exhausted());
                    let nm = item_fn(items@[k]).ident.name@;
                    assert(f.ident.name@ == nm);
                    assert(!f.ident.state.is_assigned());
                    // every table entry of this unit's region carries a seen name
                    assert forall|i: int| #![trigger self.fn_view()[i]]
                        pre.fn_view().len() <= i < self.fn_view().len() implies exists|j: int|
                        #![trigger items@[j]]
                        0 <= j < k + 1 && item_fn(items@[j]).ident.name@ == self.fn_view()[
                        i].0@ by {
                        if i < smid.fn_view().len() {
                            assert(self.fn_view()[i] == smid.fn_view()[i]);
                        } else {
                            assert(self.fn_view()[i] == self.fn_view().last());
                            assert(self.fn_view().last().0@ == nm);
                            assert(item_fn(items@[k]).ident.name@ == self.fn_view()[i].0@);
                        }
                    }
                    // the bridge: absent from the current table iff absent from the
                    // starting table and not declared earlier in this unit
                    crate::scope::lemma_assoc_find_none(smid.fn_view(), nm);
                    crate::scope::lemma_assoc_find_none(pre.fn_view(), nm);
                    if assoc_find(pre.fn_view(), nm) is None && !name_dup_before(items@, k) {
                        assert forall|i: int|
                            0 <= i < smid.fn_view().len() implies (#[trigger] smid.fn_view()[
                            i]).0@ != nm by {
                            if i < pre.fn_view().len() {
                                assert(smid.fn_view()[i] == pre.fn_view()[i]);
                            } else {
                                let j = choose|j: int| #![trigger items@[j]]
                                    0 <= j < k && item_fn(items@[j]).ident.name@
                                        == smid.fn_view()[i].0@;
                                assert(item_fn(items@[j]).ident.name@ != nm);
                            }
                        }
                        assert(assoc_find(smid.fn_view(), nm) is None);
                        assert(assigned_here);
                    } else {
                        if assoc_find(pre.fn_view(), nm) is Some {
                            let wi = choose|i: int|
                                0 <= i < pre.fn_view().len() && (#[trigger] pre.fn_view()[
                                i]).0@ == nm;
                            assert(smid.fn_view()[wi] == pre.fn_view()[wi]);
                            crate::scope::lemma_assoc_find_none(smid.fn_view(), nm);
                            assert(assoc_find(smid.fn_view(), nm) is Some);
                        } else {
                            assert(name_dup_before(items@, k));
                            let j = choose|j: int| #![trigger items@[j]]
                                0 <= j < k && item_fn(items@[j]).ident.name@ == item_fn(
                                    items@[k],
                                ).ident.name@;
                            assert(assoc_find(smid.fn_view(), item_fn(items@[j]).ident.name@)
                                is Some);
                        }
                        assert(assoc_find(smid.fn_view(), nm) is Some);
                        assert(!assigned_here);
                    }
                    // seen names stay in the table
                    assert forall|j: int| #![trigger items@[j]]
                        0 <= j < k + 1 implies assoc_find(
                        self.fn_view(),
                        item_fn(items@[j]).ident.name@,
                    ) is Some by {
                        let nmj = item_fn(items@[j]).ident.name@;
                        crate::scope::lemma_assoc_find_none(self.fn_view(), nmj);
                        if j < k {
                            crate::scope::lemma_assoc_find_none(smid.fn_view(), nmj);
                            let wi = choose|i: int|
                                0 <= i < smid.fn_view().len() && (#[trigger] smid.fn_view()[
                                i]).0@ == nmj;
                            assert(self.fn_view()[wi] == smid.fn_view()[wi]);
                        } else {
                            if assigned_here {
                                assert(assoc_find(self.fn_view(), nm) is Some);
                            } else {
                                assert(self.fn_view() == smid.fn_view());
                            }
                        }
                    }
                    assert forall|j: int| #![trigger out1@[j]]
                        0 <= j < k + 1 implies (item_fn(out1@[j]).ident.state.is_assigned()
                        <==> (assoc_find(pre.fn_view(), item_fn(items@[j]).ident.name@) is None
                        && !name_dup_before(items@, j))) by {
                        if j < k {
                            assert(out1@[j] == out1_pre[j]);
                        } else {
                            assert(item_fn(out1@[j]) == f2);
                            assert(f2.ident.state.is_assigned() == assigned_here);
                        }
                    }
                }
                k = k + 1;
            }
        }
        let ghost paend = *self;
        let ghost items1 = out1@;
        proof {
            assert(items1.len() == n);
        }
        let mut rest2 = out1;
        let ghost marks_all = marks@;
        let mut marks2 = marks;
        let mut out2: Vec<Item> = Vec::new();
        let ghost mut done: int = -1;
        let ghost mut k2: int = 0;
        proof {
            assert(rest2@ =~= items1.skip(0));
            assert(marks2@ =~= marks_all.skip(0));
            if unit_fresh(u) {
                assert(self.log() =~= (pre.log() + seq_head_ids(items1)) + seq_body_ids(out2@));
            }
        }
        while rest2.len() > 0
            invariant
                self.inv(),
                self.scope_view() == pre.scope_view(),
                pre.scope_view().len() == 0,
                base.len() == 1,
                pre.log().is_prefix_of(self.log()),
                paend.log().is_prefix_of(self.log()),
                pre.errs().is_prefix_of(self.errs()),
                paend.is_exhausted() ==> self.is_exhausted(),
                pre.is_exhausted() ==> self.is_exhausted(),
                0 <= k2 <= n,
                items1.len() == n,
                marks_all.len() == n,
                rest2@ =~= items1.skip(k2),
                marks2@ =~= marks_all.skip(k2),
                out2@.len() == k2,
                k2 == 0 ==> *self == paend,
                unit_identified(u) ==> out2@ =~= items1.subrange(0, k2) && *self == paend && (
                forall|j: int| 0 <= j < n ==> !marks_all[j]),
                unit_fresh(u) ==> self.log() == (pre.log() + seq_head_ids(items1))
                    + seq_body_ids(out2@),
                forall|j: int|
                    0 <= j < k2 ==> item_header_id(#[trigger] out2@[j]) == item_header_id(
                        items1[j],
                    ),
                u.items@ == items@,
                n == items@.len(),
                forall|j: int| #![trigger out2@[j]]
                    0 <= j < k2 ==> item_fn(out2@[j]).ident.name@ == item_fn(
                        items1[j],
                    ).ident.name@ && (item_fn(out2@[j]).ident.state.is_assigned() == item_fn(
                        items1[j],
                    ).ident.state.is_assigned()),
                forall|j: int| #![trigger items1[j]]
                    0 <= j < n ==> item_fn(items1[j]).ident.name@ == item_fn(
                        items@[j],
                    ).ident.name@,
                unit_fresh(u) && !self.is_exhausted() ==> forall|j: int| #![trigger items1[j]]
                    0 <= j < n ==> (item_fn(items1[j]).ident.state.is_assigned() <==> (
                    assoc_find(pre.fn_view(), item_fn(items@[j]).ident.name@) is None
                        && !name_dup_before(items@, j))),
                forall|j: int| #![trigger items1[j]]
                    0 <= j < n ==> item_fn(items1[j]).block == item_fn(items@[j]).block,
                unit_wf(&u) ==> forall|j: int| #![trigger out2@[j]]
                    0 <= j < k2 ==> fn_wf(&item_fn(out2@[j])),
                !self.is_exhausted() ==> forall|i: int|
                    0 <= i < pre.log().len() ==> (#[trigger] pre.log()[i]).len() == 0 || id_lt(
                        pre.log()[i],
                        base,
                    ),
                !self.is_exhausted() ==> forall|i: int|
                    pre.log().len() <= i < paend.log().len() ==> (#[trigger] paend.log()[
                        i
                    ]).len() == 2 && paend.log()[i].subrange(0, 1) == base,
                !self.is_exhausted() ==> forall|i: int|
                    paend.log().len() <= i < self.log().len() ==> (#[trigger] self.log()[
                        i
                    ]).len() >= 3 && self.log()[i].subrange(0, 1) == base && (self.log()[
                        i
                    ][1] as int) <= done,
                !self.is_exhausted() ==> forall|j: int|
                    k2 <= j < n && marks_all[j] ==> (#[trigger] item_fn(
                        items1[j],
                    )).ident.state.is_assigned() && item_fn(items1[j]).ident.state.id().len() == 2
                        && item_fn(items1[j]).ident.state.id().subrange(0, 1) == base && (item_fn(
                        items1[j],
                    ).ident.state.id().last() as int) > done,
                !self.is_exhausted() ==> forall|j1: int, j2: int|
                    0 <= j1 < j2 < n && marks_all[j1] && marks_all[j2] ==> (item_fn(
                        #[trigger] items1[j1],
                    ).ident.state.id().last() as int) < (item_fn(
                        #[trigger] items1[j2],
                    ).ident.state.id().last() as int),
                unit_fresh(u) ==> forall|j: int|
                    0 <= j < n ==> (marks_all[j] == (#[trigger] item_fn(
                        items1[j],
                    )).ident.state.is_assigned()) && fn_fresh(item_fn(items1[j])),
            decreases rest2@.len(),
        {
            let it = rest2.remove(0);
            proof {
                assert(it == items1[k2]);
                assert(rest2@ =~= items1.skip(k2 + 1));
            }
            let Item::BlockFnDeclaration(f2) = it;
            let flag = marks2.remove(0);
            proof {
                assert(flag == marks_all[k2]);
                assert(marks2@ =~= marks_all.skip(k2 + 1));
            }
            let ghost smid = *self;
            if flag {
                proof {
                    if !self.is_exhausted() {
                        let fid = f2.ident.state.id();
                        let target = fid.push(0u32);
                        assert(fid =~= base.push(fid.last()));
                        assert(target.subrange(0, 1) =~= base);
                        assert(pre.log() =~= self.log().subrange(0, pre.log().len() as int));
                        assert(paend.log() =~= self.log().subrange(
                            0,
                            paend.log().len() as int,
                        ));
                        assert forall|i: int|
                            0 <= i < self.log().len() implies id_lt(
                            #[trigger] self.log()[i],
                            target,
                        ) || self.log()[i].len() < fid.len() + 1 by {
                            let a = self.log()[i];
                            if i < pre.log().len() {
                                assert(a == pre.log()[i]);
                                if a.len() == 0 {
                                    assert(id_lt(a, target));
                                } else {
                                    assert(id_lt(a, base));
                                    lemma_id_lt_push(a, base, fid.last());
                                    assert(base.push(fid.last()) =~= fid);
                                    lemma_id_lt_push(a, fid, 0u32);
                                }
                            } else if i < paend.log().len() {
                                assert(a == paend.log()[i]);
                                assert(a.len() == 2);
                            } else {
                                assert((a[1] as int) <= done);
                                assert((fid.last() as int) > done);
                                assert(target[1] == fid[1]);
                                assert(fid[1] == fid.last());
                                assert(a.subrange(0, 1) == target.subrange(0, 1));
                                lemma_id_lt_from_diff(a, target, 1);
                            }
                        }
                    }
                }
                let ghost out2_pre = out2@;
                let f3 = self.check_fn_declaration(f2);
                out2.push(Item::BlockFnDeclaration(f3));
                proof {
                    lemma_prefix_trans(pre.log(), smid.log(), self.log());
                    lemma_prefix_trans(paend.log(), smid.log(), self.log());
                    lemma_prefix_trans(pre.errs(), smid.errs(), self.errs());
                    assert(out2@.drop_last() =~= out2_pre);
                    assert(item_fn(out2@.last()) == f3);
                    assert(f3.ident == f2.ident);
                    if unit_wf(&u) {
                        assert(crate::ast::item_wf(&u.items@[k2]));
                        assert(item_fn(items1[k2]).block == item_fn(items@[k2]).block);
                        assert(fn_wf(&f2));
                        assert(fn_wf(&f3));
                        assert forall|j: int| #![trigger out2@[j]]
                            0 <= j < k2 + 1 implies fn_wf(&item_fn(out2@[j])) by {
                            if j < k2 {
                                assert(out2@[j] == out2_pre[j]);
                            } else {
                                assert(item_fn(out2@[j]) == f3);
                            }
                        }
                    }
                    if unit_fresh(u) {
                        assert(fn_fresh(f2));
                        assert(f2.ident.state.is_assigned());
                        assert(seq_body_ids(out2@) == seq_body_ids(out2_pre) + fn_assigned_ids(
                            f3,
                        ));
                        assert(((pre.log() + seq_head_ids(items1)) + seq_body_ids(out2@)) =~= ((
                        pre.log() + seq_head_ids(items1)) + seq_body_ids(out2_pre))
                            + fn_assigned_ids(f3));
                    }
                    if !self.is_exhausted() {
                        assert(!smid.is_exhausted());
                        let fid = f2.ident.state.id();
                        assert forall|i: int|
                            paend.log().len() <= i < self.log().len() implies (
                        #[trigger] self.log()[i]).len() >= 3 && self.log()[i].subrange(0, 1)
                            == base && (self.log()[i][1] as int) <= fid.last() as int by {
                            if i < smid.log().len() {
                                assert(self.log()[i] == smid.log()[i]);
                                assert((self.log()[i][1] as int) <= done);
                                assert(done < fid.last() as int);
                            } else {
                                assert(self.log()[i].subrange(0, 2) == fid);
                                assert(self.log()[i].subrange(0, 1) =~= self.log()[i].subrange(
                                    0,
                                    2,
                                ).subrange(0, 1));
                                assert(fid.subrange(0, 1) =~= base);
                                assert(self.log()[i][1] == fid[1]);
                                assert(fid[1] == fid.last()) by {
                                    assert(fid =~= base.push(fid.last()));
                                }
                            }
                        }
                        done = fid.last() as int;
                    }
                    k2 = k2 + 1;
                }
            } else {
                let ghost out2_pre = out2@;
                out2.push(Item::BlockFnDeclaration(f2));
                proof {
                    if unit_fresh(u) {
                        assert(!f2.ident.state.is_assigned());
                        assert(fn_fresh(f2));
                        lemma_fresh_fn_ids(f2);
                        assert(out2@.drop_last() =~= out2_pre);
                        assert(seq_body_ids(out2@) =~= seq_body_ids(out2_pre));
                    }
                    if unit_wf(&u) {
                        assert(crate::ast::item_wf(&u.items@[k2]));
                        assert(item_fn(items1[k2]).block == item_fn(items@[k2]).block);
                        assert(fn_wf(&f2));
                        assert forall|j: int| #![trigger out2@[j]]
                            0 <= j < k2 + 1 implies fn_wf(&item_fn(out2@[j])) by {
                            if j < k2 {
                                assert(out2@[j] == out2_pre[j]);
                            } else {
                                assert(item_fn(out2@[j]) == f2);
                            }
                        }
                    }
                    if unit_identified(u) {
                        assert(out2@ =~= items1.subrange(0, k2 + 1));
                    }
                    k2 = k2 + 1;
                }
            }
        }
        let ghost pbend = *self;
        self.current = ScopedId::from_level(unit_level);
        self.bump();
        let r = Unit { items: out2 };
        proof {
            if !self.is_exhausted() {
                assert(!pbend.is_exhausted());
                let c1 = self.cursor();
                assert(c1 =~= seq![(unit_level + 1) as u32]);
                assert(pre.log() =~= self.log().subrange(0, pre.log().len() as int));
                assert(paend.log() =~= self.log().subrange(0, paend.log().len() as int));
                assert forall|i: int|
                    0 <= i < self.log().len() implies id_lt(#[trigger] self.log()[i], c1)
                    || self.log()[i].len() < c1.len() by {
                    let a = self.log()[i];
                    if i < pre.log().len() {
                        assert(a == pre.log()[i]);
                        if a.len() == 0 {
                            assert(id_lt(a, c1));
                        } else {
                            assert(id_lt(a, base));
                            assert(base =~= seq![unit_level]);
                            lemma_id_lt_advance(a, base, c1);
                        }
                    } else {
                        if i < paend.log().len() {
                            assert(a == paend.log()[i]);
                        }
                        assert(a.subrange(0, 1) == base);
                        assert(a[0] == a.subrange(0, 1)[0]);
                        assert(a.subrange(0, 0) =~= c1.subrange(0, 0));
                        lemma_id_lt_from_diff(a, c1, 0);
                    }
                }
            }
            lemma_prefix_trans(pre.log(), pbend.log(), self.log());
            if unit_wf(&u) {
                assert forall|i: int| #![trigger r.items@[i]]
                    0 <= i < r.items@.len() implies crate::ast::item_wf(&r.items@[i]) by {
                    assert(r.items@[i] == out2@[i]);
                    assert(fn_wf(&item_fn(out2@[i])));
                }
            }
            assert forall|k2: int| #![trigger r.items@[k2]]
                0 <= k2 < r.items@.len() implies item_fn(r.items@[k2]).ident.name@ == item_fn(
                u.items@[k2],
            ).ident.name@ by {
                assert(r.items@[k2] == out2@[k2]);
            }
            if !self.is_exhausted() {
                assert(!pbend.is_exhausted());
                if unit_fresh(u) {
                    assert forall|k2: int| #![trigger r.items@[k2]]
                        0 <= k2 < r.items@.len() implies (item_fn(
                        r.items@[k2],
                    ).ident.state.is_assigned() <==> (assoc_find(
                        pre.fn_view(),
                        item_fn(u.items@[k2]).ident.name@,
                    ) is None && !name_dup_before(u.items@, k2))) by {
                        assert(r.items@[k2] == out2@[k2]);
                        assert(item_fn(out2@[k2]).ident.state.is_assigned() == item_fn(
                            items1[k2],
                        ).ident.state.is_assigned());
                    }
                }
                assert(pre.log() =~= self.log().subrange(0, pre.log().len() as int));
                assert(paend.log() =~= self.log().subrange(0, paend.log().len() as int));
                assert forall|i: int|
                    pre.log().len() <= i < self.log().len() implies (#[trigger] self.log()[
                    i]).len() >= 1 && (self.log()[i][0] as int) >= 1 by {
                    let a = self.log()[i];
                    if i < paend.log().len() {
                        assert(a == paend.log()[i]);
                        assert(a.subrange(0, 1) == base);
                        assert(a[0] == a.subrange(0, 1)[0]);
                    } else {
                        assert(a.subrange(0, 1) == base);
                        assert(a[0] == a.subrange(0, 1)[0]);
                    }
                    assert(a[0] == base[0]);
                    assert((base[0] as int) >= 1);
                }
            }
            if unit_fresh(u) {
                lemma_head_ids_congruent(items1, out2@);
                lemma_headers_upto(out2@, n);
                lemma_bodies_upto(out2@, n);
                assert(out2@.subrange(0, n) =~= out2@);
                assert(unit_assigned_ids(r) == seq_head_ids(out2@) + seq_body_ids(out2@));
                assert(self.log() =~= pre.log() + (seq_head_ids(items1) + seq_body_ids(out2@)));
                assert(seq_head_ids(items1) + seq_body_ids(out2@) =~= unit_assigned_ids(r));
                lemma_no_dup_suffix(pre.log(), unit_assigned_ids(r));
            }
        }
        r
    }
}

/// Prefix relations compose.
pub proof fn lemma_prefix_trans<T>(a: Seq<T>, b: Seq<T>, c: Seq<T>)
    requires
        a.is_prefix_of(b),
        b.is_prefix_of(c),
    ensures
        a.is_prefix_of(c),
{
    assert(a =~= c.subrange(0, a.len() as int));
}

} // verus!
