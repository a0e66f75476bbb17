//! Hierarchical scope-path identifiers.
//!
//! A [`ScopedId`] names a declaration's lexical position as a path of
//! indices through nested scopes.  One cursor instance is created per
//! checking pass and mutated while the traversal descends into and exits
//! scopes; each identifier assigned to the tree is a frozen snapshot of the
//! cursor.  The ordering [`id_lt`] (lexicographic, with a proper prefix
//! ordered before its extensions) is what makes freshly snapshotted ids
//! provably distinct from every id snapshotted before.

use vstd::prelude::*;

verus! {

/// Strict order on id paths: lexicographic by level, and a proper prefix
/// comes before every extension of itself.
pub open spec fn id_lt(a: Seq<u32>, b: Seq<u32>) -> bool
    decreases a.len(),
{
    if b.len() == 0 {
        false
    } else if a.len() == 0 {
        true
    } else if a[0] < b[0] {
        true
    } else if a[0] > b[0] {
        false
    } else {
        id_lt(a.skip(1), b.skip(1))
    }
}

pub proof fn lemma_id_lt_irrefl(a: Seq<u32>)
    ensures
        !id_lt(a, a),
    decreases a.len(),
{
    if a.len() > 0 {
        lemma_id_lt_irrefl(a.skip(1));
    }
}

/// A proper prefix is ordered before the whole.
pub proof fn lemma_id_lt_prefix(a: Seq<u32>, b: Seq<u32>)
    requires
        a.len() < b.len(),
        a == b.subrange(0, a.len() as int),
    ensures
        id_lt(a, b),
    decreases a.len(),
{
    if a.len() > 0 {
        assert(a[0] == b[0]);
        assert(a.skip(1) == b.skip(1).subrange(0, a.len() - 1)) by {
            assert(a.skip(1) =~= b.skip(1).subrange(0, a.len() - 1));
        }
        lemma_id_lt_prefix(a.skip(1), b.skip(1));
    }
}

/// Appending a level on the right cannot move the target below `a`.
pub proof fn lemma_id_lt_push(a: Seq<u32>, b: Seq<u32>, y: u32)
    requires
        id_lt(a, b),
    ensures
        id_lt(a, b.push(y)),
    decreases a.len(),
{
    if a.len() > 0 {
        assert(b.push(y)[0] == b[0]);
        if a[0] == b[0] {
            assert(b.push(y).skip(1) =~= b.skip(1).push(y));
            lemma_id_lt_push(a.skip(1), b.skip(1), y);
        }
    }
}

/// Anything below `b` with one extra level stays below `b` with its last
/// level bumped: leaving a scope and incrementing cannot collide with ids
/// made inside the scope.
pub proof fn lemma_id_lt_push_inc(a: Seq<u32>, b: Seq<u32>, y: u32, v: u32)
    requires
        b.len() >= 1,
        id_lt(a, b.push(y)),
        b.last() < v,
    ensures
        id_lt(a, b.update(b.len() - 1, v)),
    decreases a.len(),
{
    let b2 = b.update(b.len() - 1, v);
    if a.len() == 0 {
    } else if b.len() == 1 {
        assert(b2 == seq![v]);
        assert(b.push(y)[0] == b[0]);
        assert(a[0] <= b[0] < v);
    } else {
        assert(b.push(y)[0] == b[0]);
        assert(b2[0] == b[0]);
        if a[0] == b[0] {
            assert(b.push(y).skip(1) =~= b.skip(1).push(y));
            assert(b2.skip(1) =~= b.skip(1).update(b.len() - 2, v));
            assert(b.skip(1).last() == b.last());
            lemma_id_lt_push_inc(a.skip(1), b.skip(1), y, v);
        }
    }
}

/// Moving the cursor forward within one scope (same depth, same enclosing
/// levels, last level not decreased) keeps every already-passed id behind it.
pub proof fn lemma_id_lt_advance(a: Seq<u32>, b: Seq<u32>, c: Seq<u32>)
    requires
        b.len() >= 1,
        c.len() == b.len(),
        c.subrange(0, b.len() - 1) == b.subrange(0, b.len() - 1),
        b.last() <= c.last(),
        id_lt(a, b),
    ensures
        id_lt(a, c),
{
    if b.last() == c.last() {
        lemma_eq_from_parts(b, c);
    } else {
        lemma_id_lt_push(a, b, 0);
        lemma_id_lt_push_inc(a, b, 0, c.last());
        let b2 = b.update(b.len() - 1, c.last());
        assert(b2.subrange(0, b.len() - 1) =~= b.subrange(0, b.len() - 1));
        lemma_eq_from_parts(b2, c);
    }
}

/// Two equal-length paths that agree on all but the last level and on the
/// last level are equal.
proof fn lemma_eq_from_parts(b: Seq<u32>, c: Seq<u32>)
    requires
        b.len() >= 1,
        c.len() == b.len(),
        c.subrange(0, b.len() - 1) == b.subrange(0, b.len() - 1),
        b.last() == c.last(),
    ensures
        b == c,
{
    assert forall|i: int| 0 <= i < b.len() implies b[i] == c[i] by {
        if i < b.len() - 1 {
            assert(b.subrange(0, b.len() - 1)[i] == b[i]);
            assert(c.subrange(0, b.len() - 1)[i] == c[i]);
        }
    }
    assert(b =~= c);
}

/// The cursor itself moves strictly forward when its last level grows.
pub proof fn lemma_id_lt_self_advance(b: Seq<u32>, c: Seq<u32>)
    requires
        b.len() >= 1,
        c.len() == b.len(),
        c.subrange(0, b.len() - 1) == b.subrange(0, b.len() - 1),
        b.last() < c.last(),
    ensures
        id_lt(b, c),
{
    assert(b =~= b.push(0).subrange(0, b.len() as int));
    lemma_id_lt_prefix(b, b.push(0));
    lemma_id_lt_push_inc(b, b, 0, c.last());
    let b2 = b.update(b.len() - 1, c.last());
    assert(b2.subrange(0, b.len() - 1) =~= b.subrange(0, b.len() - 1));
    lemma_eq_from_parts(b2, c);
}

/// Between equal-depth paths that agree above the last level, the order is
/// decided by the last level.
pub proof fn lemma_id_lt_last(a: Seq<u32>, c: Seq<u32>)
    requires
        a.len() == c.len(),
        a.len() >= 1,
        a.subrange(0, a.len() - 1) == c.subrange(0, a.len() - 1),
        id_lt(a, c),
    ensures
        a.last() < c.last(),
    decreases a.len(),
{
    if a.len() == 1 {
        if a[0] == c[0] {
            assert(a.skip(1).len() == 0);
            assert(!id_lt(a.skip(1), c.skip(1)));
        }
    } else {
        assert(a[0] == a.subrange(0, a.len() - 1)[0]);
        assert(c[0] == c.subrange(0, a.len() - 1)[0]);
        assert(a.skip(1).subrange(0, a.len() - 2) =~= a.subrange(0, a.len() - 1).skip(1));
        assert(c.skip(1).subrange(0, a.len() - 2) =~= c.subrange(0, a.len() - 1).skip(1));
        assert(a.subrange(0, a.len() - 1).skip(1) == c.subrange(0, a.len() - 1).skip(1));
        assert(a.skip(1).last() == a.last());
        assert(c.skip(1).last() == c.last());
        lemma_id_lt_last(a.skip(1), c.skip(1));
    }
}

/// A path is ordered below any path it first differs from downward.
pub proof fn lemma_id_lt_from_diff(a: Seq<u32>, c: Seq<u32>, i: int)
    requires
        0 <= i < a.len(),
        i < c.len(),
        a.subrange(0, i) == c.subrange(0, i),
        a[i] < c[i],
    ensures
        id_lt(a, c),
    decreases i,
{
    if i == 0 {
    } else {
        assert(a[0] == a.subrange(0, i)[0]);
        assert(c[0] == c.subrange(0, i)[0]);
        assert(a.skip(1).subrange(0, i - 1) =~= a.subrange(0, i).skip(1));
        assert(c.skip(1).subrange(0, i - 1) =~= c.subrange(0, i).skip(1));
        assert(a.skip(1)[i - 1] == a[i]);
        assert(c.skip(1)[i - 1] == c[i]);
        lemma_id_lt_from_diff(a.skip(1), c.skip(1), i - 1);
    }
}

/// A path of indices through nested scopes, plus the cursor operations the
/// resolver uses while walking the tree.  The freshly created cursor value
/// (a single zero level) is reserved: the traversal increments before it
/// snapshots, so no assigned id ever equals it.
#[derive(Debug)]
pub struct ScopedId {
    path: Vec<u32>,
}

impl View for ScopedId {
    type V = Seq<u32>;

    closed spec fn view(&self) -> Seq<u32> {
        self.path@
    }
}

impl ScopedId {
    /// The starting cursor: one level, at zero.
    pub fn new() -> (r: ScopedId)
        ensures
            r@ == seq![0u32],
    {
        let mut path: Vec<u32> = Vec::new();
        path.push(0u32);
        proof {
            assert(path@ =~= seq![0u32]);
        }
        ScopedId { path }
    }

    /// A one-level path at the given index.
    pub fn from_level(v: u32) -> (r: ScopedId)
        ensures
            r@ == seq![v],
    {
        let mut path: Vec<u32> = Vec::new();
        path.push(v);
        proof {
            assert(path@ =~= seq![v]);
        }
        ScopedId { path }
    }

    /// Enter a scope: append a new zero level.
    pub fn push(&mut self)
        ensures
            final(self)@ == old(self)@.push(0u32),
    {
        self.path.push(0u32);
    }

    /// Leave a scope: drop the innermost level.
    pub fn pop(&mut self)
        requires
            old(self)@.len() >= 2,
        ensures
            final(self)@ == old(self)@.subrange(0, old(self)@.len() - 1),
    {
        let _ = self.path.pop();
        proof {
            assert(final(self)@ =~= old(self)@.subrange(0, old(self)@.len() - 1));
        }
    }

    /// Allocate the next id within the current scope: bump the innermost
    /// level.
    pub fn increment(&mut self)
        requires
            old(self)@.len() >= 1,
            old(self)@.last() < u32::MAX,
        ensures
            final(self)@ == old(self)@.update(old(self)@.len() - 1, (old(self)@.last() + 1) as u32),
    {
        let n = self.path.len();
        let v = self.path[n - 1];
        self.path.set(n - 1, v + 1);
    }

    pub fn depth(&self) -> (r: usize)
        ensures
            r == self@.len(),
    {
        self.path.len()
    }

    pub fn last_level(&self) -> (r: u32)
        requires
            self@.len() >= 1,
        ensures
            r == self@.last(),
    {
        self.path[self.path.len() - 1]
    }

    /// An immutable copy, frozen onto a tree node.
    pub fn snapshot(&self) -> (r: ScopedId)
        ensures
            r@ == self@,
    {
        ScopedId { path: self.path.clone() }
    }

    pub fn same_as(&self, other: &ScopedId) -> (r: bool)
        ensures
            r == (self@ == other@),
    {
        let r = self.path == other.path;
        proof {
            if self.path@ =~= other.path@ {
                assert(self@ == other@);
            }
        }
        r
    }
}

/// The tagged assignment slot on an identifier node: either still untouched
/// by name resolution, or carrying its frozen id.
#[derive(Debug)]
pub enum IdState {
    Unassigned,
    Assigned(ScopedId),
}

impl IdState {
    pub open spec fn is_assigned(&self) -> bool {
        matches!(self, IdState::Assigned(_))
    }

    pub open spec fn id(&self) -> Seq<u32>
        recommends
            self.is_assigned(),
    {
        match self {
            IdState::Assigned(s) => s@,
            IdState::Unassigned => Seq::empty(),
        }
    }
}

} // verus!
