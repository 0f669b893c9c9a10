//! Root-to-node paths and the document order on them.

use vstd::prelude::*;

verus! {

/// Strict document order on paths: lexicographic on child indices, where a
/// proper prefix (an ancestor's path) comes before every extension of it.
pub open spec fn path_lt(a: Seq<usize>, b: Seq<usize>) -> bool
    decreases a.len(),
{
    if b.len() == 0 {
        false
    } else if a.len() == 0 {
        true
    } else if a[0] != b[0] {
        a[0] < b[0]
    } else {
        path_lt(a.drop_first(), b.drop_first())
    }
}

/// Exactly one of `a < b`, `a == b`, `b < a` holds.
pub proof fn lemma_path_trichotomy(a: Seq<usize>, b: Seq<usize>)
    ensures
        path_lt(a, b) || a == b || path_lt(b, a),
        !(path_lt(a, b) && path_lt(b, a)),
        !path_lt(a, a),
    decreases a.len(),
{
    if a.len() > 0 && b.len() > 0 && a[0] == b[0] {
        lemma_path_trichotomy(a.drop_first(), b.drop_first());
        if a.drop_first() == b.drop_first() {
            assert(a =~= b) by {
                assert forall|i: int| 0 <= i < a.len() implies a[i] == b[i] by {
                    if i > 0 {
                        assert(a[i] == a.drop_first()[i - 1]);
                        assert(b[i] == b.drop_first()[i - 1]);
                    }
                }
            }
        }
    }
    if a.len() > 0 {
        lemma_path_trichotomy(a.drop_first(), a.drop_first());
    }
}

/// The document order is transitive.
pub proof fn lemma_path_transitive(a: Seq<usize>, b: Seq<usize>, c: Seq<usize>)
    requires
        path_lt(a, b),
        path_lt(b, c),
    ensures
        path_lt(a, c),
    decreases a.len(),
{
    if a.len() > 0 && a[0] == b[0] && b[0] == c[0] {
        lemma_path_transitive(a.drop_first(), b.drop_first(), c.drop_first());
    }
}

/// A node waiting to be recomposed, with its path from the root.
pub struct Pending {
    pub key: u64,
    pub indices: Vec<usize>,
}

impl View for Pending {
    type V = (u64, Seq<usize>);

    open spec fn view(&self) -> (u64, Seq<usize>) {
        (self.key, self.indices@)
    }
}

impl Pending {
    /// Whether this entry comes strictly before `other` in document order.
    pub fn precedes(&self, other: &Pending) -> (r: bool)
        ensures
            r == path_lt(self.indices@, other.indices@),
    {
        match self.cmp(other) {
            core::cmp::Ordering::Less => true,
            _ => false,
        }
    }

    /// Whether both entries have the same path.
    pub fn same_path(&self, other: &Pending) -> (r: bool)
        ensures
            r == (self.indices@ == other.indices@),
    {
        match self.cmp(other) {
            core::cmp::Ordering::Equal => true,
            _ => false,
        }
    }

    /// Compares two entries by their paths in document order.
    pub fn cmp(&self, other: &Pending) -> (r: core::cmp::Ordering)
        ensures
            (r == core::cmp::Ordering::Less) == path_lt(self.indices@, other.indices@),
            (r == core::cmp::Ordering::Equal) == (self.indices@ == other.indices@),
            (r == core::cmp::Ordering::Greater) == path_lt(other.indices@, self.indices@),
    {
        proof {
            lemma_path_trichotomy(self.indices@, other.indices@);
            assert(self.indices@.skip(0) =~= self.indices@);
            assert(other.indices@.skip(0) =~= other.indices@);
        }
        let mut i: usize = 0;
        while i < self.indices.len() && i < other.indices.len()
            invariant
                0 <= i <= self.indices.len(),
                i <= other.indices.len(),
                forall|j: int| 0 <= j < i ==> self.indices@[j] == other.indices@[j],
                path_lt(self.indices@, other.indices@) == path_lt(self.indices@.skip(i as int), other.indices@.skip(i as int)),
                path_lt(other.indices@, self.indices@) == path_lt(other.indices@.skip(i as int), self.indices@.skip(i as int)),
            decreases self.indices.len() - i,
        {
            proof {
                assert(self.indices@.skip(i as int)[0] == self.indices@[i as int]);
                assert(other.indices@.skip(i as int)[0] == other.indices@[i as int]);
                assert(self.indices@.skip(i as int).drop_first() =~= self.indices@.skip(i + 1));
                assert(other.indices@.skip(i as int).drop_first() =~= other.indices@.skip(i + 1));
            }
            if self.indices[i] < other.indices[i] {
                proof {
                    assert(self.indices@[i as int] != other.indices@[i as int]);
                    assert(self.indices@ != other.indices@);
                    assert(path_lt(self.indices@.skip(i as int), other.indices@.skip(i as int)));
                    assert(!path_lt(other.indices@.skip(i as int), self.indices@.skip(i as int)));
                }
                return core::cmp::Ordering::Less;
            } else if self.indices[i] > other.indices[i] {
                proof {
                    assert(self.indices@[i as int] != other.indices@[i as int]);
                    assert(self.indices@ != other.indices@);
                }
                return core::cmp::Ordering::Greater;
            }
            i = i + 1;
        }
        if self.indices.len() < other.indices.len() {
            proof {
                assert(self.indices@.skip(i as int).len() == 0);
                assert(self.indices@ != other.indices@);
            }
            core::cmp::Ordering::Less
        } else if self.indices.len() > other.indices.len() {
            proof {
                assert(other.indices@.skip(i as int).len() == 0);
            }
            core::cmp::Ordering::Greater
        } else {
            proof {
                assert(self.indices@ =~= other.indices@);
            }
            core::cmp::Ordering::Equal
        }
    }
}

/// The set of nodes awaiting recomposition, kept sorted in document order
/// with at most one entry per path.
pub struct PendingSet {
    entries: Vec<Pending>,
}

/// Entries strictly increasing in document order.
pub open spec fn sorted_entries(s: Seq<(u64, Seq<usize>)>) -> bool {
    forall|i: int, j: int| 0 <= i < j < s.len() ==> path_lt(#[trigger] s[i].1, #[trigger] s[j].1)
}

/// Whether some entry of `s` has the path `path`.
pub open spec fn has_path(s: Seq<(u64, Seq<usize>)>, path: Seq<usize>) -> bool {
    exists|i: int| 0 <= i < s.len() && #[trigger] s[i].1 == path
}

impl View for PendingSet {
    type V = Seq<(u64, Seq<usize>)>;

    closed spec fn view(&self) -> Seq<(u64, Seq<usize>)> {
        self.entries@.map_values(|p: Pending| p@)
    }
}

impl PendingSet {
    pub open spec fn wf(&self) -> bool {
        sorted_entries(self@)
    }

    /// An empty set.
    pub fn new() -> (r: PendingSet)
        ensures
            r.wf(),
            r@ == Seq::<(u64, Seq<usize>)>::empty(),
    {
        let r = PendingSet { entries: Vec::new() };
        assert(r@ =~= Seq::<(u64, Seq<usize>)>::empty());
        r
    }

    pub fn len(&self) -> (r: usize)
        ensures
            r == self@.len(),
    {
        self.entries.len()
    }

    pub fn is_empty(&self) -> (r: bool)
        ensures
            r == (self@.len() == 0),
    {
        self.entries.len() == 0
    }

    /// Adds `p` unless an entry with the same path is already there; returns
    /// whether it was added.
    pub fn insert(&mut self, p: Pending) -> (added: bool)
        requires
            old(self).wf(),
        ensures
            final(self).wf(),
            added == !has_path(old(self)@, p.indices@),
            !added ==> final(self)@ == old(self)@,
            added ==> final(self)@.to_set() == old(self)@.to_set().insert(p@),
            added ==> final(self)@.len() == old(self)@.len() + 1,
    {
        let ghost old_view = self@;
        let mut i: usize = 0;
        while i < self.entries.len() && self.entries[i].precedes(&p)
            invariant
                0 <= i <= self.entries.len(),
                self@ == old_view,
                sorted_entries(old_view),
                forall|j: int| 0 <= j < i ==> path_lt(#[trigger] old_view[j].1, p.indices@),
            decreases self.entries.len() - i,
        {
            i = i + 1;
        }
        proof {
            assert(forall|j: int| 0 <= j < self.entries@.len() ==> #[trigger] old_view[j] == self.entries@[j]@);
        }
        if i < self.entries.len() && self.entries[i].same_path(&p) {
            assert(old_view[i as int].1 == p.indices@);
            return false;
        }
        proof {
            assert forall|j: int| 0 <= j < old_view.len() implies #[trigger] old_view[j].1 != p.indices@ by {
                if j < i {
                    lemma_path_trichotomy(old_view[j].1, p.indices@);
                } else {
                    lemma_path_trichotomy(old_view[i as int].1, p.indices@);
                    if j > i {
                        lemma_path_transitive(p.indices@, old_view[i as int].1, old_view[j].1);
                        lemma_path_trichotomy(p.indices@, old_view[j].1);
                    }
                }
            }
        }
        let ghost pv = p@;
        self.entries.insert(i, p);
        proof {
            let s = self@;
            assert(s =~= old_view.insert(i as int, pv));
            assert forall|a: int, b: int| 0 <= a < b < s.len() implies path_lt(#[trigger] s[a].1, #[trigger] s[b].1) by {
                if b < i {
                } else if a < i && b == i {
                } else if a < i {
                    assert(path_lt(old_view[a].1, old_view[b - 1].1));
                } else if a == i {
                    lemma_path_trichotomy(old_view[i as int].1, pv.1);
                    if b - 1 > i {
                        lemma_path_transitive(pv.1, old_view[i as int].1, old_view[b - 1].1);
                    }
                } else {
                }
            }
            assert(s.to_set() =~= old_view.to_set().insert(pv)) by {
                assert forall|x| s.to_set().contains(x) implies old_view.to_set().insert(pv).contains(x) by {
                    let k = choose|k: int| 0 <= k < s.len() && s[k] == x;
                    if k < i {
                        assert(old_view[k] == x);
                    } else if k > i {
                        assert(old_view[k - 1] == x);
                    }
                }
                assert forall|x| old_view.to_set().insert(pv).contains(x) implies s.to_set().contains(x) by {
                    if x == pv {
                        assert(s[i as int] == x);
                    } else {
                        let k = choose|k: int| 0 <= k < old_view.len() && old_view[k] == x;
                        if k < i {
                            assert(s[k] == x);
                        } else {
                            assert(s[k + 1] == x);
                        }
                    }
                }
            }
        }
        true
    }

    /// Removes and returns the first entry in document order.
    pub fn pop_first(&mut self) -> (r: Option<Pending>)
        requires
            old(self).wf(),
        ensures
            final(self).wf(),
            old(self)@.len() == 0 ==> r.is_none() && final(self)@ == old(self)@,
            old(self)@.len() > 0 ==> r.is_some() && r.unwrap()@ == old(self)@[0]
                && final(self)@ == old(self)@.drop_first(),
    {
        if self.entries.len() == 0 {
            None
        } else {
            let ghost old_view = self@;
            let p = self.entries.remove(0);
            proof {
                assert(self@ =~= old_view.drop_first());
            }
            Some(p)
        }
    }
}

/// The first entry of a well-formed set precedes every other entry.
pub proof fn lemma_first_is_least(s: &PendingSet)
    requires
        s.wf(),
        s@.len() > 0,
    ensures
        forall|j: int| 1 <= j < s@.len() ==> path_lt(s@[0].1, #[trigger] s@[j].1),
{
    assert forall|j: int| 1 <= j < s@.len() implies path_lt(s@[0].1, #[trigger] s@[j].1) by {
        assert(sorted_entries(s@));
    }
}

/// Where a new child falls in document order: after its parent, after its
/// earlier siblings, and before every node that follows the parent outside
/// the parent's subtree. Draining pending nodes smallest path first therefore
/// visits a tree that grows as it is composed in preorder.
pub proof fn lemma_preorder_position(pp: Seq<usize>, i: usize, j: usize, q: Seq<usize>)
    ensures
        path_lt(pp, pp.push(j)),
        i < j ==> path_lt(pp.push(i), pp.push(j)),
        path_lt(pp, q) && !(q.len() > pp.len() && q.subrange(0, pp.len() as int) == pp)
            ==> path_lt(pp.push(j), q),
    decreases pp.len(),
{
    if pp.len() > 0 {
        lemma_preorder_position(pp.drop_first(), i, j, q.drop_first());
        assert(pp.push(j).drop_first() =~= pp.drop_first().push(j));
        assert(pp.push(i).drop_first() =~= pp.drop_first().push(i));
        if path_lt(pp, q) && !(q.len() > pp.len() && q.subrange(0, pp.len() as int) == pp) {
            if q.len() > 0 && pp[0] == q[0] {
                if q.drop_first().len() > pp.drop_first().len() && q.drop_first().subrange(
                    0,
                    pp.drop_first().len() as int,
                ) == pp.drop_first() {
                    assert(q.subrange(0, pp.len() as int) =~= pp) by {
                        assert forall|t: int| 0 <= t < pp.len() implies q.subrange(0, pp.len() as int)[t] == pp[t] by {
                            if t > 0 {
                                assert(q.drop_first().subrange(0, pp.drop_first().len() as int)[t - 1] == pp.drop_first()[t - 1]);
                            }
                        }
                    }
                }
            }
        }
    } else {
        if path_lt(pp, q) && !(q.len() > pp.len() && q.subrange(0, pp.len() as int) == pp) {
            assert(q.subrange(0, 0) =~= pp);
        }
    }
}

} // verus!
