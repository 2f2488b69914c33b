//! A finite set of positions, kept as a vector without repeats so that its
//! members can also be addressed by index.
use crate::pos::Pos;
use vstd::prelude::*;

verus! {

/// A set of positions; its index order is the order of insertion, except
/// that a removal closes the gap.
pub struct PosSet {
    items: Vec<Pos>,
}

impl View for PosSet {
    type V = Set<Pos>;

    open spec fn view(&self) -> Set<Pos> {
        self.seq().to_set()
    }
}

impl PosSet {
    /// The members in index order.
    pub closed spec fn seq(&self) -> Seq<Pos> {
        self.items@
    }

    /// No position is kept twice.
    pub open spec fn wf(&self) -> bool {
        self.seq().no_duplicates()
    }

    /// A set without repeats has as many members as its vector has items.
    pub proof fn lemma_len(&self)
        requires
            self.wf(),
        ensures
            self@.finite(),
            self@.len() == self.seq().len(),
    {
        self.seq().unique_seq_to_set();
    }

    /// The empty set.
    pub fn new() -> (r: PosSet)
        ensures
            r.wf(),
            r.seq() == Seq::<Pos>::empty(),
            r@ == Set::<Pos>::empty(),
    {
        let r = PosSet { items: Vec::new() };
        assert(r@ =~= Set::<Pos>::empty());
        r
    }

    /// Number of members.
    pub fn len(&self) -> (r: usize)
        ensures
            r == self.seq().len(),
    {
        self.items.len()
    }

    /// The member at index `i`.
    pub fn get(&self, i: usize) -> (r: Pos)
        requires
            i < self.seq().len(),
        ensures
            r == self.seq()[i as int],
            self@.contains(r),
    {
        self.items[i]
    }

    /// Whether `p` is a member.
    pub fn contains(&self, p: &Pos) -> (r: bool)
        ensures
            r == self@.contains(*p),
    {
        let mut i: usize = 0;
        while i < self.items.len()
            invariant
                i <= self.items@.len(),
                forall|j: int| 0 <= j < i ==> self.items@[j] != *p,
            decreases self.items@.len() - i,
        {
            if self.items[i] == *p {
                assert(self.seq().contains(*p));
                return true;
            }
            i = i + 1;
        }
        false
    }

    /// Adds `p`, which must not be a member yet, at the end of the index order.
    pub fn insert(&mut self, p: Pos)
        requires
            old(self).wf(),
            !old(self)@.contains(p),
        ensures
            final(self).wf(),
            final(self).seq() == old(self).seq().push(p),
            final(self)@ == old(self)@.insert(p),
    {
        self.items.push(p);
        assert(self@ =~= old(self)@.insert(p)) by {
            assert(forall|q: Pos| #[trigger] self.seq().contains(q) <==> (old(self).seq().contains(q) || q == p)) by {
                assert(forall|q: Pos| old(self).seq().contains(q) ==> #[trigger] self.seq().contains(q)) by {
                    assert forall|q: Pos| old(self).seq().contains(q) implies #[trigger] self.seq().contains(q) by {
                        let j = choose|j: int| 0 <= j < old(self).seq().len() && old(self).seq()[j] == q;
                        assert(self.seq()[j] == q);
                    }
                }
                assert(self.seq()[self.seq().len() - 1] == p);
            }
        }
    }

    /// Removes the member `p`.
    pub fn remove(&mut self, p: &Pos)
        requires
            old(self).wf(),
            old(self)@.contains(*p),
        ensures
            final(self).wf(),
            final(self)@ == old(self)@.remove(*p),
            final(self).seq().len() == old(self).seq().len() - 1,
    {
        let mut i: usize = 0;
        while i < self.items.len()
            invariant
                i <= self.items@.len(),
                self.items@ == old(self).items@,
                forall|j: int| 0 <= j < i ==> self.items@[j] != *p,
            ensures
                i <= self.items@.len(),
                self.items@ == old(self).items@,
                forall|j: int| 0 <= j < i ==> self.items@[j] != *p,
                i < self.items@.len() ==> self.items@[i as int] == *p,
            decreases self.items@.len() - i,
        {
            if self.items[i] == *p {
                break;
            }
            i = i + 1;
        }
        if i == self.items.len() {
            assert(false);
            return;
        }
        let ghost s = self.items@;
        self.items.remove(i);
        let ghost t = self.items@;
        assert(forall|j: int| 0 <= j < t.len() ==> #[trigger] t[j] == if j < i { s[j] } else { s[j + 1] });
        assert(t.no_duplicates()) by {
            assert forall|j: int, k: int| 0 <= j < t.len() && 0 <= k < t.len() && j != k implies t[j] != t[k] by {
                let jj = if j < i { j } else { j + 1 };
                let kk = if k < i { k } else { k + 1 };
                assert(t[j] == s[jj]);
                assert(t[k] == s[kk]);
            }
        }
        assert(self@ =~= old(self)@.remove(*p)) by {
            assert forall|q: Pos| #[trigger] t.contains(q) <==> (s.contains(q) && q != *p) by {
                if t.contains(q) {
                    let j = choose|j: int| 0 <= j < t.len() && t[j] == q;
                    let jj = if j < i { j } else { j + 1 };
                    assert(s[jj] == q);
                    assert(jj != i);
                }
                if s.contains(q) && q != *p {
                    let j = choose|j: int| 0 <= j < s.len() && s[j] == q;
                    assert(j != i);
                    if j < i {
                        assert(t[j] == q);
                    } else {
                        assert(t[j - 1] == q);
                    }
                }
            }
        }
    }
}

} // verus!
