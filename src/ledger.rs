//! The bond ledger: which pairs of link cells are chemically bonded.
use crate::pos::Pos;
use vstd::prelude::*;

verus! {

/// A bond between two link cells; `(a, b)` and `(b, a)` are the same bond.
#[derive(Clone, Copy, Debug)]
pub struct Bond {
    pub a: Pos,
    pub b: Pos,
}

impl Bond {
    /// One of the bond's two ends is `p`.
    pub open spec fn touches(self, p: Pos) -> bool {
        self.a == p || self.b == p
    }

    /// The bond joins `p` and `q`, in either order.
    pub open spec fn joins(self, p: Pos, q: Pos) -> bool {
        (self.a == p && self.b == q) || (self.a == q && self.b == p)
    }

    /// The bond between `p1` and `p2`.
    pub fn new(p1: Pos, p2: Pos) -> (r: Bond)
        ensures
            r.a == p1,
            r.b == p2,
    {
        Bond { a: p1, b: p2 }
    }
}

impl PartialEq for Bond {
    fn eq(&self, other: &Bond) -> (r: bool) {
        (self.a == other.a && self.b == other.b) || (self.a == other.b && self.b == other.a)
    }
}

impl vstd::std_specs::cmp::PartialEqSpecImpl for Bond {
    open spec fn obeys_eq_spec() -> bool {
        true
    }

    open spec fn eq_spec(&self, other: &Bond) -> bool {
        self.joins(other.a, other.b)
    }
}

impl Eq for Bond {}

/// Number of bonds in `s` that touch `p`.
pub open spec fn degree_in(s: Seq<Bond>, p: Pos) -> nat
    decreases s.len(),
{
    if s.len() == 0 {
        0
    } else {
        degree_in(s.drop_last(), p) + if s.last().touches(p) {
            1nat
        } else {
            0nat
        }
    }
}

/// Some bond of `s` joins `p` and `q`.
pub open spec fn pairs_in(s: Seq<Bond>, p: Pos, q: Pos) -> bool {
    exists|i: int| 0 <= i < s.len() && #[trigger] s[i].joins(p, q)
}

/// No two bonds of `s` join the same pair of cells.
pub open spec fn distinct_pairs(s: Seq<Bond>) -> bool {
    forall|i: int, j: int| 0 <= i < j < s.len() ==> !(#[trigger] s[i]).joins(#[trigger] s[j].a, s[j].b)
}

/// A position has no bond exactly when no bond touches it.
pub proof fn lemma_degree_zero(s: Seq<Bond>, p: Pos)
    ensures
        degree_in(s, p) == 0 <==> forall|i: int| 0 <= i < s.len() ==> !(#[trigger] s[i]).touches(p),
    decreases s.len(),
{
    if s.len() > 0 {
        let t = s.drop_last();
        lemma_degree_zero(t, p);
        assert(forall|i: int| 0 <= i < s.len() - 1 ==> #[trigger] t[i] == s[i]);
        assert(s.last() == s[s.len() - 1]);
        if degree_in(s, p) == 0 {
            assert forall|i: int| 0 <= i < s.len() implies !(#[trigger] s[i]).touches(p) by {
                if i < s.len() - 1 {
                    assert(t[i] == s[i]);
                }
            }
        }
        if forall|i: int| 0 <= i < s.len() ==> !(#[trigger] s[i]).touches(p) {
            assert forall|i: int| 0 <= i < t.len() implies !(#[trigger] t[i]).touches(p) by {
                assert(t[i] == s[i]);
            }
        }
    }
}

/// Appending a bond raises the degree of its two ends by one.
pub proof fn lemma_degree_push(s: Seq<Bond>, b: Bond, p: Pos)
    ensures
        degree_in(s.push(b), p) == degree_in(s, p) + if b.touches(p) {
            1nat
        } else {
            0nat
        },
{
    assert(s.push(b).drop_last() =~= s);
}

/// The bonds between link cells, in the order they were made.
pub struct Ledger {
    bonds: Vec<Bond>,
}

impl Ledger {
    /// The bonds in the order they were made.
    pub closed spec fn seq(&self) -> Seq<Bond> {
        self.bonds@
    }

    /// Number of bonds that touch `p`.
    pub open spec fn degree_of(&self, p: Pos) -> nat {
        degree_in(self.seq(), p)
    }

    /// A ledger without bonds.
    pub fn new() -> (r: Ledger)
        ensures
            r.seq() == Seq::<Bond>::empty(),
    {
        Ledger { bonds: Vec::new() }
    }

    /// Number of bonds.
    pub fn len(&self) -> (r: usize)
        ensures
            r == self.seq().len(),
    {
        self.bonds.len()
    }

    /// The bond at index `i`.
    pub fn get(&self, i: usize) -> (r: Bond)
        requires
            i < self.seq().len(),
        ensures
            r == self.seq()[i as int],
    {
        self.bonds[i]
    }

    /// Number of bonds that touch `p`.
    pub fn degree(&self, p: &Pos) -> (r: usize)
        ensures
            r == self.degree_of(*p),
    {
        let mut count: usize = 0;
        let mut i: usize = 0;
        while i < self.bonds.len()
            invariant
                i <= self.bonds@.len(),
                count <= i,
                count == degree_in(self.bonds@.take(i as int), *p),
            decreases self.bonds@.len() - i,
        {
            assert(self.bonds@.take(i + 1).drop_last() =~= self.bonds@.take(i as int));
            if self.bonds[i].a == *p || self.bonds[i].b == *p {
                count = count + 1;
            }
            i = i + 1;
        }
        assert(self.bonds@.take(i as int) =~= self.bonds@);
        count
    }

    /// Whether some bond touches `p`.
    pub fn touching(&self, p: &Pos) -> (r: bool)
        ensures
            r == (self.degree_of(*p) > 0),
    {
        let mut i: usize = 0;
        while i < self.bonds.len()
            invariant
                i <= self.bonds@.len(),
                forall|j: int| 0 <= j < i ==> !(#[trigger] self.bonds@[j]).touches(*p),
            decreases self.bonds@.len() - i,
        {
            if self.bonds[i].a == *p || self.bonds[i].b == *p {
                assert(self.bonds@[i as int].touches(*p));
                proof {
                    lemma_degree_zero(self.bonds@, *p);
                }
                return true;
            }
            i = i + 1;
        }
        proof {
            lemma_degree_zero(self.bonds@, *p);
        }
        false
    }

    /// Whether some bond joins `p` and `q`.
    pub fn pairs(&self, p: &Pos, q: &Pos) -> (r: bool)
        ensures
            r == pairs_in(self.seq(), *p, *q),
    {
        let b = Bond::new(*p, *q);
        let mut i: usize = 0;
        while i < self.bonds.len()
            invariant
                i <= self.bonds@.len(),
                b.a == *p && b.b == *q,
                forall|j: int| 0 <= j < i ==> !(#[trigger] self.bonds@[j]).joins(*p, *q),
            decreases self.bonds@.len() - i,
        {
            if self.bonds[i] == b {
                assert(self.bonds@[i as int].joins(*p, *q));
                return true;
            }
            i = i + 1;
        }
        false
    }

    /// Records a new bond.
    pub fn add(&mut self, b: Bond)
        ensures
            final(self).seq() == old(self).seq().push(b),
            forall|q: Pos| #[trigger] final(self).degree_of(q) == old(self).degree_of(q) + if b.touches(q) {
                1nat
            } else {
                0nat
            },
    {
        self.bonds.push(b);
        proof {
            assert forall|q: Pos| #[trigger] self.degree_of(q) == old(self).degree_of(q) + if b.touches(q) {
                1nat
            } else {
                0nat
            } by {
                lemma_degree_push(old(self).bonds@, b, q);
            }
        }
    }

    /// Removes every bond that touches `p`.
    pub fn drop_touching(&mut self, p: &Pos)
        ensures
            final(self).seq() == old(self).seq().filter(|b: Bond| !b.touches(*p)),
            final(self).degree_of(*p) == 0,
            forall|q: Pos| #[trigger] final(self).degree_of(q) <= old(self).degree_of(q),
            forall|i: int|
                0 <= i < final(self).seq().len() ==> old(self).seq().contains(
                    #[trigger] final(self).seq()[i],
                ) && !final(self).seq()[i].touches(*p),
            distinct_pairs(old(self).seq()) ==> distinct_pairs(final(self).seq()),
    {
        let ghost pred = |b: Bond| !b.touches(*p);
        let ghost s = self.bonds@;
        let mut kept: Vec<Bond> = Vec::new();
        let mut i: usize = 0;
        while i < self.bonds.len()
            invariant
                i <= s.len(),
                self.bonds@ == s,
                pred == (|b: Bond| !b.touches(*p)),
                kept@ == s.take(i as int).filter(pred),
                degree_in(kept@, *p) == 0,
                distinct_pairs(s) ==> distinct_pairs(kept@),
                forall|q: Pos| #[trigger] degree_in(kept@, q) <= degree_in(s.take(i as int), q),
            decreases s.len() - i,
        {
            let b = self.bonds[i];
            proof {
                assert(s.take(i + 1) =~= s.take(i as int).push(b));
                s.take(i as int).lemma_filter_push(b, pred);
                assert(pred(b) == !(b.a == *p || b.b == *p));
                assert forall|q: Pos| #[trigger] degree_in(kept@.push(b), q) <= degree_in(s.take(i + 1), q) by {
                    lemma_degree_push(kept@, b, q);
                    lemma_degree_push(s.take(i as int), b, q);
                }
                lemma_degree_push(kept@, b, *p);
                assert forall|q: Pos| #[trigger] degree_in(kept@, q) <= degree_in(s.take(i + 1), q) by {
                    lemma_degree_push(s.take(i as int), b, q);
                }
            }
            proof {
                if distinct_pairs(s) && pred(b) {
                    let k0 = kept@;
                    assert forall|x: int, y: int| 0 <= x < y < k0.push(b).len() implies !(
                    #[trigger] k0.push(b)[x]).joins(#[trigger] k0.push(b)[y].a, k0.push(b)[y].b) by {
                        if y == k0.len() {
                            let t = s.take(i as int);
                            t.lemma_filter_contains_rev(pred, k0[x]);
                            let x2 = choose|x2: int| 0 <= x2 < t.len() && t[x2] == k0[x];
                            assert(s[x2] == k0[x]);
                            assert(s[i as int] == b);
                            assert(!s[x2].joins(s[i as int].a, s[i as int].b));
                        } else {
                            assert(k0.push(b)[x] == k0[x]);
                            assert(k0.push(b)[y] == k0[y]);
                        }
                    }
                }
            }
            if !(b.a == *p || b.b == *p) {
                kept.push(b);
            }
            i = i + 1;
        }
        assert(s.take(i as int) =~= s);
        proof {
            assert forall|j: int| 0 <= j < kept@.len() implies s.contains(#[trigger] kept@[j])
                && !kept@[j].touches(*p) by {
                s.lemma_filter_pred(pred, j);
                s.lemma_filter_contains_rev(pred, kept@[j]);
            }
        }
        self.bonds = kept;
    }
}

} // verus!
