//! The simulation engine: four disjoint kinds of cell, a bond ledger, a
//! bounding box, and the reaction rules that rewrite them one tick at a time.
use crate::chance::{draw_below, seeded_rng};
use crate::ledger::{degree_in, distinct_pairs, lemma_degree_zero, pairs_in, Bond, Ledger};
use crate::pos::{
    adjacent, adjacent_spec, dist2, distance, in_field, nb, neighbor, new_bounds, pos, within_field,
    Pos, FIELD_LIMIT,
};
use crate::posset::PosSet;
use vstd::prelude::*;

verus! {

/// The first of the two directions across direction `i`.
pub open spec fn side_a(i: int) -> int {
    if i == 1 || i == 3 {
        0
    } else {
        1
    }
}

/// The second of the two directions across direction `i`.
pub open spec fn side_b(i: int) -> int {
    side_a(i) + 2
}

/// The decay rate is a probability measured in parts of `DECAY_SCALE`.
pub const DECAY_SCALE: u32 = 1_000_000;

/// Why a universe could not be built.
#[derive(Clone, Copy, PartialEq, Eq, Structural, Debug)]
pub enum SetupError {
    /// More catalysts were asked for than the seed rectangle has cells.
    TooManyCatalysts,
}

/// The whole state of a simulation: which cells are holes, catalysts and
/// links (every other cell is substrate), the bonds between links, the
/// decay rate, the bounding box of every cell ever touched, and the random
/// source that drives every choice.
pub struct Universe {
    holes: PosSet,
    catalysts: PosSet,
    links: PosSet,
    bonds: Ledger,
    decay_rate: u32,
    upper_left: Pos,
    lower_right: Pos,
    rng: rand::rngs::StdRng,
}

impl Universe {
    /// The hole cells.
    pub closed spec fn holes(&self) -> Set<Pos> {
        self.holes@
    }

    /// The catalyst cells.
    pub closed spec fn catalysts(&self) -> Set<Pos> {
        self.catalysts@
    }

    /// The link cells.
    pub closed spec fn links(&self) -> Set<Pos> {
        self.links@
    }

    /// The bond ledger, in the order the bonds were made.
    pub closed spec fn bond_list(&self) -> Seq<Bond> {
        self.bonds.seq()
    }

    /// The decay rate, in parts of `DECAY_SCALE`.
    pub closed spec fn decay(&self) -> u32 {
        self.decay_rate
    }

    /// The bounding box is `[upper_left, lower_right)`.
    pub closed spec fn upper_left(&self) -> Pos {
        self.upper_left
    }

    pub closed spec fn lower_right(&self) -> Pos {
        self.lower_right
    }

    /// Holes, then links, then catalysts, each in its own index order.
    pub closed spec fn population(&self) -> Seq<Pos> {
        self.holes.seq() + self.links.seq() + self.catalysts.seq()
    }

    /// Number of bonds that touch `q`.
    pub open spec fn degree(&self, q: Pos) -> nat {
        degree_in(self.bond_list(), q)
    }

    /// `q` is neither a hole, a catalyst nor a link.
    pub open spec fn substrate(&self, q: Pos) -> bool {
        !self.holes().contains(q) && !self.catalysts().contains(q) && !self.links().contains(q)
    }

    /// `q` lies in the bounding box.
    pub open spec fn in_box(&self, q: Pos) -> bool {
        self.upper_left().x <= q.x < self.lower_right().x && self.upper_left().y <= q.y
            < self.lower_right().y
    }

    /// Holes, catalysts and links are pairwise disjoint.
    pub open spec fn disjoint(&self) -> bool {
        self.holes().disjoint(self.catalysts()) && self.holes().disjoint(self.links())
            && self.catalysts().disjoint(self.links())
    }

    /// There are as many links as holes.
    pub open spec fn balanced(&self) -> bool {
        self.links().len() == self.holes().len()
    }

    /// Every bond joins two distinct links, no pair is bonded twice, and no
    /// cell has more than two bonds.
    pub open spec fn bonds_valid(&self) -> bool {
        &&& distinct_pairs(self.bond_list())
        &&& forall|i: int|
            0 <= i < self.bond_list().len() ==> {
                let b = #[trigger] self.bond_list()[i];
                self.links().contains(b.a) && self.links().contains(b.b) && b.a != b.b
            }
        &&& forall|q: Pos| #[trigger] degree_in(self.bond_list(), q) <= 2
    }

    /// Every occupied cell lies in the bounding box and in the field.
    pub open spec fn bounded(&self) -> bool {
        &&& forall|q: Pos| #[trigger] self.holes().contains(q) ==> self.in_box(q) && in_field(q)
        &&& forall|q: Pos| #[trigger] self.catalysts().contains(q) ==> self.in_box(q) && in_field(q)
        &&& forall|q: Pos| #[trigger] self.links().contains(q) ==> self.in_box(q) && in_field(q)
    }

    /// The invariants that hold before and after every tick.
    pub open spec fn wf(&self) -> bool {
        &&& self.inner_wf()
        &&& self.disjoint()
        &&& self.balanced()
        &&& self.bonds_valid()
        &&& self.bounded()
        &&& self.decay() <= DECAY_SCALE
    }

    /// Each kind of cell is a finite set kept without repeats.
    pub closed spec fn inner_wf(&self) -> bool {
        &&& self.holes.wf()
        &&& self.catalysts.wf()
        &&& self.links.wf()
        &&& self.holes@.finite()
        &&& self.catalysts@.finite()
        &&& self.links@.finite()
    }

    /// Everything but the bounding box and the random source is as in `other`.
    pub open spec fn same_cells(&self, other: &Universe) -> bool {
        &&& self.holes() == other.holes()
        &&& self.catalysts() == other.catalysts()
        &&& self.links() == other.links()
        &&& self.bond_list() == other.bond_list()
        &&& self.decay() == other.decay()
    }

    /// The bounding box of `self` contains that of `other`.
    pub open spec fn box_grows_from(&self, other: &Universe) -> bool {
        &&& self.upper_left().x <= other.upper_left().x
        &&& self.upper_left().y <= other.upper_left().y
        &&& self.lower_right().x >= other.lower_right().x
        &&& self.lower_right().y >= other.lower_right().y
    }

    /// No bond touches a cell that is not a link.
    pub proof fn lemma_unlinked_unbonded(&self, q: Pos)
        requires
            self.bonds_valid(),
            !self.links().contains(q),
        ensures
            self.degree(q) == 0,
    {
        lemma_degree_zero(self.bond_list(), q);
        assert forall|i: int| 0 <= i < self.bond_list().len() implies !(
        #[trigger] self.bond_list()[i]).touches(q) by {
            let b = self.bond_list()[i];
            assert(self.links().contains(b.a));
        }
    }

    /// Every bond lies inside the bounding box: both its ends are links, and
    /// every link lies inside it.
    pub proof fn lemma_bonds_in_box(&self)
        requires
            self.wf(),
        ensures
            forall|i: int|
                0 <= i < self.bond_list().len() ==> self.in_box(#[trigger] self.bond_list()[i].a)
                    && self.in_box(self.bond_list()[i].b),
    {
        assert forall|i: int| 0 <= i < self.bond_list().len() implies self.in_box(
            #[trigger] self.bond_list()[i].a,
        ) && self.in_box(self.bond_list()[i].b) by {
            let b = self.bond_list()[i];
            assert(self.links().contains(b.a));
            assert(self.links().contains(b.b));
        }
    }

    /// The view of each kind has as many members as its index order.
    proof fn lemma_lens(&self)
        requires
            self.inner_wf(),
        ensures
            self.holes().len() == self.holes.seq().len(),
            self.links().len() == self.links.seq().len(),
            self.catalysts().len() == self.catalysts.seq().len(),
    {
        self.holes.lemma_len();
        self.links.lemma_len();
        self.catalysts.lemma_len();
    }

    /// Whether `p` is substrate: neither a hole, a catalyst nor a link.
    pub fn is_substrate(&self, p: &Pos) -> (r: bool)
        ensures
            r == self.substrate(*p),
    {
        !(self.holes.contains(p) || self.catalysts.contains(p) || self.links.contains(p))
    }

    pub fn is_link(&self, p: &Pos) -> (r: bool)
        ensures
            r == self.links().contains(*p),
    {
        self.links.contains(p)
    }

    pub fn is_catalyst(&self, p: &Pos) -> (r: bool)
        ensures
            r == self.catalysts().contains(*p),
    {
        self.catalysts.contains(p)
    }

    pub fn is_hole(&self, p: &Pos) -> (r: bool)
        ensures
            r == self.holes().contains(*p),
    {
        self.holes.contains(p)
    }

    /// Number of bonds that touch `p`.
    pub fn num_bonds(&self, p: &Pos) -> (r: usize)
        ensures
            r == self.degree(*p),
    {
        self.bonds.degree(p)
    }

    /// Whether `p1` and `p2` are bonded to each other.
    pub fn bonded(&self, p1: &Pos, p2: &Pos) -> (r: bool)
        ensures
            r == pairs_in(self.bond_list(), *p1, *p2),
    {
        self.bonds.pairs(p1, p2)
    }

    /// Whether `p` has at least one bond.
    pub fn is_bonded(&self, p: &Pos) -> (r: bool)
        ensures
            r == (self.degree(*p) > 0),
    {
        self.bonds.touching(p)
    }

    /// Number of links.
    pub fn num_links(&self) -> (r: usize)
        requires
            self.wf(),
        ensures
            r == self.links().len(),
    {
        proof {
            self.lemma_lens();
        }
        self.links.len()
    }

    /// Number of holes.
    pub fn num_holes(&self) -> (r: usize)
        requires
            self.wf(),
        ensures
            r == self.holes().len(),
    {
        proof {
            self.lemma_lens();
        }
        self.holes.len()
    }

    /// Number of catalysts.
    pub fn num_catalysts(&self) -> (r: usize)
        requires
            self.wf(),
        ensures
            r == self.catalysts().len(),
    {
        proof {
            self.lemma_lens();
        }
        self.catalysts.len()
    }

    /// Whether both ends of every bond are links.
    pub fn validate_bonds(&self) -> (r: bool)
        ensures
            r == forall|i: int|
                0 <= i < self.bond_list().len() ==> {
                    let b = #[trigger] self.bond_list()[i];
                    self.links().contains(b.a) && self.links().contains(b.b)
                },
    {
        let mut i: usize = 0;
        while i < self.bonds.len()
            invariant
                i <= self.bond_list().len(),
                forall|j: int|
                    0 <= j < i ==> {
                        let b = #[trigger] self.bond_list()[j];
                        self.links().contains(b.a) && self.links().contains(b.b)
                    },
            decreases self.bond_list().len() - i,
        {
            let b = self.bonds.get(i);
            if !(self.is_link(&b.a) && self.is_link(&b.b)) {
                return false;
            }
            i = i + 1;
        }
        true
    }

    /// No bond partner of `n` is adjacent to `p`, so a bond from `p` to `n`
    /// would not close an acute triangle.
    pub open spec fn angle_ok(&self, p: Pos, n: Pos) -> bool {
        forall|i: int|
            0 <= i < self.bond_list().len() ==> {
                let b = #[trigger] self.bond_list()[i];
                (b.a == n ==> !adjacent_spec(b.b, p)) && (b.b == n ==> !adjacent_spec(b.a, p))
            }
    }

    /// `n` may take a new bond to `p`.
    pub open spec fn bond_ok(&self, p: Pos, n: Pos) -> bool {
        &&& self.links().contains(n)
        &&& self.degree(n) < 2
        &&& self.angle_ok(p, n)
        &&& !pairs_in(self.bond_list(), n, p)
    }

    /// Whether a bond from `p` to `b` keeps the angle at `b` obtuse.
    pub fn bond_angle_obtuse(&self, p: &Pos, b: &Pos) -> (r: bool)
        ensures
            r == self.angle_ok(*p, *b),
    {
        let mut i: usize = 0;
        while i < self.bonds.len()
            invariant
                i <= self.bond_list().len(),
                forall|j: int|
                    0 <= j < i ==> {
                        let e = #[trigger] self.bond_list()[j];
                        (e.a == *b ==> !adjacent_spec(e.b, *p)) && (e.b == *b ==> !adjacent_spec(
                            e.a,
                            *p,
                        ))
                    },
            decreases self.bond_list().len() - i,
        {
            let e = self.bonds.get(i);
            if (e.a == *b && adjacent(&e.b, p)) || (e.b == *b && adjacent(&e.a, p)) {
                return false;
            }
            i = i + 1;
        }
        true
    }

    /// `next` is `self` after the link at `q` tried to bond: if it has fewer
    /// than two bonds and some 8-neighbour may take a bond to it, exactly one
    /// such bond was added; otherwise nothing changed.
    pub open spec fn bond_outcome(&self, q: Pos, next: &Universe) -> bool {
        &&& next.holes() == self.holes()
        &&& next.links() == self.links()
        &&& next.catalysts() == self.catalysts()
        &&& next.decay() == self.decay()
        &&& if self.degree(q) >= 2 || (forall|e: int|
            0 <= e < 8 ==> !self.bond_ok(q, #[trigger] nb(q, e))) {
            next.bond_list() == self.bond_list()
        } else {
            exists|e: int|
                0 <= e < 8 && self.bond_ok(q, #[trigger] nb(q, e)) && next.bond_list()
                    == self.bond_list().push(Bond { a: nb(q, e), b: q })
        }
    }

    /// Tries to bond the link at `p` to one neighbouring link (8-connected)
    /// that may take it, picked at random; does nothing if there is none.
    fn bond(&mut self, p: &Pos)
        requires
            old(self).wf(),
            old(self).links().contains(*p),
            old(self).degree(*p) < 2,
        ensures
            old(self).bond_outcome(*p, final(self)),
            final(self).wf(),
            final(self).holes() == old(self).holes(),
            final(self).catalysts() == old(self).catalysts(),
            final(self).links() == old(self).links(),
            final(self).decay() == old(self).decay(),
            final(self).upper_left() == old(self).upper_left(),
            final(self).lower_right() == old(self).lower_right(),
            (forall|d: int| 0 <= d < 8 ==> !old(self).bond_ok(*p, #[trigger] nb(*p, d)))
                ==> final(self).bond_list() == old(self).bond_list(),
            !(forall|d: int| 0 <= d < 8 ==> !old(self).bond_ok(*p, #[trigger] nb(*p, d)))
                ==> exists|d: int|
                0 <= d < 8 && old(self).bond_ok(*p, #[trigger] nb(*p, d))
                    && final(self).bond_list() == old(self).bond_list().push(
                    Bond { a: nb(*p, d), b: *p },
                ),
            final(self).degree(*p) <= old(self).degree(*p) + 1,
    {
        proof {
            assert(in_field(*p));
        }
        let mut dirs: Vec<i32> = Vec::new();
        let mut d: i32 = 0;
        while d < 8
            invariant
                0 <= d <= 8,
                *self == *old(self),
                in_field(*p),
                forall|k: int|
                    0 <= k < dirs@.len() ==> 0 <= #[trigger] dirs@[k] < 8 && self.bond_ok(
                        *p,
                        nb(*p, dirs@[k] as int),
                    ),
                dirs@.len() == 0 ==> forall|e: int| 0 <= e < d ==> !self.bond_ok(*p, #[trigger] nb(*p, e)),
            decreases 8 - d,
        {
            let n = neighbor(p, d);
            if self.is_link(&n) && self.num_bonds(&n) < 2 && self.bond_angle_obtuse(p, &n)
                && !self.bonded(&n, p) {
                dirs.push(d);
            }
            d = d + 1;
        }
        if dirs.len() > 0 {
            let k = self.roll(dirs.len());
            let n = neighbor(p, dirs[k]);
            let ghost pre = *self;
            proof {
                assert(self.bond_ok(*p, nb(*p, dirs@[k as int] as int)));
                assert(n != *p);
                assert(pre.degree(n) < 2);
                assert(pre.degree(*p) < 2);
                assert(pre.wf());
            }
            self.bonds.add(Bond::new(n, *p));
            proof {
                assert(self.bond_list() == pre.bond_list().push(Bond { a: n, b: *p }));
                assert forall|q: Pos| #[trigger] degree_in(self.bond_list(), q) <= 2 by {
                    assert(self.bonds.degree_of(q) == pre.bonds.degree_of(q) + if (Bond { a: n, b: *p }).touches(q) {
                        1nat
                    } else {
                        0nat
                    });
                    assert(pre.degree(q) <= 2);
                }
                assert forall|i: int| 0 <= i < self.bond_list().len() implies {
                    let b = #[trigger] self.bond_list()[i];
                    self.links().contains(b.a) && self.links().contains(b.b) && b.a != b.b
                } by {
                    if i < pre.bond_list().len() {
                        assert(self.bond_list()[i] == pre.bond_list()[i]);
                    }
                }
                assert(self.bonds.degree_of(*p) == pre.bonds.degree_of(*p) + 1);
                assert(distinct_pairs(self.bond_list())) by {
                    let s0 = pre.bond_list();
                    let s1 = self.bond_list();
                    assert forall|x: int, y: int| 0 <= x < y < s1.len() implies !(
                    #[trigger] s1[x]).joins(#[trigger] s1[y].a, s1[y].b) by {
                        assert(s1[x] == s0[x]);
                        if y < s0.len() {
                            assert(s1[y] == s0[y]);
                        } else {
                            assert(!s0[x].joins(n, *p));
                        }
                    }
                }
                let dd = dirs@[k as int] as int;
                assert(0 <= dd < 8 && old(self).bond_ok(*p, nb(*p, dd)));
            }
        }
    }

    /// Some 8-neighbour of `q` is a hole.
    pub open spec fn hole_beside(&self, q: Pos) -> bool {
        exists|d: int| 0 <= d < 8 && self.holes().contains(#[trigger] nb(q, d))
    }

    /// Two steps from `q` in direction `d` lies a hole, and the cell between
    /// is a bonded link.
    pub open spec fn hole_behind(&self, q: Pos, d: int) -> bool {
        let n = nb(q, d);
        self.links().contains(n) && degree_in(self.bond_list(), n) > 0 && self.holes().contains(
            nb(n, d),
        )
    }

    /// Some 4-direction from `q` has a hole behind a bonded link.
    pub open spec fn hole_through(&self, q: Pos) -> bool {
        exists|d: int| 0 <= d < 4 && #[trigger] self.hole_behind(q, d)
    }

    /// A hole that may be drawn towards `q`: an 8-neighbour if there is one,
    /// else one behind a bonded link.
    pub open spec fn pulls(&self, q: Pos, h: Pos) -> bool {
        if self.hole_beside(q) {
            exists|d: int| 0 <= d < 8 && h == #[trigger] nb(q, d) && self.holes().contains(h)
        } else {
            exists|d: int| 0 <= d < 4 && #[trigger] self.hole_behind(q, d) && h == nb(nb(q, d), d)
        }
    }

    /// `self` and `other` differ at most in their random source.
    pub closed spec fn rng_only(&self, other: &Universe) -> bool {
        &&& self.holes == other.holes
        &&& self.links == other.links
        &&& self.catalysts == other.catalysts
        &&& self.bonds == other.bonds
        &&& self.decay_rate == other.decay_rate
        &&& self.upper_left == other.upper_left
        &&& self.lower_right == other.lower_right
    }

    /// Two universes that differ only in their random source agree on everything else.
    proof fn lemma_rng_only(a: &Universe, b: &Universe)
        requires
            a.rng_only(b),
        ensures
            a.same_cells(b),
            a.upper_left() == b.upper_left(),
            a.lower_right() == b.lower_right(),
            a.inner_wf() == b.inner_wf(),
            b.wf() ==> a.wf(),
    {
        assert(a.bond_list() == b.bond_list());
        assert(a.links() == b.links());
        assert(b.wf() ==> forall|q: Pos| #[trigger] degree_in(a.bond_list(), q) <= 2);
    }

    /// A random number below `n`; only the random source changes.
    fn roll(&mut self, n: usize) -> (r: usize)
        requires
            n > 0,
        ensures
            r < n,
            final(self).rng_only(old(self)),
            final(self).same_cells(old(self)),
            final(self).upper_left() == old(self).upper_left(),
            final(self).lower_right() == old(self).lower_right(),
            old(self).wf() ==> final(self).wf(),
    {
        let r = draw_below(&mut self.rng, n as u64);
        proof {
            Universe::lemma_rng_only(self, old(self));
        }
        r as usize
    }

    /// The hole probes read only the cells and bonds.
    proof fn lemma_probes_agree(a: &Universe, b: &Universe, q: Pos)
        requires
            a.same_cells(b),
        ensures
            a.hole_beside(q) == b.hole_beside(q),
            a.hole_through(q) == b.hole_through(q),
            forall|d: int| #[trigger] a.hole_behind(q, d) == b.hole_behind(q, d),
            forall|h: Pos| #[trigger] a.pulls(q, h) == b.pulls(q, h),
    {
        assert(forall|d: int| #[trigger] a.hole_behind(q, d) == b.hole_behind(q, d));
        if a.hole_through(q) {
            let d = choose|d: int| 0 <= d < 4 && #[trigger] a.hole_behind(q, d);
            assert(b.hole_behind(q, d));
        }
        if b.hole_through(q) {
            let d = choose|d: int| 0 <= d < 4 && #[trigger] b.hole_behind(q, d);
            assert(a.hole_behind(q, d));
        }
        assert forall|h: Pos| #[trigger] a.pulls(q, h) == b.pulls(q, h) by {
            if !a.hole_beside(q) {
                if a.pulls(q, h) {
                    let d = choose|d: int|
                        0 <= d < 4 && #[trigger] a.hole_behind(q, d) && h == nb(nb(q, d), d);
                    assert(b.hole_behind(q, d));
                }
                if b.pulls(q, h) {
                    let d = choose|d: int|
                        0 <= d < 4 && #[trigger] b.hole_behind(q, d) && h == nb(nb(q, d), d);
                    assert(a.hole_behind(q, d));
                }
            }
        }
    }

    /// Grows the bounding box to contain `p`.
    fn expand(&mut self, p: &Pos)
        requires
            in_field(*p),
        ensures
            final(self).same_cells(old(self)),
            final(self).box_grows_from(old(self)),
            final(self).in_box(*p),
            final(self).inner_wf() == old(self).inner_wf(),
            final(self).holes.seq() == old(self).holes.seq(),
            final(self).links.seq() == old(self).links.seq(),
            final(self).catalysts.seq() == old(self).catalysts.seq(),
    {
        let (ul, lr) = new_bounds(p, &self.upper_left, &self.lower_right);
        self.upper_left = ul;
        self.lower_right = lr;
    }

    /// The holes among the 8 neighbours of `p`.
    fn get_adjacent_holes(&self, p: &Pos) -> (r: Vec<Pos>)
        requires
            in_field(*p),
        ensures
            forall|k: int|
                0 <= k < r@.len() ==> self.holes().contains(#[trigger] r@[k]) && exists|d: int|
                    0 <= d < 8 && #[trigger] nb(*p, d) == r@[k],
            r@.len() == 0 <==> !self.hole_beside(*p),
    {
        let mut r: Vec<Pos> = Vec::new();
        let mut d: i32 = 0;
        while d < 8
            invariant
                0 <= d <= 8,
                in_field(*p),
                forall|k: int|
                    0 <= k < r@.len() ==> self.holes().contains(#[trigger] r@[k]) && exists|e: int|
                        0 <= e < 8 && #[trigger] nb(*p, e) == r@[k],
                r@.len() == 0 <==> forall|e: int| 0 <= e < d ==> !self.holes().contains(#[trigger] nb(*p, e)),
            decreases 8 - d,
        {
            let n = neighbor(p, d);
            if self.is_hole(&n) {
                r.push(n);
                assert(r@[r@.len() - 1] == nb(*p, d as int));
            }
            d = d + 1;
        }
        r
    }

    /// The holes that lie two steps from `p` behind a bonded link, one per 4-direction.
    fn get_displaced_holes(&self, p: &Pos) -> (r: Vec<Pos>)
        requires
            in_field(*p),
        ensures
            forall|k: int|
                0 <= k < r@.len() ==> self.holes().contains(#[trigger] r@[k]) && exists|d: int|
                    0 <= d < 4 && #[trigger] self.hole_behind(*p, d) && r@[k] == nb(nb(*p, d), d),
            r@.len() == 0 <==> !self.hole_through(*p),
    {
        let mut r: Vec<Pos> = Vec::new();
        let mut d: i32 = 0;
        while d < 4
            invariant
                0 <= d <= 4,
                in_field(*p),
                forall|k: int|
                    0 <= k < r@.len() ==> self.holes().contains(#[trigger] r@[k]) && exists|e: int|
                        0 <= e < 4 && #[trigger] self.hole_behind(*p, e) && r@[k] == nb(nb(*p, e), e),
                r@.len() == 0 <==> forall|e: int| 0 <= e < d ==> !#[trigger] self.hole_behind(*p, e),
            decreases 4 - d,
        {
            let n = neighbor(p, d);
            let n2 = neighbor(&n, d);
            if self.is_link(&n) && self.is_bonded(&n) && self.is_hole(&n2) {
                r.push(n2);
                assert(self.hole_behind(*p, d as int));
                assert(r@[r@.len() - 1] == nb(nb(*p, d as int), d as int));
            }
            d = d + 1;
        }
        r
    }

    /// Picks at random a hole to draw towards `p`: one beside it if any, else
    /// one behind a bonded link; `None` if there is neither.
    fn hole_to_pull(&mut self, p: &Pos) -> (r: Option<Pos>)
        requires
            in_field(*p),
        ensures
            final(self).same_cells(old(self)),
            final(self).upper_left() == old(self).upper_left(),
            final(self).lower_right() == old(self).lower_right(),
            final(self).inner_wf() == old(self).inner_wf(),
            final(self).holes.seq() == old(self).holes.seq(),
            final(self).links.seq() == old(self).links.seq(),
            final(self).catalysts.seq() == old(self).catalysts.seq(),
            r is None <==> !old(self).hole_beside(*p) && !old(self).hole_through(*p),
            r matches Some(h) ==> old(self).pulls(*p, h) && old(self).holes().contains(h),
    {
        let adjacent_holes = self.get_adjacent_holes(p);
        if adjacent_holes.len() > 0 {
            let k = self.roll(adjacent_holes.len());
            assert(exists|d: int|
                0 <= d < 8 && #[trigger] nb(*p, d) == adjacent_holes@[k as int]
                    && old(self).holes().contains(adjacent_holes@[k as int]));
            return Some(adjacent_holes[k]);
        }
        let displaced_holes = self.get_displaced_holes(p);
        if displaced_holes.len() > 0 {
            let k = self.roll(displaced_holes.len());
            assert(exists|d: int|
                0 <= d < 4 && #[trigger] old(self).hole_behind(*p, d) && displaced_holes@[k as int]
                    == nb(nb(*p, d), d));
            return Some(displaced_holes[k]);
        }
        None
    }

    /// The hole nearest to `p`, the first found among equals.
    fn nearest_hole(&self, p: &Pos) -> (r: Pos)
        requires
            self.inner_wf(),
            self.holes().len() > 0,
        ensures
            self.holes().contains(r),
            forall|q: Pos| #[trigger] self.holes().contains(q) ==> dist2(*p, r) <= dist2(*p, q),
    {
        proof {
            self.lemma_lens();
        }
        let mut best = self.holes.get(0);
        let mut best_d = distance(&best, p);
        let mut i: usize = 1;
        while i < self.holes.len()
            invariant
                1 <= i <= self.holes.seq().len(),
                self.holes().contains(best),
                best_d == dist2(best, *p),
                forall|j: int| 0 <= j < i ==> dist2(best, *p) <= dist2(#[trigger] self.holes.seq()[j], *p),
            decreases self.holes.seq().len() - i,
        {
            let h = self.holes.get(i);
            let hd = distance(&h, p);
            if hd < best_d {
                best = h;
                best_d = hd;
            }
            i = i + 1;
        }
        proof {
            assert forall|q: Pos| #[trigger] self.holes().contains(q) implies dist2(*p, best) <= dist2(*p, q) by {
                let j = choose|j: int| 0 <= j < self.holes.seq().len() && self.holes.seq()[j] == q;
                assert(dist2(best, *p) <= dist2(self.holes.seq()[j], *p));
                assert(dist2(*p, best) == dist2(best, *p)) by (nonlinear_arith);
                assert(dist2(*p, q) == dist2(q, *p)) by (nonlinear_arith);
            }
        }
        best
    }

    /// Removes every bond that touches the decayed link at `dead_link`.
    fn fix_bonds(&mut self, dead_link: &Pos)
        ensures
            final(self).bond_list() == old(self).bond_list().filter(|b: Bond| !b.touches(*dead_link)),
            degree_in(final(self).bond_list(), *dead_link) == 0,
            forall|q: Pos| #[trigger] degree_in(final(self).bond_list(), q) <= degree_in(old(self).bond_list(), q),
            forall|i: int|
                0 <= i < final(self).bond_list().len() ==> old(self).bond_list().contains(
                    #[trigger] final(self).bond_list()[i],
                ) && !final(self).bond_list()[i].touches(*dead_link),
            distinct_pairs(old(self).bond_list()) ==> distinct_pairs(final(self).bond_list()),
            final(self).holes == old(self).holes,
            final(self).links == old(self).links,
            final(self).catalysts == old(self).catalysts,
            final(self).decay_rate == old(self).decay_rate,
            final(self).upper_left == old(self).upper_left,
            final(self).lower_right == old(self).lower_right,
    {
        self.bonds.drop_touching(dead_link);
        proof {
            assert forall|q: Pos| #[trigger] degree_in(self.bond_list(), q) <= degree_in(old(self).bond_list(), q) by {
                assert(self.bonds.degree_of(q) <= old(self).bonds.degree_of(q));
            }
        }
    }

    /// Where a decaying link at `p` may send its second substrate unit: a
    /// 4-neighbouring hole if there is one, else a nearest hole.
    pub open spec fn decay_target(&self, p: Pos, h: Pos) -> bool {
        &&& self.holes().contains(h)
        &&& if exists|d: int| 0 <= d < 4 && self.holes().contains(#[trigger] nb(p, d)) {
            exists|d: int| 0 <= d < 4 && h == #[trigger] nb(p, d)
        } else {
            forall|q: Pos| #[trigger] self.holes().contains(q) ==> dist2(p, h) <= dist2(p, q)
        }
    }

    /// The link at `p` decays: it and one hole become substrate, and its bonds break.
    fn decay_link(&mut self, p: &Pos)
        requires
            old(self).wf(),
            old(self).links().contains(*p),
        ensures
            final(self).wf(),
            final(self).links() == old(self).links().remove(*p),
            exists|h: Pos|
                old(self).decay_target(*p, h) && final(self).holes() == old(self).holes().remove(h),
            final(self).links().len() == old(self).links().len() - 1,
            final(self).holes().len() == old(self).holes().len() - 1,
            final(self).bond_list() == old(self).bond_list().filter(|b: Bond| !b.touches(*p)),
            final(self).catalysts() == old(self).catalysts(),
            final(self).decay() == old(self).decay(),
            final(self).upper_left() == old(self).upper_left(),
            final(self).lower_right() == old(self).lower_right(),
    {
        proof {
            assert(in_field(*p));
        }
        let mut near: Vec<Pos> = Vec::new();
        let mut d: i32 = 0;
        while d < 4
            invariant
                0 <= d <= 4,
                *self == *old(self),
                in_field(*p),
                forall|k: int|
                    0 <= k < near@.len() ==> self.holes().contains(#[trigger] near@[k]) && exists|e: int|
                        0 <= e < 4 && #[trigger] nb(*p, e) == near@[k],
                near@.len() == 0 <==> forall|e: int| 0 <= e < d ==> !self.holes().contains(#[trigger] nb(*p, e)),
            decreases 4 - d,
        {
            let n = neighbor(p, d);
            if self.is_hole(&n) {
                near.push(n);
                assert(near@[near@.len() - 1] == nb(*p, d as int));
            }
            d = d + 1;
        }
        let h = if near.len() == 0 {
            self.nearest_hole(p)
        } else {
            let k = self.roll(near.len());
            assert(exists|e: int| 0 <= e < 4 && #[trigger] nb(*p, e) == near@[k as int]);
            near[k]
        };
        assert(old(self).decay_target(*p, h));
        self.links.remove(p);
        self.holes.remove(&h);
        self.fix_bonds(p);
        proof {
            let o = old(self);
            assert(self.disjoint());
            assert(self.balanced());
            assert forall|i: int| 0 <= i < self.bond_list().len() implies {
                let b = #[trigger] self.bond_list()[i];
                self.links().contains(b.a) && self.links().contains(b.b) && b.a != b.b
            } by {
                let b = self.bond_list()[i];
                let j = choose|j: int| 0 <= j < o.bond_list().len() && o.bond_list()[j] == b;
                assert(o.bond_list()[j] == b);
            }
            assert forall|q: Pos| #[trigger] degree_in(self.bond_list(), q) <= 2 by {
                assert(degree_in(o.bond_list(), q) <= 2);
            }
            assert(self.bonds_valid());
            assert(self.bounded());
        }
    }

    /// `next` is `self` after the link at `p` decayed.
    pub open spec fn decays_to(&self, p: Pos, next: &Universe) -> bool {
        &&& next.links() == self.links().remove(p)
        &&& exists|h: Pos| self.decay_target(p, h) && next.holes() == self.holes().remove(h)
        &&& next.links().len() == self.links().len() - 1
        &&& next.holes().len() == self.holes().len() - 1
        &&& next.bond_list() == self.bond_list().filter(|b: Bond| !b.touches(p))
        &&& next.catalysts() == self.catalysts()
    }

    /// `next`'s holes are `self`'s after a hole that `q` pulls, if there is
    /// one, moved to `to`.
    pub open spec fn pull_outcome(&self, q: Pos, to: Pos, next: &Universe) -> bool {
        if self.hole_beside(q) || self.hole_through(q) {
            exists|h: Pos| #[trigger] self.pulls(q, h) && next.holes() == self.holes().remove(h).insert(to)
        } else {
            next.holes() == self.holes()
        }
    }

    /// The link at `p` is free and the cell in 4-direction `d` is open to it:
    /// substrate or a hole, inside the field.
    pub open spec fn link_moves(&self, p: Pos, d: int) -> bool {
        let p1 = nb(p, d);
        self.degree(p) == 0 && in_field(p1) && (self.substrate(p1) || self.holes().contains(p1))
    }

    /// Where the link at `p` is after it tried to step in direction `d`.
    pub open spec fn link_dest(&self, p: Pos, d: int) -> Pos {
        if self.link_moves(p, d) {
            nb(p, d)
        } else {
            p
        }
    }

    /// `next` is `self` after the link at `p` tried to step in direction `d`:
    /// into substrate, drawing a nearby hole into its old place if there is
    /// one, or into a hole, which takes its old place.
    pub open spec fn link_step(&self, p: Pos, d: int, next: &Universe) -> bool {
        let p1 = nb(p, d);
        &&& next.catalysts() == self.catalysts()
        &&& next.bond_list() == self.bond_list()
        &&& next.decay() == self.decay()
        &&& !self.link_moves(p, d) ==> next.links() == self.links() && next.holes() == self.holes()
        &&& self.link_moves(p, d) ==> next.links() == self.links().remove(p).insert(p1)
        &&& self.link_moves(p, d) && self.holes().contains(p1) ==> next.holes() == self.holes().remove(
            p1,
        ).insert(p)
        &&& self.link_moves(p, d) && self.substrate(p1) ==> self.pull_outcome(p1, p, next)
    }

    /// `next` is `self` after the link at `p` did not decay: it tried to step
    /// in some 4-direction, and then to bond where it stands.
    pub open spec fn steps_link(&self, p: Pos, next: &Universe) -> bool {
        exists|d: int, mid: Universe|
            0 <= d < 4 && #[trigger] self.link_step(p, d, &mid) && mid.bond_outcome(
                self.link_dest(p, d),
                next,
            )
    }

    /// Moves the free link at `p` one step in a random 4-direction, if the cell
    /// there is substrate or a hole; returns where the link now is.
    fn move_link(&mut self, p: &Pos) -> (r: Pos)
        requires
            old(self).wf(),
            old(self).links().contains(*p),
        ensures
            final(self).wf(),
            final(self).links().contains(r),
            final(self).box_grows_from(old(self)),
            exists|d: int|
                0 <= d < 4 && #[trigger] old(self).link_step(*p, d, final(self)) && r == old(self).link_dest(*p, d),
    {
        if self.is_bonded(p) {
            assert(old(self).link_step(*p, 0, self));
            return *p;
        }
        proof {
            assert(in_field(*p));
            self.lemma_lens();
        }
        let dir = self.roll(4) as i32;
        let p1 = neighbor(p, dir);
        if !within_field(&p1) {
            proof {
                Universe::lemma_rng_only(self, old(self));
                assert(old(self).link_step(*p, dir as int, self));
            }
            return *p;
        }
        self.expand(&p1);
        let ghost o = *old(self);
        if self.is_substrate(&p1) {
            proof {
                Universe::lemma_probes_agree(self, &o, p1);
            }
            let pulled = self.hole_to_pull(&p1);
            match pulled {
                Some(h) => {
                    self.holes.remove(&h);
                    self.holes.insert(*p);
                },
                None => {},
            }
            self.links.remove(p);
            self.links.insert(p1);
            proof {
                lemma_degree_zero(o.bond_list(), *p);
                self.lemma_lens();
                o.lemma_lens();
                assert(self.disjoint());
                assert(self.bonds_valid());
                assert(self.bounded());
                if pulled is Some {
                    assert(o.pull_outcome(p1, *p, self));
                }
                assert(o.link_step(*p, dir as int, self));
            }
            p1
        } else if self.is_hole(&p1) {
            self.holes.remove(&p1);
            self.links.remove(p);
            self.holes.insert(*p);
            self.links.insert(p1);
            proof {
                lemma_degree_zero(o.bond_list(), *p);
                assert(self.disjoint());
                assert(self.bonds_valid());
                assert(self.bounded());
                assert(o.link_step(*p, dir as int, self));
            }
            p1
        } else {
            proof {
                assert(o.link_step(*p, dir as int, self));
            }
            *p
        }
    }

    /// The rules read only the cells and bonds, so two universes that agree on
    /// them agree on every step from `p`.
    proof fn lemma_cells_agree(a: &Universe, b: &Universe, p: Pos)
        requires
            a.same_cells(b),
        ensures
            forall|q: Pos, next: Universe| #[trigger] a.bond_outcome(q, &next) == b.bond_outcome(q, &next),
            forall|q: Pos, to: Pos, next: Universe|
                #[trigger] a.pull_outcome(q, to, &next) == b.pull_outcome(q, to, &next),
            forall|d: int| #[trigger] a.link_dest(p, d) == b.link_dest(p, d),
            forall|d: int, next: Universe| #[trigger] a.link_step(p, d, &next) == b.link_step(p, d, &next),
            forall|next: Universe| #[trigger] a.steps_link(p, &next) == b.steps_link(p, &next),
            forall|d: int| #[trigger] a.catalyst_dest(p, d) == b.catalyst_dest(p, d),
            forall|d: int, next: Universe|
                #[trigger] a.catalyst_step(p, d, &next) == b.catalyst_step(p, d, &next),
    {
        assert forall|q: Pos, next: Universe| #[trigger] a.bond_outcome(q, &next) == b.bond_outcome(q, &next) by {
            assert(forall|n: Pos| #[trigger] a.bond_ok(q, n) == b.bond_ok(q, n));
        }
        assert forall|q: Pos, to: Pos, next: Universe|
            #[trigger] a.pull_outcome(q, to, &next) == b.pull_outcome(q, to, &next) by {
            Universe::lemma_probes_agree(a, b, q);
            if a.hole_beside(q) || a.hole_through(q) {
                if a.pull_outcome(q, to, &next) {
                    let h = choose|h: Pos| #[trigger] a.pulls(q, h) && next.holes() == a.holes().remove(h).insert(to);
                    assert(b.pulls(q, h));
                }
                if b.pull_outcome(q, to, &next) {
                    let h = choose|h: Pos| #[trigger] b.pulls(q, h) && next.holes() == b.holes().remove(h).insert(to);
                    assert(a.pulls(q, h));
                }
            }
        }
        assert forall|d: int, next: Universe| #[trigger] a.link_step(p, d, &next) == b.link_step(p, d, &next) by {
            assert(a.pull_outcome(nb(p, d), p, &next) == b.pull_outcome(nb(p, d), p, &next));
        }
        assert forall|d: int, next: Universe|
            #[trigger] a.catalyst_step(p, d, &next) == b.catalyst_step(p, d, &next) by {
            let p1 = nb(p, d);
            Universe::lemma_probes_agree(a, b, p1);
            assert(a.pull_outcome(p1, p, &next) == b.pull_outcome(p1, p, &next));
            if a.hole_beside(p1) || a.hole_through(p1) {
                if a.displace_outcome(p, p1, &next) {
                    let (h, mid) = choose|h: Pos, mid: Universe|
                        a.pulls(p1, h) && mid.holes() == a.holes().remove(h).insert(p) && mid.links()
                            == a.links().remove(p1).insert(h) && mid.catalysts() == next.catalysts()
                            && mid.bond_list() == a.bond_list() && mid.decay() == a.decay()
                            && #[trigger] mid.bond_outcome(h, &next);
                    assert(b.pulls(p1, h));
                }
                if b.displace_outcome(p, p1, &next) {
                    let (h, mid) = choose|h: Pos, mid: Universe|
                        b.pulls(p1, h) && mid.holes() == b.holes().remove(h).insert(p) && mid.links()
                            == b.links().remove(p1).insert(h) && mid.catalysts() == next.catalysts()
                            && mid.bond_list() == b.bond_list() && mid.decay() == b.decay()
                            && #[trigger] mid.bond_outcome(h, &next);
                    assert(a.pulls(p1, h));
                }
            }
            assert(a.displace_outcome(p, p1, &next) == b.displace_outcome(p, p1, &next));
        }
        assert forall|next: Universe| #[trigger] a.steps_link(p, &next) == b.steps_link(p, &next) by {
            if a.steps_link(p, &next) {
                let (d, mid) = choose|d: int, mid: Universe|
                    0 <= d < 4 && #[trigger] a.link_step(p, d, &mid) && mid.bond_outcome(a.link_dest(p, d), &next);
                assert(b.link_step(p, d, &mid));
            }
            if b.steps_link(p, &next) {
                let (d, mid) = choose|d: int, mid: Universe|
                    0 <= d < 4 && #[trigger] b.link_step(p, d, &mid) && mid.bond_outcome(b.link_dest(p, d), &next);
                assert(a.link_step(p, d, &mid));
            }
        }
    }

    /// One tick for the link at `p`: with probability `decay_rate` it decays;
    /// otherwise a free link may move, and then the link tries to bond.
    pub fn update_link(&mut self, p: &Pos)
        requires
            old(self).wf(),
            old(self).links().contains(*p),
        ensures
            final(self).wf(),
            final(self).decay() == old(self).decay(),
            final(self).box_grows_from(old(self)),
            old(self).decays_to(*p, final(self)) || old(self).steps_link(*p, final(self)),
            old(self).decay() == DECAY_SCALE ==> old(self).decays_to(*p, final(self)),
            old(self).decay() == 0 ==> old(self).steps_link(*p, final(self)),
    {
        let d = self.roll(DECAY_SCALE as usize);
        let ghost rolled = *self;
        if (d as u32) < self.decay_rate {
            self.decay_link(p);
        } else {
            let q = self.move_link(p);
            let ghost mid = *self;
            if self.num_bonds(&q) < 2 {
                self.bond(&q);
            }
            proof {
                let d = choose|d: int|
                    0 <= d < 4 && #[trigger] rolled.link_step(*p, d, &mid) && q == rolled.link_dest(*p, d);
                assert(mid.bond_outcome(q, self));
                assert(rolled.steps_link(*p, self));
                Universe::lemma_cells_agree(&rolled, old(self), *p);
            }
        }
    }

    /// Every 4-neighbour of `p` is a catalyst or a bonded link, so a catalyst
    /// at `p` can neither move nor produce.
    pub open spec fn enclosed(&self, p: Pos) -> bool {
        forall|d: int|
            0 <= d < 4 ==> self.catalysts().contains(#[trigger] nb(p, d)) || (self.links().contains(
                nb(p, d),
            ) && degree_in(self.bond_list(), nb(p, d)) > 0)
    }

    /// The catalyst at `p` can step in 4-direction `d`: the cell there lies in
    /// the field and is a hole, substrate, or a free link.
    pub open spec fn catalyst_moves(&self, p: Pos, d: int) -> bool {
        let p1 = nb(p, d);
        in_field(p1) && (self.holes().contains(p1) || self.substrate(p1) || (self.links().contains(
            p1,
        ) && self.degree(p1) == 0))
    }

    /// Where the catalyst at `p` is after it tried to step in direction `d`.
    pub open spec fn catalyst_dest(&self, p: Pos, d: int) -> Pos {
        if self.catalyst_moves(p, d) {
            nb(p, d)
        } else {
            p
        }
    }

    /// `next` is `self` after the catalyst at `p` pushed the free link at `p1`
    /// aside: the link went to a hole that `p1` pulls, and that hole to `p`,
    /// or, with no such hole, the link went to `p`; then the link tried to bond.
    pub open spec fn displace_outcome(&self, p: Pos, p1: Pos, next: &Universe) -> bool {
        if self.hole_beside(p1) || self.hole_through(p1) {
            exists|h: Pos, mid: Universe|
                self.pulls(p1, h) && mid.holes() == self.holes().remove(h).insert(p) && mid.links()
                    == self.links().remove(p1).insert(h) && mid.catalysts() == next.catalysts()
                    && mid.bond_list() == self.bond_list() && mid.decay() == self.decay()
                    && #[trigger] mid.bond_outcome(h, next)
        } else {
            exists|mid: Universe|
                mid.holes() == self.holes() && mid.links() == self.links().remove(p1).insert(p)
                    && mid.catalysts() == next.catalysts() && mid.bond_list() == self.bond_list()
                    && mid.decay() == self.decay() && #[trigger] mid.bond_outcome(p, next)
        }
    }

    /// `next` is `self` after the catalyst at `p` tried to step in direction
    /// `d`: it swaps with a hole, enters substrate (drawing a nearby hole into
    /// its old place if there is one), or displaces a free link; it stays put
    /// before another catalyst, a bonded link or the edge of the field.
    pub open spec fn catalyst_step(&self, p: Pos, d: int, next: &Universe) -> bool {
        let p1 = nb(p, d);
        &&& next.decay() == self.decay()
        &&& !self.catalyst_moves(p, d) ==> next.same_cells(self)
        &&& self.catalyst_moves(p, d) ==> next.catalysts() == self.catalysts().remove(p).insert(p1)
        &&& self.catalyst_moves(p, d) && self.holes().contains(p1) ==> {
            &&& next.holes() == self.holes().remove(p1).insert(p)
            &&& next.links() == self.links()
            &&& next.bond_list() == self.bond_list()
        }
        &&& self.catalyst_moves(p, d) && self.substrate(p1) ==> {
            &&& self.pull_outcome(p1, p, next)
            &&& next.links() == self.links()
            &&& next.bond_list() == self.bond_list()
        }
        &&& self.catalyst_moves(p, d) && self.links().contains(p1) ==> self.displace_outcome(
            p,
            p1,
            next,
        )
    }

    /// Moves the catalyst at `p` one step in a random 4-direction: it swaps
    /// with a hole, displaces a free link, or enters substrate; it stays put
    /// when that cell is another catalyst or a bonded link. Returns where the
    /// catalyst now is.
    fn move_catalyst(&mut self, p: &Pos) -> (r: Pos)
        requires
            old(self).wf(),
            old(self).catalysts().contains(*p),
        ensures
            final(self).wf(),
            final(self).catalysts().contains(r),
            final(self).box_grows_from(old(self)),
            final(self).links().len() == old(self).links().len(),
            final(self).holes().len() == old(self).holes().len(),
            final(self).catalysts().len() == old(self).catalysts().len(),
            exists|d: int|
                0 <= d < 4 && #[trigger] old(self).catalyst_step(*p, d, final(self)) && r
                    == old(self).catalyst_dest(*p, d),
            old(self).enclosed(*p) ==> r == *p && final(self).same_cells(old(self)),
    {
        proof {
            assert(in_field(*p));
        }
        let dir = self.roll(4) as i32;
        let p1 = neighbor(p, dir);
        if !within_field(&p1) {
            proof {
                Universe::lemma_rng_only(self, old(self));
                assert(old(self).catalyst_step(*p, dir as int, self));
            }
            return *p;
        }
        proof {
            assert(0 <= dir < 4 && p1 == nb(*p, dir as int));
        }
        self.expand(&p1);
        let ghost o = *self;
        proof {
            self.lemma_lens();
        }
        if self.is_hole(&p1) {
            self.catalysts.remove(p);
            self.holes.remove(&p1);
            self.holes.insert(*p);
            self.catalysts.insert(p1);
            proof {
                self.lemma_lens();
                assert(self.disjoint());
                assert(self.bonds_valid());
                assert(self.bounded());
                assert(old(self).catalyst_step(*p, dir as int, self));
            }
            p1
        } else if self.is_link(&p1) && !self.is_bonded(&p1) {
            proof {
                Universe::lemma_probes_agree(self, old(self), p1);
                lemma_degree_zero(o.bond_list(), p1);
                o.lemma_unlinked_unbonded(*p);
            }
            let pulled = self.hole_to_pull(&p1);
            match pulled {
                Some(h) => {
                    proof {
                        o.lemma_unlinked_unbonded(h);
                    }
                    self.links.remove(&p1);
                    self.holes.remove(&h);
                    self.links.insert(h);
                    self.holes.insert(*p);
                    self.catalysts.remove(p);
                    self.catalysts.insert(p1);
                    proof {
                        self.lemma_lens();
                        o.lemma_lens();
                        assert(self.disjoint());
                        assert(self.bonds_valid());
                        assert(self.bounded());
                    }
                    let ghost mid = *self;
                    self.bond(&h);
                    proof {
                        assert(mid.bond_outcome(h, self));
                        assert(old(self).displace_outcome(*p, p1, self));
                    }
                },
                None => {
                    self.catalysts.remove(p);
                    self.catalysts.insert(p1);
                    self.links.remove(&p1);
                    self.links.insert(*p);
                    proof {
                        self.lemma_lens();
                        o.lemma_lens();
                        assert(self.disjoint());
                        assert(self.bonds_valid());
                        assert(self.bounded());
                    }
                    let ghost mid = *self;
                    self.bond(p);
                    proof {
                        assert(mid.bond_outcome(*p, self));
                        assert(old(self).displace_outcome(*p, p1, self));
                    }
                },
            }
            proof {
                assert(old(self).catalyst_step(*p, dir as int, self));
            }
            p1
        } else if self.is_substrate(&p1) {
            proof {
                Universe::lemma_probes_agree(self, old(self), p1);
            }
            let pulled = self.hole_to_pull(&p1);
            match pulled {
                Some(h) => {
                    self.holes.remove(&h);
                    self.holes.insert(*p);
                },
                None => {},
            }
            self.catalysts.remove(p);
            self.catalysts.insert(p1);
            proof {
                self.lemma_lens();
                o.lemma_lens();
                assert(self.disjoint());
                assert(self.bonds_valid());
                assert(self.bounded());
                if pulled is Some {
                    assert(old(self).pull_outcome(p1, *p, self));
                }
                assert(old(self).catalyst_step(*p, dir as int, self));
            }
            p1
        } else {
            proof {
                assert(old(self).catalyst_step(*p, dir as int, self));
            }
            *p
        }
    }

    /// `q` is free substrate inside the field.
    pub open spec fn open_cell(&self, q: Pos) -> bool {
        in_field(q) && self.substrate(q)
    }

    /// The catalyst at `p` can produce towards its 4-neighbour `i`: that cell
    /// is open, and so is at least one of the two cells beside it, across
    /// direction `i`.
    pub open spec fn eligible(&self, p: Pos, i: int) -> bool {
        let n = nb(p, i);
        self.open_cell(n) && (self.open_cell(nb(n, side_a(i))) || self.open_cell(nb(n, side_b(i))))
    }

    /// `f` is a cell where production towards direction `i` may put its hole:
    /// an open cell beside `nb(p, i)`, the only one if just one is open.
    pub open spec fn far_choice(&self, p: Pos, i: int, f: Pos) -> bool {
        let n = nb(p, i);
        let fa = nb(n, side_a(i));
        let fb = nb(n, side_b(i));
        &&& f == fa || f == fb
        &&& self.open_cell(f)
        &&& self.open_cell(fa) && !self.open_cell(fb) ==> f == fa
        &&& !self.open_cell(fa) && self.open_cell(fb) ==> f == fb
    }

    /// Picks the far cell for production from the catalyst at `p` towards
    /// direction `i`: whichever of the two cells beside `nb(p, i)` is open,
    /// or one of them at random when both are.
    fn select_neighbor(&mut self, p: &Pos, i: i32) -> (r: Pos)
        requires
            old(self).wf(),
            old(self).catalysts().contains(*p),
            0 <= i < 4,
            old(self).eligible(*p, i as int),
        ensures
            final(self).rng_only(old(self)),
            final(self).same_cells(old(self)),
            final(self).upper_left() == old(self).upper_left(),
            final(self).lower_right() == old(self).lower_right(),
            final(self).wf(),
            old(self).far_choice(*p, i as int, r),
    {
        proof {
            assert(in_field(*p));
        }
        let n = neighbor(p, i);
        let (da, db): (i32, i32) = if i == 1 || i == 3 {
            (0, 2)
        } else {
            (1, 3)
        };
        let fa = neighbor(&n, da);
        let fb = neighbor(&n, db);
        let open_a = within_field(&fa) && self.is_substrate(&fa);
        let open_b = within_field(&fb) && self.is_substrate(&fb);
        if open_a && !open_b {
            fa
        } else if !open_a && open_b {
            fb
        } else if self.roll(2) == 0 {
            fa
        } else {
            fb
        }
    }

    /// `next` is `self` after the catalyst at `p` tried to produce: with no
    /// eligible direction nothing changed; otherwise, for some eligible
    /// direction `i`, `nb(p, i)` became a link, a far cell beside it a hole,
    /// and the new link tried to bond.
    pub open spec fn produce_outcome(&self, p: Pos, next: &Universe) -> bool {
        if forall|i: int| 0 <= i < 4 ==> !#[trigger] self.eligible(p, i) {
            next.same_cells(self)
        } else {
            exists|i: int, f: Pos, mid: Universe|
                #![trigger self.far_choice(p, i, f), mid.bond_outcome(nb(p, i), next)]
                0 <= i < 4 && self.eligible(p, i) && self.far_choice(p, i, f) && mid.links()
                    == self.links().insert(nb(p, i)) && mid.holes() == self.holes().insert(f)
                    && mid.catalysts() == self.catalysts() && mid.bond_list() == self.bond_list()
                    && mid.decay() == self.decay() && mid.bond_outcome(nb(p, i), next)
        }
    }

    /// The catalytic reaction: a random eligible 4-neighbour of the catalyst
    /// at `p` becomes a new link, a cell beside it becomes a new hole, and the
    /// new link tries to bond. Nothing happens if no neighbour is eligible.
    pub fn produce(&mut self, p: &Pos)
        requires
            old(self).wf(),
            old(self).catalysts().contains(*p),
        ensures
            old(self).produce_outcome(*p, final(self)),
            final(self).wf(),
            final(self).catalysts() == old(self).catalysts(),
            final(self).decay() == old(self).decay(),
            final(self).box_grows_from(old(self)),
            (forall|i: int| 0 <= i < 4 ==> !#[trigger] old(self).eligible(*p, i)) ==> final(self).same_cells(old(self)),
            !(forall|i: int| 0 <= i < 4 ==> !#[trigger] old(self).eligible(*p, i)) ==> {
                &&& final(self).links().len() == old(self).links().len() + 1
                &&& final(self).holes().len() == old(self).holes().len() + 1
                &&& exists|i: int, f: Pos|
                    0 <= i < 4 && old(self).eligible(*p, i) && #[trigger] old(self).far_choice(
                        *p,
                        i,
                        f,
                    ) && final(self).links() == old(self).links().insert(nb(*p, i)) && final(self).holes() == old(self).holes().insert(f) && final(self).degree(nb(*p, i)) <= 1
            },
    {
        proof {
            assert(in_field(*p));
        }
        let mut dirs: Vec<i32> = Vec::new();
        let mut i: i32 = 0;
        while i < 4
            invariant
                0 <= i <= 4,
                *self == *old(self),
                in_field(*p),
                forall|k: int| 0 <= k < dirs@.len() ==> 0 <= #[trigger] dirs@[k] < 4 && self.eligible(*p, dirs@[k] as int),
                dirs@.len() == 0 <==> forall|e: int| 0 <= e < i ==> !#[trigger] self.eligible(*p, e),
            decreases 4 - i,
        {
            let n = neighbor(p, i);
            let (da, db): (i32, i32) = if i == 1 || i == 3 {
                (0, 2)
            } else {
                (1, 3)
            };
            let fa = neighbor(&n, da);
            let fb = neighbor(&n, db);
            if within_field(&n) && self.is_substrate(&n) && ((within_field(&fa)
                && self.is_substrate(&fa)) || (within_field(&fb) && self.is_substrate(&fb))) {
                dirs.push(i);
                assert(self.eligible(*p, i as int));
            }
            i = i + 1;
        }
        if dirs.len() == 0 {
            return;
        }
        proof {
            assert(!(forall|e: int| 0 <= e < 4 ==> !#[trigger] old(self).eligible(*p, e))) by {
                assert(old(self).eligible(*p, dirs@[0] as int));
            }
        }
        let k = self.roll(dirs.len());
        let i = dirs[k];
        let n = neighbor(p, i);
        let n1 = self.select_neighbor(p, i);
        proof {
            assert(old(self).eligible(*p, i as int));
            assert(n1 != n);
            old(self).lemma_unlinked_unbonded(n);
            self.lemma_lens();
        }
        self.expand(&n);
        self.expand(&n1);
        self.holes.insert(n1);
        self.links.insert(n);
        proof {
            self.lemma_lens();
            assert(self.disjoint());
            assert(self.bonds_valid());
            assert(self.bounded());
            assert(self.degree(n) == 0);
        }
        let ghost mid = *self;
        self.bond(&n);
        proof {
            assert(mid.bond_outcome(n, self));
            assert(old(self).far_choice(*p, i as int, n1));
            assert(old(self).produce_outcome(*p, self));
            assert(old(self).far_choice(*p, i as int, n1));
            assert(self.degree(n) <= 1);
        }
    }

    /// `next` is `self` after the hole at `p` tried to move in 4-direction `d`.
    pub open spec fn hole_step(&self, p: Pos, d: int, next: &Universe) -> bool {
        let p1 = nb(p, d);
        let n = nb(p1, d);
        &&& next.decay() == self.decay()
        &&& !in_field(p1) ==> next.same_cells(self)
        &&& in_field(p1) && self.links().contains(p1) && self.degree(p1) == 0 ==> exists|mid: Universe|
            mid.links() == self.links().remove(p1).insert(p) && mid.holes() == self.holes().remove(
                p,
            ).insert(p1) && mid.catalysts() == self.catalysts() && mid.bond_list()
                == self.bond_list() && mid.decay() == self.decay() && #[trigger] mid.bond_outcome(
                p,
                next,
            )
        &&& in_field(p1) && self.catalysts().contains(p1) ==> {
            &&& next.catalysts() == self.catalysts().remove(p1).insert(p)
            &&& next.holes() == self.holes().remove(p).insert(p1)
            &&& next.links() == self.links()
            &&& next.bond_list() == self.bond_list()
        }
        &&& in_field(p1) && self.substrate(p1) ==> {
            &&& next.holes() == self.holes().remove(p).insert(p1)
            &&& next.links() == self.links()
            &&& next.catalysts() == self.catalysts()
            &&& next.bond_list() == self.bond_list()
        }
        &&& in_field(p1) && self.links().contains(p1) && self.degree(p1) > 0 ==> {
            &&& next.holes() == if self.open_cell(n) {
                self.holes().remove(p).insert(n)
            } else {
                self.holes()
            }
            &&& next.links() == self.links()
            &&& next.catalysts() == self.catalysts()
            &&& next.bond_list() == self.bond_list()
        }
    }

    /// One tick for the hole at `p`: it moves one step in a random
    /// 4-direction, swapping with a free link or a catalyst, entering
    /// substrate, or tunnelling through a bonded link into substrate beyond.
    fn update_hole(&mut self, p: &Pos)
        requires
            old(self).wf(),
            old(self).holes().contains(*p),
        ensures
            final(self).wf(),
            final(self).decay() == old(self).decay(),
            final(self).box_grows_from(old(self)),
            final(self).links().len() == old(self).links().len(),
            final(self).holes().len() == old(self).holes().len(),
            final(self).catalysts().len() == old(self).catalysts().len(),
            exists|d: int| 0 <= d < 4 && #[trigger] old(self).hole_step(*p, d, final(self)),
    {
        proof {
            assert(in_field(*p));
        }
        let dir = self.roll(4) as i32;
        let p1 = neighbor(p, dir);
        if !within_field(&p1) {
            proof {
                assert(old(self).hole_step(*p, dir as int, self));
            }
            return;
        }
        self.expand(&p1);
        let ghost o = *self;
        proof {
            self.lemma_lens();
            o.lemma_unlinked_unbonded(*p);
        }
        if self.is_link(&p1) && !self.is_bonded(&p1) {
            self.links.remove(&p1);
            self.links.insert(*p);
            self.holes.remove(p);
            self.holes.insert(p1);
            proof {
                lemma_degree_zero(o.bond_list(), p1);
                self.lemma_lens();
                assert(self.disjoint());
                assert(self.bonds_valid());
                assert(self.bounded());
            }
            let ghost mid = *self;
            self.bond(p);
            proof {
                assert(mid.bond_outcome(*p, self));
            }
        } else if self.is_catalyst(&p1) {
            self.catalysts.remove(&p1);
            self.catalysts.insert(*p);
            self.holes.remove(p);
            self.holes.insert(p1);
            proof {
                self.lemma_lens();
                assert(self.disjoint());
                assert(self.bonds_valid());
                assert(self.bounded());
            }
        } else if self.is_substrate(&p1) {
            self.holes.remove(p);
            self.holes.insert(p1);
            proof {
                self.lemma_lens();
                assert(self.disjoint());
                assert(self.bonds_valid());
                assert(self.bounded());
            }
        } else if self.is_link(&p1) {
            let n = neighbor(&p1, dir);
            if within_field(&n) && self.is_substrate(&n) {
                self.expand(&n);
                self.holes.remove(p);
                self.holes.insert(n);
                proof {
                    self.lemma_lens();
                    assert(self.disjoint());
                    assert(self.bonds_valid());
                    assert(self.bounded());
                }
            }
        }
        proof {
            assert(old(self).hole_step(*p, dir as int, self));
        }
    }

    /// `next` is `self` after one tick on the cell at index `i` of the population.
    pub open spec fn tick_at(&self, i: int, next: &Universe) -> bool {
        let p = self.population()[i];
        &&& next.wf()
        &&& next.decay() == self.decay()
        &&& next.box_grows_from(self)
        &&& next.catalysts().len() == self.catalysts().len()
        &&& self.catalysts().contains(p) && self.enclosed(p) ==> next.same_cells(self)
        &&& self.catalysts().contains(p) ==> exists|d: int, mid: Universe|
            0 <= d < 4 && #[trigger] self.catalyst_step(p, d, &mid) && mid.produce_outcome(
                self.catalyst_dest(p, d),
                next,
            )
        &&& self.links().contains(p) ==> self.decays_to(p, next) || self.steps_link(p, next)
        &&& self.holes().contains(p) ==> exists|d: int|
            0 <= d < 4 && #[trigger] self.hole_step(p, d, next)
    }

    /// A tick's outcome does not depend on the random source it started from.
    proof fn lemma_tick_rng(a: &Universe, b: &Universe, i: int, next: &Universe)
        requires
            a.rng_only(b),
            0 <= i < a.population().len(),
            a.tick_at(i, next),
        ensures
            b.tick_at(i, next),
    {
        Universe::lemma_rng_only(a, b);
        assert(a.population() == b.population());
        let p = a.population()[i];
        Universe::lemma_cells_agree(a, b, p);
        if a.links().contains(p) && a.decays_to(p, next) {
            let h = choose|h: Pos| a.decay_target(p, h) && next.holes() == a.holes().remove(h);
            assert(b.decay_target(p, h));
        }
        if a.holes().contains(p) {
            let d = choose|d: int| 0 <= d < 4 && #[trigger] a.hole_step(p, d, next);
            assert(b.hole_step(p, d, next));
        }
        if a.catalysts().contains(p) && b.enclosed(p) {
            assert(a.enclosed(p));
        }
        if a.catalysts().contains(p) {
            let (d, mid) = choose|d: int, mid: Universe|
                0 <= d < 4 && #[trigger] a.catalyst_step(p, d, &mid) && mid.produce_outcome(
                    a.catalyst_dest(p, d),
                    next,
                );
            assert(b.catalyst_step(p, d, &mid));
        }
    }

    /// The cell that index `i` selects among holes, then links, then catalysts.
    pub fn entity_at(&self, i: usize) -> (r: Pos)
        requires
            self.wf(),
            i < self.population().len(),
        ensures
            r == self.population()[i as int],
            self.holes().contains(r) || self.links().contains(r) || self.catalysts().contains(r),
    {
        let nh = self.holes.len();
        let nl = self.links.len();
        if i < nh {
            self.holes.get(i)
        } else if i - nh < nl {
            self.links.get(i - nh)
        } else {
            self.catalysts.get(i - nh - nl)
        }
    }

    /// One tick on the cell that index `i` selects (see `entity_at`): a
    /// catalyst moves and then produces, a link decays or moves and bonds, a
    /// hole diffuses.
    pub fn update_at(&mut self, i: usize)
        requires
            old(self).wf(),
            i < old(self).population().len(),
        ensures
            final(self).wf(),
            final(self).decay() == old(self).decay(),
            final(self).box_grows_from(old(self)),
            final(self).catalysts().len() == old(self).catalysts().len(),
            old(self).tick_at(i as int, final(self)),
    {
        let p = self.entity_at(i);
        proof {
            self.lemma_lens();
        }
        if self.is_catalyst(&p) {
            let ghost enclosed = self.enclosed(p);
            let q = self.move_catalyst(&p);
            let ghost s1 = *self;
            proof {
                if enclosed {
                    assert forall|d: int| 0 <= d < 4 implies !#[trigger] s1.eligible(p, d) by {
                        assert(old(self).catalysts().contains(nb(p, d)) || old(self).links().contains(nb(p, d)));
                    }
                }
            }
            self.produce(&q);
            proof {
                if q == p {
                    assert(self.catalysts() =~= old(self).catalysts().remove(p).insert(p));
                }
                assert(self.catalysts() == old(self).catalysts().remove(p).insert(q));
            }
        } else if self.is_link(&p) {
            self.update_link(&p);
        } else {
            self.update_hole(&p);
        }
    }

    /// One tick: a cell is drawn uniformly among all holes, links and
    /// catalysts, and updated by `update_at`. An empty universe stays as it is.
    pub fn update(&mut self)
        requires
            old(self).wf(),
        ensures
            final(self).wf(),
            final(self).disjoint(),
            final(self).balanced(),
            final(self).bonds_valid(),
            final(self).bounded(),
            final(self).decay() == old(self).decay(),
            final(self).box_grows_from(old(self)),
            final(self).catalysts().len() == old(self).catalysts().len(),
            old(self).population().len() == 0 ==> final(self).same_cells(old(self)),
            0 < old(self).population().len() <= usize::MAX ==> exists|i: int|
                0 <= i < old(self).population().len() && #[trigger] old(self).tick_at(i, final(self)),
    {
        let nh = self.num_holes();
        let nl = self.num_links();
        let nc = self.num_catalysts();
        proof {
            self.lemma_lens();
        }
        if nl > usize::MAX - nh || nc > usize::MAX - nh - nl {
            // A population beyond `usize` cannot be indexed; leave the universe as it is.
            return;
        }
        let total = nh + nl + nc;
        if total == 0 {
            return;
        }
        let ghost s0 = *self;
        let i = self.roll(total);
        let ghost s1 = *self;
        self.update_at(i);
        proof {
            assert(s0.population() == s1.population()) by {
                Universe::lemma_rng_only(&s1, &s0);
            }
            Universe::lemma_tick_rng(&s1, &s0, i as int, self);
        }
    }

    /// `q` lies in the rectangle from `top_left` to `top_left + size`, bounds included.
    pub open spec fn in_window(q: Pos, top_left: Pos, size: Pos) -> bool {
        top_left.x <= q.x <= top_left.x + size.x && top_left.y <= q.y <= top_left.y + size.y
    }

    /// The members of `cells` inside the window, keeping only links with
    /// exactly `bonds` bonds when `bonds` is given.
    fn cells_in(&self, cells: &PosSet, top_left: &Pos, size: &Pos, bonds: Option<usize>) -> (r: Vec<Pos>)
        requires
            cells.wf(),
        ensures
            r@.no_duplicates(),
            forall|q: Pos|
                #[trigger] r@.contains(q) <==> cells@.contains(q) && Universe::in_window(q, *top_left, *size)
                    && (bonds matches Some(k) ==> self.degree(q) == k),
    {
        let bx: i64 = top_left.x as i64 + size.x as i64;
        let by: i64 = top_left.y as i64 + size.y as i64;
        let mut r: Vec<Pos> = Vec::new();
        let mut j: usize = 0;
        while j < cells.len()
            invariant
                j <= cells.seq().len(),
                cells.wf(),
                r@.no_duplicates(),
                bx == top_left.x + size.x,
                by == top_left.y + size.y,
                forall|q: Pos|
                    #[trigger] r@.contains(q) <==> cells.seq().take(j as int).contains(q)
                        && Universe::in_window(q, *top_left, *size) && (bonds matches Some(k)
                        ==> self.degree(q) == k),
            decreases cells.seq().len() - j,
        {
            let q = cells.get(j);
            proof {
                assert(cells.seq().take(j + 1) =~= cells.seq().take(j as int).push(q));
            }
            let inside = top_left.x <= q.x && q.x as i64 <= bx && top_left.y <= q.y && q.y as i64 <= by;
            let wanted = match bonds {
                Some(k) => self.num_bonds(&q) == k,
                None => true,
            };
            let ghost r0 = r@;
            let ghost t0 = cells.seq().take(j as int);
            proof {
                if r0.contains(q) {
                    let k = choose|k: int| 0 <= k < t0.len() && t0[k] == q;
                    assert(cells.seq()[k] == cells.seq()[j as int]);
                }
            }
            if inside && wanted {
                r.push(q);
            }
            proof {
                assert forall|z: Pos| #[trigger] r@.contains(z) <==> (r0.contains(z) || (inside
                    && wanted && z == q)) by {
                    if inside && wanted {
                        assert(r@ == r0.push(q));
                        if r@.contains(z) {
                            let k = choose|k: int| 0 <= k < r@.len() && r@[k] == z;
                            if k < r0.len() {
                                assert(r0[k] == z);
                            }
                        }
                        if r0.contains(z) {
                            let k = choose|k: int| 0 <= k < r0.len() && r0[k] == z;
                            assert(r@[k] == z);
                        }
                        assert(r@[r0.len() as int] == q);
                    }
                }
                assert forall|z: Pos| #[trigger] cells.seq().take(j + 1).contains(z) <==> (
                t0.contains(z) || z == q) by {
                    let t1 = cells.seq().take(j + 1);
                    assert(t1 == t0.push(q));
                    if t1.contains(z) {
                        let k = choose|k: int| 0 <= k < t1.len() && t1[k] == z;
                        if k < t0.len() {
                            assert(t0[k] == z);
                        }
                    }
                    if t0.contains(z) {
                        let k = choose|k: int| 0 <= k < t0.len() && t0[k] == z;
                        assert(t1[k] == z);
                    }
                    assert(t1[t0.len() as int] == q);
                }
            }
            j = j + 1;
        }
        proof {
            assert(cells.seq().take(j as int) =~= cells.seq());
        }
        r
    }

    /// The catalysts in the rectangle from `top_left` to `top_left + size`, bounds included.
    pub fn get_catalysts_in(&self, top_left: &Pos, size: &Pos) -> (r: Vec<Pos>)
        requires
            self.wf(),
        ensures
            r@.no_duplicates(),
            forall|q: Pos|
                #[trigger] r@.contains(q) <==> self.catalysts().contains(q) && Universe::in_window(q, *top_left, *size),
    {
        self.cells_in(&self.catalysts, top_left, size, None)
    }

    /// The holes in the rectangle from `top_left` to `top_left + size`, bounds included.
    pub fn get_holes_in(&self, top_left: &Pos, size: &Pos) -> (r: Vec<Pos>)
        requires
            self.wf(),
        ensures
            r@.no_duplicates(),
            forall|q: Pos|
                #[trigger] r@.contains(q) <==> self.holes().contains(q) && Universe::in_window(q, *top_left, *size),
    {
        self.cells_in(&self.holes, top_left, size, None)
    }

    /// The links without bonds in the rectangle from `top_left` to `top_left + size`.
    pub fn get_free_links_in(&self, top_left: &Pos, size: &Pos) -> (r: Vec<Pos>)
        requires
            self.wf(),
        ensures
            r@.no_duplicates(),
            forall|q: Pos|
                #[trigger] r@.contains(q) <==> self.links().contains(q) && Universe::in_window(q, *top_left, *size)
                    && self.degree(q) == 0,
    {
        self.cells_in(&self.links, top_left, size, Some(0))
    }

    /// The links with one bond in the rectangle from `top_left` to `top_left + size`.
    pub fn get_single_bonded_links_in(&self, top_left: &Pos, size: &Pos) -> (r: Vec<Pos>)
        requires
            self.wf(),
        ensures
            r@.no_duplicates(),
            forall|q: Pos|
                #[trigger] r@.contains(q) <==> self.links().contains(q) && Universe::in_window(q, *top_left, *size)
                    && self.degree(q) == 1,
    {
        self.cells_in(&self.links, top_left, size, Some(1))
    }

    /// The links with two bonds in the rectangle from `top_left` to `top_left + size`.
    pub fn get_double_bonded_links_in(&self, top_left: &Pos, size: &Pos) -> (r: Vec<Pos>)
        requires
            self.wf(),
        ensures
            r@.no_duplicates(),
            forall|q: Pos|
                #[trigger] r@.contains(q) <==> self.links().contains(q) && Universe::in_window(q, *top_left, *size)
                    && self.degree(q) == 2,
    {
        self.cells_in(&self.links, top_left, size, Some(2))
    }

    /// A universe of `catalysts` catalysts at distinct random cells of
    /// `[0, w) × [0, h)`, with no holes, links or bonds, and the bounding box
    /// `(0, 0)`–`(w, h)`. `decay_rate` is in parts of `DECAY_SCALE`; `seed`
    /// fixes every random choice the universe will make.
    pub fn new(w: i32, h: i32, decay_rate: u32, catalysts: usize, seed: u64) -> (r: Result<
        Universe,
        SetupError,
    >)
        requires
            w <= FIELD_LIMIT,
            h <= FIELD_LIMIT,
            decay_rate <= DECAY_SCALE,
        ensures
            r is Err <==> catalysts > seed_cells(w, h),
            r matches Err(e) ==> e == SetupError::TooManyCatalysts,
            r matches Ok(u) ==> {
                &&& u.wf()
                &&& u.holes() == Set::<Pos>::empty()
                &&& u.links() == Set::<Pos>::empty()
                &&& u.bond_list() == Seq::<Bond>::empty()
                &&& u.catalysts().len() == catalysts
                &&& forall|q: Pos| #[trigger] u.catalysts().contains(q) ==> rect(w as int, h as int).contains(q)
                &&& u.decay() == decay_rate
                &&& u.upper_left() == Pos { x: 0, y: 0 }
                &&& u.lower_right() == Pos { x: w, y: h }
            },
    {
        let cw: u64 = if w > 0 {
            w as u64
        } else {
            0
        };
        let ch: u64 = if h > 0 {
            h as u64
        } else {
            0
        };
        assert(cw * ch <= 1_000_000_000 * 1_000_000_000) by (nonlinear_arith)
            requires
                cw <= 1_000_000_000,
                ch <= 1_000_000_000,
        ;
        let cells: u64 = cw * ch;
        if catalysts as u128 > cells as u128 {
            return Err(SetupError::TooManyCatalysts);
        }
        let mut rng = seeded_rng(seed);
        let mut cats = PosSet::new();
        while cats.len() < catalysts
            invariant
                cats.wf(),
                cats.seq().len() <= catalysts <= cw * ch,
                cw == (if w > 0 {
                    w as int
                } else {
                    0
                }),
                ch == (if h > 0 {
                    h as int
                } else {
                    0
                }),
                cw * ch == seed_cells(w, h),
                cw <= FIELD_LIMIT,
                ch <= FIELD_LIMIT,
                forall|q: Pos| #[trigger] cats@.contains(q) ==> rect(w as int, h as int).contains(q),
            decreases catalysts - cats.seq().len(),
        {
            assert(cw > 0 && ch > 0) by (nonlinear_arith)
                requires
                    cw * ch > 0,
                    cw >= 0,
                    ch >= 0,
            ;
            let mut found: Option<Pos> = None;
            let mut tries: u32 = 0;
            while tries < 64 && found.is_none()
                invariant
                    0 < cw <= FIELD_LIMIT,
                    0 < ch <= FIELD_LIMIT,
                    cw == w && ch == h,
                    found matches Some(p) ==> rect(w as int, h as int).contains(p) && !cats@.contains(p),
                decreases 64 - tries,
            {
                let x = draw_below(&mut rng, cw);
                let y = draw_below(&mut rng, ch);
                let p = pos(x as i32, y as i32);
                if !cats.contains(&p) {
                    found = Some(p);
                }
                tries = tries + 1;
            }
            let p = match found {
                Some(p) => p,
                None => {
                    proof {
                        cats.lemma_len();
                    }
                    first_free(&cats, w, h)
                },
            };
            cats.insert(p);
        }
        proof {
            cats.lemma_len();
        }
        let u = Universe {
            holes: PosSet::new(),
            catalysts: cats,
            links: PosSet::new(),
            bonds: Ledger::new(),
            decay_rate: decay_rate,
            upper_left: pos(0, 0),
            lower_right: pos(w, h),
            rng: rng,
        };
        proof {
            assert(u.bonds_valid());
            assert(u.bounded());
        }
        Ok(u)
    }
}

/// The cells of the seed rectangle `[0, w) × [0, h)`.
pub open spec fn rect(w: int, h: int) -> Set<Pos> {
    Set::new(|q: Pos| 0 <= q.x < w && 0 <= q.y < h)
}

/// The cells of row `y` of the seed rectangle of width `w`.
pub open spec fn row(w: int, y: int) -> Set<Pos> {
    Set::new(|q: Pos| 0 <= q.x < w && q.y == y)
}

/// Number of cells in the seed rectangle of a `w` by `h` universe.
pub open spec fn seed_cells(w: i32, h: i32) -> int {
    (if w > 0 {
        w as int
    } else {
        0
    }) * (if h > 0 {
        h as int
    } else {
        0
    })
}

/// A row of the seed rectangle has `w` cells.
proof fn lemma_row_len(w: int, y: int)
    requires
        0 <= w <= FIELD_LIMIT,
        0 <= y <= FIELD_LIMIT,
    ensures
        row(w, y).finite(),
        row(w, y).len() == w,
    decreases w,
{
    if w == 0 {
        assert(row(w, y) =~= Set::<Pos>::empty());
    } else {
        lemma_row_len(w - 1, y);
        let q = Pos { x: (w - 1) as i32, y: y as i32 };
        assert(row(w, y) =~= row(w - 1, y).insert(q));
    }
}

/// The seed rectangle has `w * h` cells.
proof fn lemma_rect_len(w: int, h: int)
    requires
        0 <= w <= FIELD_LIMIT,
        0 <= h <= FIELD_LIMIT,
    ensures
        rect(w, h).finite(),
        rect(w, h).len() == w * h,
    decreases h,
{
    if h == 0 {
        assert(rect(w, h) =~= Set::<Pos>::empty());
    } else {
        lemma_rect_len(w, h - 1);
        lemma_row_len(w, h - 1);
        assert(rect(w, h) =~= rect(w, h - 1).union(row(w, h - 1)));
        assert(rect(w, h - 1).disjoint(row(w, h - 1)));
        vstd::set_lib::lemma_set_disjoint_lens(rect(w, h - 1), row(w, h - 1));
        assert(w * h == w * (h - 1) + w) by (nonlinear_arith);
    }
}

/// The first cell of the seed rectangle, in row order, that `taken` does not hold.
fn first_free(taken: &PosSet, w: i32, h: i32) -> (r: Pos)
    requires
        taken.wf(),
        0 < w <= FIELD_LIMIT,
        0 < h <= FIELD_LIMIT,
        taken.seq().len() < w * h,
        forall|q: Pos| #[trigger] taken@.contains(q) ==> rect(w as int, h as int).contains(q),
    ensures
        rect(w as int, h as int).contains(r),
        !taken@.contains(r),
{
    let mut y: i32 = 0;
    while y < h
        invariant
            0 <= y <= h,
            0 < w <= FIELD_LIMIT,
            0 < h <= FIELD_LIMIT,
            taken.wf(),
            taken.seq().len() < w * h,
            forall|q: Pos| #[trigger] rect(w as int, h as int).contains(q) && q.y < y ==> taken@.contains(q),
        decreases h - y,
    {
        let mut x: i32 = 0;
        while x < w
            invariant
                0 <= x <= w,
                0 <= y < h,
                0 < w <= FIELD_LIMIT,
                0 < h <= FIELD_LIMIT,
                forall|q: Pos|
                    #[trigger] rect(w as int, h as int).contains(q) && (q.y < y || (q.y == y && q.x < x))
                        ==> taken@.contains(q),
            decreases w - x,
        {
            let p = pos(x, y);
            if !taken.contains(&p) {
                return p;
            }
            x = x + 1;
        }
        y = y + 1;
    }
    proof {
        lemma_rect_len(w as int, h as int);
        taken.lemma_len();
        assert(rect(w as int, h as int).subset_of(taken@));
        vstd::set_lib::lemma_len_subset(rect(w as int, h as int), taken@);
    }
    pos(0, 0)
}

} // verus!
