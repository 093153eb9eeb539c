//! The radix trie: a binary trie whose branchings test one bit each, with an
//! escape leaf at every branching.
use vstd::prelude::*;
use vstd::arithmetic::power2::pow2;
use crate::prefix::cover::{agree, coverage, IpPrefixCoverage, IpPrefixCovering};
use crate::prefix::{IpPrefix, IpRootPrefix};
use crate::prefix::slot::BitSlot;
use crate::trie::common::{
    vec_shrink_to_fit, BranchingIndex, Leaf, LeafIndex, NodeIndex, TrieLeaves, INDEX_MAX,
};

verus! {

/// A branching of the radix trie: it tests the bit at position `bit`.
#[derive(Debug, Copy, Clone)]
pub struct Branching {
    /// The leaf to fall back on when nothing below this branching covers a query.
    pub escape: LeafIndex,
    /// The branching above this one; the root is its own parent.
    pub parent: BranchingIndex,
    /// The node to go to for a bit that is clear, and for a bit that is set.
    pub child: [NodeIndex; 2],
    /// The position of the bit that is tested.
    pub bit: u8,
}

impl Branching {
    /// The child on the side of the tested bit of `slot`.
    pub fn child<B: BitSlot>(&self, slot: &B) -> (r: NodeIndex)
        ensures
            r == self.child[if slot.bit(self.bit as int) { 1int } else { 0int }],
    {
        if slot.is_set(self.bit) {
            self.child[1]
        } else {
            self.child[0]
        }
    }

    /// The child on the side of the tested bit of `slot`, to be replaced.
    pub fn child_mut<B: BitSlot>(&mut self, slot: &B) -> (r: &mut NodeIndex)
        ensures
            *r == old(self).child[if slot.bit(old(self).bit as int) { 1int } else { 0int }],
            final(self).escape == old(self).escape,
            final(self).parent == old(self).parent,
            final(self).bit == old(self).bit,
            final(self).child@ == old(self).child@.update(
                if slot.bit(old(self).bit as int) { 1int } else { 0int },
                *final(r),
            ),
    {
        if slot.is_set(self.bit) {
            &mut self.child[1]
        } else {
            &mut self.child[0]
        }
    }
}

/// The arena of branchings of a radix trie over slots of type `S`.
///
/// Beside the branchings it records, for the proofs only, the prefixes of the
/// leaves that it refers to, the bits that lead to each branching, and the
/// branching at which each leaf hangs.
pub struct BranchingTree<S: BitSlot> {
    pub nodes: Vec<Branching>,
    /// For each branching, a slot whose first `bit - 1` bits lead to it.
    pub paths: Ghost<Seq<S>>,
    /// For each leaf, the slot and the length of its prefix.
    pub pfx: Ghost<Seq<(S, u8)>>,
    /// For each leaf, the branching at which it hangs.
    pub home: Ghost<Seq<int>>,
}

impl<S: BitSlot> BranchingTree<S> {
    pub open spec fn len(&self) -> int {
        self.nodes@.len() as int
    }

    pub open spec fn bit(&self, i: int) -> int {
        self.nodes@[i].bit as int
    }

    pub open spec fn par(&self, i: int) -> int {
        self.nodes@[i].parent.0 as int
    }

    pub open spec fn esc(&self, i: int) -> int {
        self.nodes@[i].escape.idx()
    }

    pub open spec fn kid(&self, i: int, k: int) -> NodeIndex {
        self.nodes@[i].child@[k]
    }

    /// The side of branching `i` on which the slot `s` falls.
    pub open spec fn side<B: BitSlot>(&self, i: int, s: B) -> int {
        if s.bit(self.bit(i)) {
            1
        } else {
            0
        }
    }

    /// The child of branching `i` on the side of `s`.
    pub open spec fn next<B: BitSlot>(&self, i: int, s: B) -> NodeIndex {
        self.kid(i, self.side(i, s))
    }

    pub open spec fn plen(&self, j: int) -> int {
        self.pfx@[j].1 as int
    }

    pub open spec fn pslot(&self, j: int) -> S {
        self.pfx@[j].0
    }

    pub open spec fn path(&self, i: int) -> S {
        self.paths@[i]
    }

    /// What holds of the child `k` of branching `i`: a branching below has `i`
    /// as its parent and lies on side `k`; a leaf is the escape of `i`, which
    /// then is one bit shorter than `i` tests, or a leaf that reaches to the
    /// tested bit, follows the path to `i` and has `k` there.
    pub open spec fn kid_ok(&self, i: int, k: int) -> bool {
        let c = self.kid(i, k).0 as int;
        if c >= 0 {
            &&& 0 < c < self.len()
            &&& self.par(c) == i
            &&& self.side(i, self.path(c)) == k
        } else {
            let j = -1 - c;
            &&& j < self.pfx@.len()
            &&& if j == self.esc(i) {
                self.bit(i) == self.plen(j) + 1
            } else {
                &&& self.plen(j) >= self.bit(i)
                &&& agree(self.pslot(j), self.path(i), self.bit(i) - 1)
                &&& self.pslot(j).bit(self.bit(i)) == (k == 1)
                &&& self.home@[j] == i
            }
        }
    }

    /// What holds of branching `i`.
    pub open spec fn node_ok(&self, i: int) -> bool {
        let b = self.nodes@[i];
        let p = self.par(i);
        let e = self.esc(i);
        &&& 1 <= b.bit <= S::width()
        &&& 0 <= e < self.pfx@.len()
        &&& 0 <= p < self.len()
        &&& (i == 0 ==> b.bit == 1 && p == 0 && e == 0)
        &&& (i > 0 ==> {
            &&& self.bit(p) < b.bit
            &&& self.next(p, self.path(i)) == NodeIndex(i as i32)
            &&& agree(self.path(i), self.path(p), self.bit(p) - 1)
            &&& (e == self.esc(p) || b.bit == self.plen(e) + 1)
        })
        &&& self.kid_ok(i, 0)
        &&& self.kid_ok(i, 1)
        &&& self.plen(e) < b.bit
        &&& agree(self.pslot(e), self.path(i), self.plen(e))
    }

    /// What holds of leaf `j`: it is the escape of its home, which tests the
    /// bit after its length, or a child of its home that is not the escape.
    pub open spec fn leaf_ok(&self, j: int) -> bool {
        let h = self.home@[j];
        &&& 0 <= h < self.len()
        &&& self.plen(j) <= S::width()
        &&& ((self.esc(h) == j && self.bit(h) == self.plen(j) + 1) || (self.next(
            h,
            self.pslot(j),
        ) == NodeIndex((-1 - j) as i32) && j != self.esc(h)))
    }

    /// Two leaves denote the same range.
    pub open spec fn same_range(&self, j1: int, j2: int) -> bool {
        self.plen(j1) == self.plen(j2) && agree(self.pslot(j1), self.pslot(j2), self.plen(j1))
    }

    /// The invariant of the arena, as far as the branchings go.
    pub open spec fn nodes_inv(&self) -> bool {
        &&& 1 <= self.len() <= INDEX_MAX
        &&& self.paths@.len() == self.len()
        &&& 1 <= self.pfx@.len() <= INDEX_MAX + 1
        &&& self.home@.len() == self.pfx@.len()
        &&& self.plen(0) == 0
        &&& forall|i: int| 0 <= i < self.len() ==> #[trigger] self.node_ok(i)
    }

    /// Branching `i` holds something else than its escape on one side at least.
    pub open spec fn sided(&self, i: int) -> bool {
        self.kid(i, 0).0 != -1 - self.esc(i) || self.kid(i, 1).0 != -1 - self.esc(i)
    }

    /// The invariant of the arena.  But for the root, no branching holds its
    /// escape on both sides.
    pub open spec fn inv(&self) -> bool {
        &&& self.nodes_inv()
        &&& forall|i: int| 0 < i < self.len() ==> #[trigger] self.sided(i)
        &&& forall|j: int| 0 <= j < self.pfx@.len() ==> #[trigger] self.leaf_ok(j)
        &&& forall|j1: int, j2: int|
            0 <= j1 < j2 < self.pfx@.len() ==> !#[trigger] self.same_range(j1, j2)
    }

    /// The part of `kid_ok` that does not depend on what the leaves hold.
    pub open spec fn kid_shape(&self, i: int, k: int) -> bool {
        let c = self.kid(i, k).0 as int;
        if c >= 0 {
            &&& 0 < c < self.len()
            &&& self.par(c) == i
            &&& self.side(i, self.path(c)) == k
        } else {
            -1 - c < self.pfx@.len()
        }
    }

    /// The part of `node_ok` that does not depend on what the leaves hold.
    pub open spec fn shape_ok(&self, i: int) -> bool {
        let b = self.nodes@[i];
        let p = self.par(i);
        &&& 1 <= b.bit <= S::width()
        &&& 0 <= self.esc(i) < self.pfx@.len()
        &&& 0 <= p < self.len()
        &&& (i == 0 ==> b.bit == 1 && p == 0)
        &&& (i > 0 ==> {
            &&& self.bit(p) < b.bit
            &&& self.next(p, self.path(i)) == NodeIndex(i as i32)
            &&& agree(self.path(i), self.path(p), self.bit(p) - 1)
        })
        &&& self.kid_shape(i, 0)
        &&& self.kid_shape(i, 1)
    }

    /// The shape of the arena: every index is in bounds, parents and children
    /// fit together, and the tested positions grow on the way down.
    pub open spec fn shape(&self) -> bool {
        &&& 1 <= self.len() <= INDEX_MAX
        &&& self.paths@.len() == self.len()
        &&& 1 <= self.pfx@.len() <= INDEX_MAX + 1
        &&& self.home@.len() == self.pfx@.len()
        &&& forall|i: int| 0 <= i < self.len() ==> #[trigger] self.shape_ok(i)
    }

    /// The invariant gives the shape.
    pub proof fn lemma_inv_shape(&self)
        requires
            self.nodes_inv(),
        ensures
            self.shape(),
    {
        assert forall|i: int| 0 <= i < self.len() implies #[trigger] self.shape_ok(i) by {
            assert(self.node_ok(i));
            assert(self.kid_ok(i, 0));
            assert(self.kid_ok(i, 1));
        }
    }

    /// The other arena has the same branchings as to parents and tested bits.
    pub open spec fn same_skeleton(&self, other: &Self) -> bool {
        &&& self.len() == other.len()
        &&& forall|i: int|
            0 <= i < self.len() ==> self.nodes@[i].parent == (#[trigger] other.nodes@[i]).parent
                && self.nodes@[i].bit == other.nodes@[i].bit
    }

    /// Branching `i` lies in the zone of `n` for the escape `l1`: it is `n`, or
    /// it has the escape `l1` and its parent lies in the zone.
    pub open spec fn in_zone(&self, n: int, l1: int, i: int) -> bool
        decreases self.bit(i),
    {
        if i == n {
            true
        } else if 0 < i < self.len() && 0 <= self.par(i) < self.len() && self.bit(self.par(i))
            < self.bit(i) {
            self.esc(i) == l1 && self.in_zone(n, l1, self.par(i))
        } else {
            false
        }
    }

    /// The zone of a branching lies below it.
    pub proof fn lemma_zone_below(&self, n: int, l1: int, i: int)
        requires
            self.in_zone(n, l1, i),
        ensures
            i == n || self.above(n, i),
        decreases self.bit(i),
    {
        if i != n {
            self.lemma_zone_below(n, l1, self.par(i));
        }
    }

    /// What lies above a branching is the same in two arenas of the same skeleton.
    pub proof fn lemma_above_skeleton(&self, other: &Self, a: int, b: int)
        requires
            self.same_skeleton(other),
        ensures
            self.above(a, b) == other.above(a, b),
        decreases self.bit(b),
    {
        if 0 < b < self.len() {
            assert(self.nodes@[b].parent == other.nodes@[b].parent);
            let p = self.par(b);
            if 0 <= p < self.len() {
                assert(self.nodes@[p].bit == other.nodes@[p].bit);
                if self.bit(p) < self.bit(b) {
                    self.lemma_above_skeleton(other, a, p);
                }
            }
        }
    }

    /// Below a branching, the paths follow the path to it.
    pub proof fn lemma_below_agrees(&self, c: int, m: int)
        requires
            self.shape(),
            0 <= m < self.len(),
            self.above(c, m),
        ensures
            0 <= c < self.len(),
            self.bit(c) < self.bit(m),
            agree(self.path(m), self.path(c), self.bit(c) - 1),
        decreases self.bit(m),
    {
        assert(self.shape_ok(m));
        let p = self.par(m);
        assert(self.shape_ok(p));
        if p != c {
            self.lemma_below_agrees(c, p);
        }
    }

    /// Nothing lies below both children of a branching.
    pub proof fn lemma_children_apart(&self, n: int, m: int)
        requires
            self.shape(),
            0 <= n < self.len(),
            0 <= m < self.len(),
            self.kid(n, 0).0 >= 0,
            self.kid(n, 1).0 >= 0,
        ensures
            !(self.upward(self.kid(n, 0).0 as int, m) && self.upward(self.kid(n, 1).0 as int, m)),
    {
        let c0 = self.kid(n, 0).0 as int;
        let c1 = self.kid(n, 1).0 as int;
        assert(self.shape_ok(n));
        assert(self.kid_shape(n, 0));
        assert(self.kid_shape(n, 1));
        assert(self.shape_ok(c0));
        assert(self.shape_ok(c1));
        if self.upward(c0, m) && self.upward(c1, m) {
            if m != c0 {
                self.lemma_below_agrees(c0, m);
            }
            if m != c1 {
                self.lemma_below_agrees(c1, m);
            }
            assert(self.path(m).bit(self.bit(n)) == self.path(c0).bit(self.bit(n)));
            assert(self.path(m).bit(self.bit(n)) == self.path(c1).bit(self.bit(n)));
        }
    }

    /// A zone is the same in two arenas of the same skeleton whose escapes are
    /// the same from the top of the zone downwards.
    pub proof fn lemma_zone_frame(&self, other: &Self, c: int, l1: int, i: int)
        requires
            self.same_skeleton(other),
            forall|m: int|
                0 <= m < self.len() && self.upward(c, m) ==> self.nodes@[m].escape == (
                #[trigger] other.nodes@[m]).escape,
        ensures
            self.in_zone(c, l1, i) == other.in_zone(c, l1, i),
        decreases self.bit(i),
    {
        if i != c && 0 < i < self.len() {
            assert(self.nodes@[i].parent == other.nodes@[i].parent);
            let p = self.par(i);
            if 0 <= p < self.len() {
                assert(self.nodes@[p].bit == other.nodes@[p].bit);
                if self.bit(p) < self.bit(i) {
                    self.lemma_zone_frame(other, c, l1, p);
                    if self.in_zone(c, l1, p) {
                        self.lemma_zone_below(c, l1, p);
                        assert(self.above(c, i));
                        assert(self.nodes@[i].escape == other.nodes@[i].escape);
                    }
                }
            }
        }
    }

    /// The zone of a branching, but for the branching itself, is made of the
    /// zones of its children that have the escape `l1`.
    pub proof fn lemma_zone_split(&self, n: int, l1: int, i: int)
        requires
            self.shape(),
            0 <= n < self.len(),
            0 <= i < self.len(),
            i != n,
        ensures
            self.in_zone(n, l1, i) <==> (self.zone_of_kid(n, 0, l1, i) || self.zone_of_kid(
                n,
                1,
                l1,
                i,
            )),
        decreases self.bit(i),
    {
        assert(self.shape_ok(i));
        assert(self.shape_ok(n));
        assert(self.kid_shape(n, 0));
        assert(self.kid_shape(n, 1));
        if i != 0 {
            let p = self.par(i);
            assert(self.shape_ok(p));
            if p == n {
                let k = self.side(n, self.path(i));
                assert(self.kid(n, k) == NodeIndex(i as i32));
                assert(self.in_zone(n, l1, n));
                assert(self.in_zone(i, l1, i));
                assert(self.in_zone(n, l1, i) == (self.esc(i) == l1));
                assert(self.zone_of_kid(n, k, l1, i) == (self.esc(i) == l1));
                self.lemma_kid_not_below(n, 1 - k, l1, i);
            } else {
                self.lemma_zone_split(n, l1, p);
                assert(self.in_zone(n, l1, i) == (self.esc(i) == l1 && self.in_zone(n, l1, p)));
                assert(self.kid(n, 0).0 != i);
                assert(self.kid(n, 1).0 != i);
                if self.kid(n, 0).0 >= 0 {
                    let c = self.kid(n, 0).0 as int;
                    assert(self.in_zone(c, l1, i) == (self.esc(i) == l1 && self.in_zone(c, l1, p)));
                }
                if self.kid(n, 1).0 >= 0 {
                    let c = self.kid(n, 1).0 as int;
                    assert(self.in_zone(c, l1, i) == (self.esc(i) == l1 && self.in_zone(c, l1, p)));
                }
            }
        } else {
            assert(!self.in_zone(n, l1, i));
            if self.kid(n, 0).0 >= 0 {
                assert(!self.in_zone(self.kid(n, 0).0 as int, l1, i));
            }
            if self.kid(n, 1).0 >= 0 {
                assert(!self.in_zone(self.kid(n, 1).0 as int, l1, i));
            }
        }
    }

    /// A child of `n` on the side on which `i` does not lie has not `i` in its zone.
    pub proof fn lemma_kid_not_below(&self, n: int, k: int, l1: int, i: int)
        requires
            self.shape(),
            0 <= n < self.len(),
            0 < i < self.len(),
            self.par(i) == n,
            0 <= k <= 1,
            k != self.side(n, self.path(i)),
        ensures
            !self.zone_of_kid(n, k, l1, i),
    {
        assert(self.shape_ok(i));
        assert(self.shape_ok(n));
        assert(self.kid_shape(n, k));
        let c = self.kid(n, k).0 as int;
        if c >= 0 && self.in_zone(c, l1, i) {
            assert(self.shape_ok(c));
            self.lemma_zone_below(c, l1, i);
            if c != i {
                assert(self.above(c, i));
                if n != c {
                    assert(self.above(c, n));
                    self.lemma_below_agrees(c, n);
                }
                assert(false);
            }
        }
    }

    /// Branching `i` lies in the zone of child `k` of `n`, which has the escape `l1`.
    pub open spec fn zone_of_kid(&self, n: int, k: int, l1: int, i: int) -> bool {
        let c = self.kid(n, k).0 as int;
        c >= 0 && self.esc(c) == l1 && self.in_zone(c, l1, i)
    }

    /// Branching `i` lies on the way down for the slot `s`.
    pub open spec fn on_trail<B: BitSlot>(&self, s: B, i: int) -> bool
        decreases self.bit(i),
    {
        if i == 0 {
            true
        } else if 0 < i < self.len() && 0 <= self.par(i) < self.len() && self.bit(self.par(i))
            < self.bit(i) {
            self.on_trail(s, self.par(i)) && self.next(self.par(i), s) == NodeIndex(i as i32)
        } else {
            false
        }
    }

    /// Branching `a` lies above branching `b`.
    pub open spec fn above(&self, a: int, b: int) -> bool
        decreases self.bit(b),
    {
        if 0 < b < self.len() && 0 <= self.par(b) < self.len() && self.bit(self.par(b)) < self.bit(
            b,
        ) {
            self.par(b) == a || self.above(a, self.par(b))
        } else {
            false
        }
    }

    /// A branching lies below every branching above it, and the root lies above all others.
    pub proof fn lemma_above(&self, a: int, b: int)
        requires
            self.nodes_inv(),
            0 <= b < self.len(),
        ensures
            self.above(a, b) ==> 0 <= a < self.len() && self.bit(a) < self.bit(b),
            b != 0 && a == 0 ==> self.above(a, b),
        decreases self.bit(b),
    {
        assert(self.node_ok(b));
        if b != 0 {
            assert(self.node_ok(self.par(b)));
            self.lemma_above(a, self.par(b));
        }
    }

    /// A branching that lies on the way down for `s` is reached through its parent.
    pub proof fn lemma_trail_up<B: BitSlot>(&self, s: B, i: int)
        requires
            self.nodes_inv(),
            0 < i < self.len(),
            self.on_trail(s, i),
        ensures
            self.on_trail(s, self.par(i)),
            self.next(self.par(i), s) == NodeIndex(i as i32),
    {
    }

    /// Two branchings on the way down for `s` are the same, or one lies above the other.
    pub proof fn lemma_trail_linear<B: BitSlot>(&self, s: B, a: int, b: int)
        requires
            self.nodes_inv(),
            0 <= a < self.len(),
            0 <= b < self.len(),
            self.on_trail(s, a),
            self.on_trail(s, b),
        ensures
            a == b || self.above(a, b) || self.above(b, a),
        decreases self.bit(a) + self.bit(b),
    {
        assert(self.node_ok(a));
        assert(self.node_ok(b));
        if a == b {
        } else if a == 0 {
            self.lemma_above(a, b);
        } else if b == 0 {
            self.lemma_above(b, a);
        } else {
            let pa = self.par(a);
            let pb = self.par(b);
            assert(self.node_ok(pa));
            assert(self.node_ok(pb));
            self.lemma_trail_linear(s, pa, pb);
            if pa == pb {
                assert(false);
            } else if self.above(pa, pb) {
                self.lemma_trail_linear(s, a, pb);
                if self.above(pb, a) {
                    // pb lies above a, whose parent pa lies above pb
                    self.lemma_above(pa, pb);
                    if pb != pa {
                        self.lemma_above(pb, pa);
                    }
                }
            } else {
                self.lemma_trail_linear(s, pa, b);
                if self.above(pa, b) {
                } else if pa == b {
                } else {
                    self.lemma_above(pb, pa);
                    self.lemma_above(b, pa);
                    if b != pb {
                    }
                }
            }
        }
    }

    /// A branching whose path the slot `s` follows lies on the way down for `s`.
    pub proof fn lemma_trail_of_path<B: BitSlot>(&self, s: B, i: int)
        requires
            self.nodes_inv(),
            0 <= i < self.len(),
            agree(s, self.path(i), self.bit(i) - 1),
        ensures
            self.on_trail(s, i),
        decreases self.bit(i),
    {
        assert(self.node_ok(i));
        if i != 0 {
            let p = self.par(i);
            assert(self.node_ok(p));
            self.lemma_trail_of_path(s, p);
            assert(s.bit(self.bit(p)) == self.path(i).bit(self.bit(p)));
        }
    }

    /// What lies above a branching on the way down for `s` lies on that way too.
    pub proof fn lemma_trail_above<B: BitSlot>(&self, s: B, a: int, b: int)
        requires
            self.nodes_inv(),
            0 <= b < self.len(),
            self.on_trail(s, b),
            self.above(a, b),
        ensures
            self.on_trail(s, a),
            self.above(a, self.par(b)) || a == self.par(b),
        decreases self.bit(b),
    {
        assert(self.node_ok(b));
        if self.par(b) != a {
            self.lemma_trail_above(s, a, self.par(b));
        }
    }

    /// Below a branching on the way down for `s`, the way goes on through a branching.
    pub proof fn lemma_trail_goes_on<B: BitSlot>(&self, s: B, a: int, b: int)
        requires
            self.nodes_inv(),
            0 <= b < self.len(),
            self.on_trail(s, b),
            self.above(a, b),
        ensures
            self.next(a, s).0 >= 0,
            self.bit(self.next(a, s).0 as int) <= self.bit(b),
        decreases self.bit(b),
    {
        assert(self.node_ok(b));
        if self.par(b) != a {
            self.lemma_trail_goes_on(s, a, self.par(b));
            self.lemma_above(a, self.par(b));
        }
    }

    /// What lies above the parent of a branching lies above the branching.
    pub proof fn lemma_above_step(&self, a: int, b: int)
        requires
            self.nodes_inv(),
            0 < b < self.len(),
            self.above(a, self.par(b)) || a == self.par(b),
        ensures
            self.above(a, b),
    {
        assert(self.node_ok(b));
    }

    /// Going down, the escapes do not get shorter.
    pub proof fn lemma_escape_grows(&self, a: int, b: int)
        requires
            self.nodes_inv(),
            0 <= b < self.len(),
            self.above(a, b),
        ensures
            self.plen(self.esc(a)) <= self.plen(self.esc(b)),
        decreases self.bit(b),
    {
        assert(self.node_ok(b));
        let p = self.par(b);
        assert(self.node_ok(p));
        if p != a {
            self.lemma_escape_grows(a, p);
        }
    }

    /// Leaf `j` covers the range that starts with the first `lq` bits of `s`.
    pub open spec fn covered<B: BitSlot>(&self, j: int, s: B, lq: int) -> bool {
        self.plen(j) <= lq && agree(self.pslot(j), s, self.plen(j))
    }

    /// Branching `m` is `n0` or lies above it.
    pub open spec fn upward(&self, m: int, n0: int) -> bool {
        m == n0 || self.above(m, n0)
    }

    /// The walk from the deepest candidate `n0` upwards has come to branching
    /// `n` with leaf `l`, and no leaf passed on the way covers the range of `s` and `lq`.
    pub open spec fn walked<B: BitSlot>(&self, s: B, lq: int, n0: int, n: int, l: int) -> bool {
        let deepest = -1 - self.next(n0, s).0;
        &&& 0 <= n0 < self.len()
        &&& self.on_trail(s, n0)
        &&& self.next(n0, s).0 < 0
        &&& self.upward(n, n0)
        &&& (l == deepest && l != self.esc(n0) && n == n0) || {
            &&& l == self.esc(n)
            &&& (deepest != self.esc(n0) ==> !self.covered(deepest, s, lq))
            &&& forall|m: int|
                self.upward(m, n0) && self.bit(m) > self.bit(n) ==> !self.covered(
                    #[trigger] self.esc(m),
                    s,
                    lq,
                ) || self.esc(m) == l
        }
    }

    /// The leaf at which the walk stops is the longest that covers the range.
    pub proof fn lemma_lookup_max<B: BitSlot>(&self, s: B, lq: int, n0: int, n: int, l: int, j: int)
        requires
            self.nodes_inv(),
            self.walked(s, lq, n0, n, l),
            0 <= l < self.pfx@.len(),
            self.covered(l, s, lq),
            0 <= j < self.pfx@.len(),
            self.leaf_ok(j),
            self.covered(j, s, lq),
        ensures
            self.plen(j) <= self.plen(l),
    {
        let h = self.home@[j];
        let deepest = -1 - self.next(n0, s).0;
        assert(self.leaf_ok(j));
        assert(self.node_ok(h));
        assert(self.node_ok(n0));
        self.lemma_above(n, n0);
        assert(self.node_ok(n));
        if self.esc(h) == j && self.bit(h) == self.plen(j) + 1 {
            self.lemma_trail_of_path(s, h);
            self.lemma_trail_linear(s, h, n0);
            if self.above(n0, h) {
                self.lemma_trail_goes_on(s, n0, h);
                assert(false);
            }
            assert(self.upward(h, n0));
            if l == deepest && l != self.esc(n0) && n == n0 {
                assert(self.kid_ok(n0, self.side(n0, s)));
                self.lemma_above(h, n0);
            } else {
                if self.bit(h) > self.bit(n) {
                    assert(!self.covered(self.esc(h), s, lq) || self.esc(h) == l);
                } else {
                    if n != n0 {
                        self.lemma_trail_above(s, n, n0);
                    }
                    self.lemma_trail_linear(s, h, n);
                    if self.above(n, h) {
                        self.lemma_above(n, h);
                        assert(false);
                    }
                    if self.above(h, n) {
                        self.lemma_escape_grows(h, n);
                    }
                }
            }
        } else {
            let k = self.side(h, self.pslot(j));
            assert(self.kid_ok(h, k));
            self.lemma_trail_of_path(s, h);
            assert(self.next(h, s) == self.next(h, self.pslot(j)));
            self.lemma_trail_linear(s, h, n0);
            if self.above(n0, h) {
                self.lemma_trail_goes_on(s, n0, h);
                assert(false);
            }
            if self.above(h, n0) {
                self.lemma_trail_goes_on(s, h, n0);
                assert(false);
            }
            assert(h == n0);
            assert(deepest == j);
        }
    }

    /// One step of the walk upwards: from a branching whose escape does not
    /// cover the range to its parent.
    pub proof fn lemma_walk_step<B: BitSlot>(&self, s: B, lq: int, n0: int, n: int)
        requires
            self.nodes_inv(),
            self.walked(s, lq, n0, n, self.esc(n)),
            !(self.esc(n) == -1 - self.next(n0, s).0 && self.esc(n) != self.esc(n0) && n == n0),
            !self.covered(self.esc(n), s, lq),
            n != 0,
        ensures
            self.walked(s, lq, n0, self.par(n), self.esc(self.par(n))),
            0 <= self.par(n) < self.len(),
            self.bit(self.par(n)) < self.bit(n),
    {
        let p = self.par(n);
        assert(self.upward(n, n0));
        assert(0 <= n0 < self.len());
        self.lemma_above(n, n0);
        assert(0 <= n < self.len());
        assert(self.node_ok(n));
        assert(self.node_ok(p));
        assert(self.node_ok(n0));
        if n == n0 {
        } else {
            self.lemma_trail_above(s, n, n0);
            self.lemma_above_walk(p, n, n0);
        }
        assert(self.upward(p, n0));
        if n != n0 {
            self.lemma_trail_above(s, n, n0);
        }
        assert(self.on_trail(s, n));
        assert forall|m: int| self.upward(m, n0) && self.bit(m) > self.bit(p) implies !self.covered(
            #[trigger] self.esc(m),
            s,
            lq,
        ) by {
            if self.bit(m) <= self.bit(n) {
                self.lemma_above(m, n0);
                if m != n0 {
                    self.lemma_trail_above(s, m, n0);
                }
                self.lemma_trail_linear(s, m, n);
                if self.above(m, n) {
                    self.lemma_trail_above(s, m, n);
                    self.lemma_above(m, p);
                }
                if self.above(n, m) {
                    self.lemma_above(n, m);
                }
                assert(m == n);
            }
        }
        let deepest = -1 - self.next(n0, s).0;
        assert(self.kid_ok(n0, self.side(n0, s)));
        if p == n0 {
            self.lemma_above(n, n0);
        }
    }

    /// The parent of what lies above a branching lies above it too.
    pub proof fn lemma_above_walk(&self, p: int, n: int, n0: int)
        requires
            self.nodes_inv(),
            0 <= n0 < self.len(),
            self.above(n, n0),
            n != 0,
            p == self.par(n),
        ensures
            self.above(p, n0),
        decreases self.bit(n0),
    {
        self.lemma_above(n, n0);
        assert(self.node_ok(n0));
        assert(self.node_ok(n));
        if self.par(n0) == n {
            assert(self.above(p, n));
            self.lemma_above_step(p, n0);
        } else {
            self.lemma_above_walk(p, n, self.par(n0));
            self.lemma_above_step(p, n0);
        }
    }

    /// The arena of a trie that holds the root leaf only: one branching, the
    /// root, which tests the first bit and has the root leaf on both sides.
    pub fn new(capacity: usize) -> (r: Self)
        ensures
            r.inv(),
            r.counted(0),
            r.len() == 1,
            r.pfx@.len() == 1,
    {
        let mut nodes = Vec::with_capacity(capacity);
        nodes.push(
            Branching {
                escape: LeafIndex::root_leaf(),
                parent: BranchingIndex::root(),
                child: [NodeIndex::root_leaf(), NodeIndex::root_leaf()],
                bit: 1,
            },
        );
        let ghost slot: S = arbitrary();
        let ghost paths0 = Seq::<S>::empty().push(slot);
        let ghost pfx0 = Seq::<(S, u8)>::empty().push((slot, 0u8));
        let ghost home0 = Seq::<int>::empty().push(0int);
        let paths: Ghost<Seq<S>> = Ghost(paths0);
        let pfx: Ghost<Seq<(S, u8)>> = Ghost(pfx0);
        let home: Ghost<Seq<int>> = Ghost(home0);
        let r = Self { nodes, paths, pfx, home };
        proof {
            S::lemma_bit_range(slot, 0);
            assert(r.kid_ok(0, 0));
            assert(r.kid_ok(0, 1));
            assert(r.node_ok(0));
            assert(r.leaf_ok(0));
            assert(r.credits(1) == r.credits(0) + r.credit(0));
        }
        r
    }

    /// The slot recorded for a leaf can be any slot with the same first bits,
    /// as many as the leaf is long.
    pub proof fn lemma_reslot(&self, t: &Self, l: int, slot: S)
        requires
            self.inv(),
            0 <= l < self.pfx@.len(),
            agree(slot, self.pslot(l), self.plen(l)),
            t.nodes == self.nodes,
            t.paths == self.paths,
            t.home == self.home,
            t.pfx@ == self.pfx@.update(l, (slot, self.pfx@[l].1)),
        ensures
            t.inv(),
            self.counted(0) ==> t.counted(0),
    {
        if self.counted(0) {
            self.lemma_counted_same(t, 0);
        }
        assert forall|i: int| 0 <= i < t.len() implies #[trigger] t.node_ok(i) by {
            assert(self.node_ok(i));
            assert(self.kid_ok(i, 0));
            assert(self.kid_ok(i, 1));
            assert(t.kid_ok(i, 0));
            assert(t.kid_ok(i, 1));
        }
        assert forall|j: int| 0 <= j < t.pfx@.len() implies #[trigger] t.leaf_ok(j) by {
            assert(self.leaf_ok(j));
            let h = self.home@[j];
            assert(self.node_ok(h));
            assert(self.kid_ok(h, self.side(h, self.pslot(j))));
        }
        assert forall|i: int| 0 < i < t.len() implies #[trigger] t.sided(i) by {
            if i < self.len() {
                assert(self.sided(i));
                assert(self.node_ok(i));
                assert(self.kid_ok(i, 0));
                assert(self.kid_ok(i, 1));
            }
            assert(t.node_ok(i));
            assert(t.kid_ok(i, 0));
            assert(t.kid_ok(i, 1));
        }
        assert forall|j1: int, j2: int| 0 <= j1 < j2 < t.pfx@.len() implies !#[trigger] t.same_range(
            j1,
            j2,
        ) by {
            assert(!self.same_range(j1, j2));
        }
    }

    /// The number of branchings.
    pub fn count(&self) -> (r: usize)
        ensures
            r == self.len(),
    {
        self.nodes.len()
    }

    /// The branching at `i`.
    pub fn at(&self, i: BranchingIndex) -> (r: &Branching)
        requires
            0 <= i.0 < self.len(),
        ensures
            *r == self.nodes@[i.0 as int],
    {
        &self.nodes[i.index()]
    }

    /// Branching `b2` is `b1` with the escape `l2`, and with `l2` for each child
    /// that was the leaf `l1`.
    pub open spec fn is_repl(b2: Branching, b1: Branching, l1: LeafIndex, l2: LeafIndex) -> bool {
        &&& b2.escape == l2
        &&& b2.parent == b1.parent
        &&& b2.bit == b1.bit
        &&& b2.child@[0] == Self::swapped(b1.child@[0], l1, l2)
        &&& b2.child@[1] == Self::swapped(b1.child@[1], l1, l2)
    }

    /// The node `c`, or the leaf `l2` where `c` is the leaf `l1`.
    pub open spec fn swapped(c: NodeIndex, l1: LeafIndex, l2: LeafIndex) -> NodeIndex {
        if c.0 == l1.0 {
            NodeIndex(l2.0)
        } else {
            c
        }
    }

    /// The arena is `before` but for the zone of `n` for `l1`, where `l2` stands for `l1`.
    pub open spec fn replaced_from(&self, before: &Self, n: int, l1: LeafIndex, l2: LeafIndex) -> bool {
        &&& before.same_skeleton(self)
        &&& self.paths == before.paths
        &&& self.pfx == before.pfx
        &&& self.home == before.home
        &&& self.zone_swapped(before, n, l1, l2)
    }

    /// The branchings are those of `before` but for the zone of `n` for `l1`,
    /// where `l2` stands for `l1`.
    pub open spec fn zone_swapped(&self, before: &Self, n: int, l1: LeafIndex, l2: LeafIndex) -> bool {
        &&& self.len() == before.len()
        &&& forall|i: int|
            0 <= i < self.len() ==> if before.in_zone(n, l1.idx(), i) {
                Self::is_repl(#[trigger] self.nodes@[i], before.nodes@[i], l1, l2)
            } else {
                self.nodes@[i] == before.nodes@[i]
            }
    }

    /// Puts the leaf `l2` in the place of `l1` as the escape of `n` and of the
    /// branchings below it that share that escape, down to the first
    /// branching with another escape; children that were the leaf `l1` become `l2`.
    pub fn replace_escape_leaf(&mut self, n: BranchingIndex, l1: LeafIndex, l2: LeafIndex)
        requires
            old(self).shape(),
            0 <= n.0 < old(self).len(),
            old(self).esc(n.0 as int) == l1.idx(),
            l2.0 < 0,
            l2.idx() < old(self).pfx@.len(),
        ensures
            final(self).shape(),
            final(self).replaced_from(old(self), n.0 as int, l1, l2),
        decreases 256 - old(self).bit(n.0 as int),
    {
        let ghost t0 = *self;
        let ghost ni = n.0 as int;
        proof {
            assert(t0.shape_ok(ni));
            assert(t0.kid_shape(ni, 0));
            assert(t0.kid_shape(ni, 1));
        }
        let b = self.nodes[n.index()];
        let c0 = b.child[0];
        let c1 = b.child[1];
        let nc0 = if c0.0 == l1.0 {
            NodeIndex::of_leaf(l2)
        } else {
            c0
        };
        let nc1 = if c1.0 == l1.0 {
            NodeIndex::of_leaf(l2)
        } else {
            c1
        };
        self.nodes.set(
            n.index(),
            Branching { escape: l2, parent: b.parent, child: [nc0, nc1], bit: b.bit },
        );
        let ghost t1 = *self;
        proof {
            assert(t0.same_skeleton(&t1));
            assert forall|i: int| 0 <= i < t1.len() implies #[trigger] t1.shape_ok(i) by {
                assert(t0.shape_ok(i));
                assert(t0.kid_shape(i, 0));
                assert(t0.kid_shape(i, 1));
                assert(t1.kid_shape(i, 0));
                assert(t1.kid_shape(i, 1));
            }
            assert(Self::is_repl(t1.nodes@[ni], t0.nodes@[ni], l1, l2));
        }
        let mut went0 = false;
        if c0.is_branching() {
            if self.nodes[c0.as_branching().index()].escape.0 == l1.0 {
                proof {
                    assert(t1.shape_ok(c0.0 as int));
                }
                self.replace_escape_leaf(c0.as_branching(), l1, l2);
                went0 = true;
            }
        }
        let ghost t2 = *self;
        proof {
            assert(t0.same_skeleton(&t2));
            assert(t1.same_skeleton(&t2));
        }
        let mut went1 = false;
        if c1.is_branching() {
            proof {
                assert(t2.shape_ok(c1.0 as int));
                if went0 {
                    if t1.in_zone(c0.0 as int, l1.idx(), c1.0 as int) {
                        t1.lemma_zone_below(c0.0 as int, l1.idx(), c1.0 as int);
                        t1.lemma_children_apart(ni, c1.0 as int);
                    }
                }
                assert(t2.nodes@[c1.0 as int] == t0.nodes@[c1.0 as int]);
            }
            if self.nodes[c1.as_branching().index()].escape.0 == l1.0 {
                self.replace_escape_leaf(c1.as_branching(), l1, l2);
                went1 = true;
            }
        }
        proof {
            let t3 = *self;
            assert(t0.same_skeleton(&t3));
            assert forall|i: int| 0 <= i < t3.len() implies if t0.in_zone(ni, l1.idx(), i) {
                Self::is_repl(#[trigger] t3.nodes@[i], t0.nodes@[i], l1, l2)
            } else {
                t3.nodes@[i] == t0.nodes@[i]
            } by {
                let z = l1.idx();
                // the zones of the children are those of the arena as it was
                if c0.0 >= 0 {
                    assert forall|m: int|
                        0 <= m < t0.len() && t0.upward(c0.0 as int, m) implies t0.nodes@[m].escape
                        == (#[trigger] t1.nodes@[m]).escape by {
                        assert(t0.shape_ok(c0.0 as int));
                        if m != c0.0 {
                            t0.lemma_below_agrees(c0.0 as int, m);
                        }
                        assert(m != ni);
                    }
                    t0.lemma_zone_frame(&t1, c0.0 as int, z, i);
                }
                if c1.0 >= 0 {
                    assert forall|m: int|
                        0 <= m < t0.len() && t0.upward(c1.0 as int, m) implies t0.nodes@[m].escape
                        == (#[trigger] t2.nodes@[m]).escape by {
                        assert(t0.shape_ok(c1.0 as int));
                        if m != c1.0 {
                            t0.lemma_below_agrees(c1.0 as int, m);
                        }
                        assert(m != ni);
                        if went0 {
                            if t1.in_zone(c0.0 as int, z, m) {
                                t1.lemma_zone_below(c0.0 as int, z, m);
                                t0.lemma_above_skeleton(&t1, c0.0 as int, m);
                                t0.lemma_children_apart(ni, m);
                            }
                        }
                    }
                    t0.lemma_zone_frame(&t2, c1.0 as int, z, i);
                }
                if i == ni {
                    if went0 {
                        if t1.in_zone(c0.0 as int, z, i) {
                            t1.lemma_zone_below(c0.0 as int, z, i);
                            t1.lemma_below_agrees(c0.0 as int, i);
                        }
                    }
                    if went1 {
                        if t2.in_zone(c1.0 as int, z, i) {
                            t2.lemma_zone_below(c1.0 as int, z, i);
                            t2.lemma_below_agrees(c1.0 as int, i);
                        }
                    }
                } else {
                    t0.lemma_zone_split(ni, z, i);
                    if c0.0 >= 0 && c1.0 >= 0 {
                        t0.lemma_children_apart(ni, i);
                        if t0.in_zone(c0.0 as int, z, i) {
                            t0.lemma_zone_below(c0.0 as int, z, i);
                        }
                        if t0.in_zone(c1.0 as int, z, i) {
                            t0.lemma_zone_below(c1.0 as int, z, i);
                        }
                    }
                }
            }
        }
    }

    /// Appends a branching whose two children are its escape, and returns its index.
    pub fn push(&mut self, parent: BranchingIndex, escape: LeafIndex, bit: u8) -> (r:
        BranchingIndex)
        requires
            old(self).len() < INDEX_MAX,
            old(self).paths@.len() == old(self).len(),
        ensures
            r.0 == old(self).len(),
            final(self).len() == old(self).len() + 1,
            final(self).nodes@ == old(self).nodes@.push(final(self).nodes@[r.0 as int]),
            final(self).nodes@[r.0 as int].escape == escape,
            final(self).nodes@[r.0 as int].parent == parent,
            final(self).nodes@[r.0 as int].bit == bit,
            final(self).nodes@[r.0 as int].child@[0] == NodeIndex(escape.0),
            final(self).nodes@[r.0 as int].child@[1] == NodeIndex(escape.0),
            final(self).paths@.len() == final(self).len(),
            final(self).paths@.drop_last() == old(self).paths@,
            final(self).pfx == old(self).pfx,
            final(self).home == old(self).home,
    {
        let index = BranchingIndex::from_index(self.nodes.len());
        self.nodes.push(
            Branching {
                escape,
                parent,
                child: [NodeIndex::of_leaf(escape), NodeIndex::of_leaf(escape)],
                bit,
            },
        );
        proof {
            let ghost some: S = arbitrary();
            self.paths = Ghost(self.paths@.push(some));
            assert(self.paths@.drop_last() =~= old(self).paths@);
        }
        index
    }

    /// The node `b2` is `b1` but for the child on side `k`, which is `x`.
    pub open spec fn with_kid(b2: Branching, b1: Branching, k: int, x: NodeIndex) -> bool {
        &&& b2.escape == b1.escape
        &&& b2.parent == b1.parent
        &&& b2.bit == b1.bit
        &&& b2.child@[k] == x
        &&& b2.child@[1 - k] == b1.child@[1 - k]
    }

    /// The node `b2` is `b1` but for the parent, which is `p`.
    pub open spec fn with_parent(b2: Branching, b1: Branching, p: int) -> bool {
        &&& b2.escape == b1.escape
        &&& b2.parent.0 == p
        &&& b2.bit == b1.bit
        &&& b2.child == b1.child
    }

    /// The arena is `before` with one more branching, set between `n` and the
    /// child `x` that `n` had on the side of `slot`: the new branching tests
    /// the bit at `p`, has the escape `e`, `x` on the side of `slot` and `e`
    /// on the other side.
    pub open spec fn linked_from(
        &self,
        before: &Self,
        n: int,
        e: LeafIndex,
        x: NodeIndex,
        p: u8,
        slot: S,
    ) -> bool {
        let nn = before.len();
        let kp = if slot.bit(p as int) { 1int } else { 0int };
        &&& self.len() == before.len() + 1
        &&& self.paths@ == before.paths@.push(slot)
        &&& self.pfx == before.pfx
        &&& self.home@.len() == before.home@.len()
        &&& self.nodes@[nn].escape == e
        &&& self.nodes@[nn].parent.0 == n
        &&& self.nodes@[nn].bit == p
        &&& self.nodes@[nn].child@[kp] == x
        &&& self.nodes@[nn].child@[1 - kp] == NodeIndex(e.0)
        &&& Self::with_kid(
            self.nodes@[n],
            before.nodes@[n],
            before.side(n, slot),
            NodeIndex(nn as i32),
        )
        &&& (x.0 >= 0 ==> Self::with_parent(self.nodes@[x.0 as int], before.nodes@[x.0 as int], nn))
        &&& forall|i: int|
            0 <= i < before.len() && i != n && i != x.0 ==> #[trigger] self.nodes@[i]
                == before.nodes@[i]
    }

    /// Sets a branching that tests the bit at `p` between `n` and the child
    /// `x` that `n` has on the side of `slot`.  The new branching gets the
    /// escape `e`; where `x` is a branching that shares the escape of `n`,
    /// `e` takes the place of that escape from `x` downwards.
    pub fn insert_prefix_branching(
        &mut self,
        n: BranchingIndex,
        e: LeafIndex,
        x: NodeIndex,
        p: u8,
        slot: &S,
    ) -> (r: BranchingIndex)
        requires
            old(self).shape(),
            old(self).len() < INDEX_MAX,
            0 <= n.0 < old(self).len(),
            e.0 < 0,
            e.idx() < old(self).pfx@.len(),
            old(self).bit(n.0 as int) < p <= S::width(),
            agree(*slot, old(self).path(n.0 as int), old(self).bit(n.0 as int) - 1),
            x.0 >= 0 ==> x == old(self).next(n.0 as int, *slot) && old(self).bit(x.0 as int) > p
                && agree(old(self).path(x.0 as int), *slot, p as int),
            x.0 < 0 ==> -1 - x.0 < old(self).pfx@.len() && old(self).next(n.0 as int, *slot).0 < 0,
        ensures
            r.0 == old(self).len(),
            final(self).shape(),
            final(self).home == old(self).home,
            exists|mid: Self|
                {
                    &&& #[trigger] mid.linked_from(old(self), n.0 as int, e, x, p, *slot)
                    &&& mid.shape()
                    &&& if x.0 >= 0 && old(self).esc(x.0 as int) == old(self).esc(n.0 as int)
                        && old(self).esc(n.0 as int) != e.idx() {
                        final(self).replaced_from(
                            &mid,
                            x.0 as int,
                            old(self).nodes@[n.0 as int].escape,
                            e,
                        )
                    } else {
                        *final(self) == mid
                    }
                },
    {
        let ghost t0 = *self;
        let ghost ni = n.0 as int;
        proof {
            assert(t0.shape_ok(ni));
            assert(t0.kid_shape(ni, 0));
            assert(t0.kid_shape(ni, 1));
        }
        let nn = self.push(n, e, p);
        proof {
            self.paths = Ghost(t0.paths@.push(*slot));
        }
        let mut b = self.nodes[nn.index()];
        *b.child_mut(slot) = x;
        self.nodes.set(nn.index(), b);
        if x.is_branching() {
            let xi = x.as_branching();
            let mut bx = self.nodes[xi.index()];
            bx.parent = nn;
            self.nodes.set(xi.index(), bx);
        }
        let old_escape = self.nodes[n.index()].escape;
        let mut bn = self.nodes[n.index()];
        *bn.child_mut(slot) = NodeIndex::of_branching(nn);
        self.nodes.set(n.index(), bn);
        let ghost mid = *self;
        proof {
            assert(mid.linked_from(&t0, ni, e, x, p, *slot));
            t0.lemma_linked_shape(&mid, ni, e, x, p, *slot);
        }
        if x.is_branching() {
            let xe = self.nodes[x.as_branching().index()].escape;
            if xe.0 == old_escape.0 && old_escape.0 != e.0 {
                self.replace_escape_leaf(x.as_branching(), old_escape, e);
            }
        }
        nn
    }

    /// Setting a branching between `n` and its child keeps the shape.
    pub proof fn lemma_linked_shape(
        &self,
        mid: &Self,
        n: int,
        e: LeafIndex,
        x: NodeIndex,
        p: u8,
        slot: S,
    )
        requires
            self.shape(),
            self.len() < INDEX_MAX,
            0 <= n < self.len(),
            e.0 < 0,
            e.idx() < self.pfx@.len(),
            self.bit(n) < p <= S::width(),
            agree(slot, self.path(n), self.bit(n) - 1),
            x.0 >= 0 ==> x == self.next(n, slot) && self.bit(x.0 as int) > p && agree(
                self.path(x.0 as int),
                slot,
                p as int,
            ),
            x.0 < 0 ==> -1 - x.0 < self.pfx@.len() && self.next(n, slot).0 < 0,
            mid.linked_from(self, n, e, x, p, slot),
        ensures
            mid.shape(),
    {
        let nn = self.len();
        assert(self.shape_ok(n));
        assert(self.kid_shape(n, 0));
        assert(self.kid_shape(n, 1));
        assert forall|i: int| 0 <= i < mid.len() implies #[trigger] mid.shape_ok(i) by {
            if i == nn {
                assert(mid.kid_shape(i, 0));
                assert(mid.kid_shape(i, 1));
            } else {
                assert(self.shape_ok(i));
                assert(self.kid_shape(i, 0));
                assert(self.kid_shape(i, 1));
                if i == n {
                    assert(mid.kid_shape(i, 0));
                    assert(mid.kid_shape(i, 1));
                } else if i == x.0 {
                    assert(mid.kid_shape(i, 0));
                    assert(mid.kid_shape(i, 1));
                } else {
                    let pi = self.par(i);
                    assert(self.shape_ok(pi));
                    assert(mid.kid_shape(i, 0));
                    assert(mid.kid_shape(i, 1));
                }
            }
        }
    }

    /// No leaf denotes the range of the first `la` bits of `sa`.
    pub open spec fn fresh(&self, sa: S, la: int) -> bool {
        forall|j: int|
            0 <= j < self.pfx@.len() ==> !(#[trigger] self.plen(j) == la && agree(
                self.pslot(j),
                sa,
                la,
            ))
    }

    /// The arena is `before` but for the branching `n`, whose child on side `k` is `x`.
    pub open spec fn kid_set_from(&self, before: &Self, n: int, k: int, x: NodeIndex) -> bool {
        &&& self.len() == before.len()
        &&& Self::with_kid(self.nodes@[n], before.nodes@[n], k, x)
        &&& forall|i: int|
            0 <= i < before.len() && i != n ==> #[trigger] self.nodes@[i] == before.nodes@[i]
    }

    /// The deepest candidate follows the path to the branching that holds it.
    pub proof fn lemma_deepest_follows(&self, n0: int, k: int)
        requires
            self.nodes_inv(),
            0 <= n0 < self.len(),
            0 <= k <= 1,
            self.kid(n0, k).0 < 0,
        ensures
            agree(self.pslot(-1 - self.kid(n0, k).0), self.path(n0), self.bit(n0) - 1),
            0 <= -1 - self.kid(n0, k).0 < self.pfx@.len(),
    {
        assert(self.node_ok(n0));
        assert(self.kid_ok(n0, k));
    }

    /// A new leaf that the escape of `n` covers, set in the place that `n`
    /// held for its escape on the side of the leaf, keeps the invariant.
    pub proof fn lemma_plug(&self, t: &Self, n: int, sa: S, la: u8)
        requires
            self.inv(),
            self.pfx@.len() <= INDEX_MAX,
            0 <= n < self.len(),
            la <= S::width(),
            self.next(n, sa).0 == -1 - self.esc(n),
            self.plen(self.esc(n)) < la,
            agree(sa, self.pslot(self.esc(n)), self.plen(self.esc(n))),
            self.fresh(sa, la as int),
            t.kid_set_from(self, n, self.side(n, sa), NodeIndex((-1 - self.pfx@.len()) as i32)),
            t.paths == self.paths,
            t.pfx@ == self.pfx@.push((sa, la)),
            t.home@ == self.home@.push(n),
        ensures
            t.inv(),
    {
        let a = self.pfx@.len() as int;
        let k = self.side(n, sa);
        assert(self.node_ok(n));
        assert(self.kid_ok(n, k));
        assert forall|i: int| 0 <= i < t.len() implies #[trigger] t.node_ok(i) by {
            assert(self.node_ok(i));
            assert(self.kid_ok(i, 0));
            assert(self.kid_ok(i, 1));
            if i > 0 {
                assert(self.node_ok(self.par(i)));
            }
            assert(t.kid_ok(i, 0));
            assert(t.kid_ok(i, 1));
        }
        assert forall|j: int| 0 <= j < t.pfx@.len() implies #[trigger] t.leaf_ok(j) by {
            if j < a {
                assert(self.leaf_ok(j));
                let h = self.home@[j];
                assert(self.node_ok(h));
                assert(self.kid_ok(h, self.side(h, self.pslot(j))));
            }
        }
        assert forall|i: int| 0 < i < t.len() implies #[trigger] t.sided(i) by {
            if i < self.len() {
                assert(self.sided(i));
                assert(self.node_ok(i));
                assert(self.kid_ok(i, 0));
                assert(self.kid_ok(i, 1));
            }
            assert(t.node_ok(i));
            assert(t.kid_ok(i, 0));
            assert(t.kid_ok(i, 1));
        }
        assert forall|j1: int, j2: int| 0 <= j1 < j2 < t.pfx@.len() implies !#[trigger] t.same_range(
            j1,
            j2,
        ) by {
            if j2 < a {
                assert(!self.same_range(j1, j2));
            } else {
                assert(self.plen(j1) == t.plen(j1));
            }
        }
    }

    /// The arena is `self` with one more leaf recorded, whose home is not yet known.
    pub open spec fn grown_from(&self, before: &Self, sa: S, la: u8) -> bool {
        &&& self.nodes == before.nodes
        &&& self.paths == before.paths
        &&& self.pfx@ == before.pfx@.push((sa, la))
        &&& self.home@.len() == self.pfx@.len()
    }

    /// Recording one more leaf keeps the shape.
    pub proof fn lemma_grown_shape(&self, t: &Self, sa: S, la: u8)
        requires
            self.shape(),
            self.pfx@.len() <= INDEX_MAX,
            t.grown_from(self, sa, la),
        ensures
            t.shape(),
    {
        assert forall|i: int| 0 <= i < t.len() implies #[trigger] t.shape_ok(i) by {
            assert(self.shape_ok(i));
            assert(self.kid_shape(i, 0));
            assert(self.kid_shape(i, 1));
            assert(t.kid_shape(i, 0));
            assert(t.kid_shape(i, 1));
        }
    }

    /// No branching has for its escape a leaf that hangs at a branching as a child.
    pub proof fn lemma_child_is_no_escape(&self, n: int, k: int, i: int)
        requires
            self.nodes_inv(),
            0 <= n < self.len(),
            0 <= k <= 1,
            0 <= i < self.len(),
            self.kid(n, k).0 < 0,
            -1 - self.kid(n, k).0 != self.esc(n),
        ensures
            self.esc(i) != -1 - self.kid(n, k).0,
        decreases self.bit(i),
    {
        let l = -1 - self.kid(n, k).0;
        assert(self.node_ok(n));
        assert(self.kid_ok(n, k));
        assert(self.node_ok(i));
        if self.esc(i) == l {
            if i == 0 {
                assert(false);
            } else if self.esc(self.par(i)) == l {
                self.lemma_child_is_no_escape(n, k, self.par(i));
            } else {
                let sl = self.pslot(l);
                self.lemma_trail_of_path(sl, i);
                self.lemma_trail_of_path(sl, n);
                self.lemma_trail_linear(sl, i, n);
                if self.above(n, i) {
                    self.lemma_trail_goes_on(sl, n, i);
                }
                if self.above(i, n) {
                    self.lemma_above(i, n);
                }
                assert(false);
            }
        }
    }

    /// A new leaf that the child leaf `l` of `n` covers keeps the invariant
    /// when a branching with the escape `l` takes the place of `l`, and holds
    /// the new leaf on its side.
    pub proof fn lemma_hang(&self, x: &Self, t: &Self, n: int, sa: S, la: u8)
        requires
            self.inv(),
            self.pfx@.len() <= INDEX_MAX,
            self.len() < INDEX_MAX,
            0 <= n < self.len(),
            la <= S::width(),
            self.next(n, sa).0 < 0,
            -1 - self.next(n, sa).0 != self.esc(n),
            self.plen(-1 - self.next(n, sa).0) < la,
            agree(sa, self.pslot(-1 - self.next(n, sa).0), self.plen(-1 - self.next(n, sa).0)),
            self.fresh(sa, la as int),
            x.grown_from(self, sa, la),
            t.linked_from(
                x,
                n,
                LeafIndex(self.next(n, sa).0),
                NodeIndex((-1 - self.pfx@.len()) as i32),
                (self.plen(-1 - self.next(n, sa).0) + 1) as u8,
                sa,
            ),
            t.home@ == self.home@.update(-1 - self.next(n, sa).0, self.len()).push(self.len()),
        ensures
            t.inv(),
    {
        let a = self.pfx@.len() as int;
        let k = self.side(n, sa);
        let l = -1 - self.next(n, sa).0;
        let nn = self.len();
        let ld = self.plen(l);
        assert(self.node_ok(n));
        assert(self.kid_ok(n, k));
        assert(self.kid_ok(n, 1 - k));
        assert(t.pfx@ == self.pfx@.push((sa, la)));
        assert forall|i: int| 0 <= i < t.len() implies #[trigger] t.node_ok(i) by {
            if i == nn {
                assert(t.kid_ok(i, 0));
                assert(t.kid_ok(i, 1));
            } else {
                assert(self.node_ok(i));
                assert(self.kid_ok(i, 0));
                assert(self.kid_ok(i, 1));
                self.lemma_child_is_no_escape(n, k, i);
                if i > 0 {
                    assert(self.node_ok(self.par(i)));
                    self.lemma_child_is_no_escape(n, k, self.par(i));
                }
                assert(t.kid_ok(i, 0));
                assert(t.kid_ok(i, 1));
            }
        }
        assert forall|j: int| 0 <= j < t.pfx@.len() implies #[trigger] t.leaf_ok(j) by {
            if j < a && j != l {
                assert(self.leaf_ok(j));
                let h = self.home@[j];
                assert(self.node_ok(h));
                assert(self.kid_ok(h, self.side(h, self.pslot(j))));
            }
        }
        assert forall|i: int| 0 < i < t.len() implies #[trigger] t.sided(i) by {
            if i < self.len() {
                assert(self.sided(i));
                assert(self.node_ok(i));
                assert(self.kid_ok(i, 0));
                assert(self.kid_ok(i, 1));
            }
            assert(t.node_ok(i));
            assert(t.kid_ok(i, 0));
            assert(t.kid_ok(i, 1));
        }
        assert forall|j1: int, j2: int| 0 <= j1 < j2 < t.pfx@.len() implies !#[trigger] t.same_range(
            j1,
            j2,
        ) by {
            if j2 < a {
                assert(!self.same_range(j1, j2));
            } else {
                assert(self.plen(j1) == t.plen(j1));
            }
        }
    }

    /// The leaf that `x` is, where `x` is a leaf, gets the home `nn`; the new leaf gets `home`.
    pub open spec fn homes_from(&self, before: &Self, x: NodeIndex, nn: int, home: int) -> bool {
        self.home@ == (if x.0 < 0 {
            before.home@.update(-1 - x.0, nn)
        } else {
            before.home@
        }).push(home)
    }

    /// What a climb from the deepest candidate `n0` has come to: the
    /// branching `n` on the way down for `sa`, and the child `x` of `n` on
    /// that way, a branching that tests a bit after `p` or, where `n` is `n0`
    /// itself, the deepest leaf.
    pub open spec fn climbed(&self, sa: S, n0: int, n: int, x: NodeIndex, p: int) -> bool {
        &&& 0 <= n0 < self.len()
        &&& self.on_trail(sa, n0)
        &&& self.next(n0, sa).0 < 0
        &&& self.upward(n, n0)
        &&& x == self.next(n, sa)
        &&& (n == n0 || (x.0 >= 0 && self.upward(x.0 as int, n0) && self.bit(x.0 as int) > p))
    }

    /// The slot of the deepest candidate follows the paths of the branchings
    /// on the way down to it.
    pub proof fn lemma_deepest_on_way(&self, sa: S, n0: int, m: int)
        requires
            self.inv(),
            0 <= n0 < self.len(),
            self.next(n0, sa).0 < 0,
            self.upward(m, n0),
        ensures
            0 <= m < self.len(),
            agree(self.pslot(-1 - self.next(n0, sa).0), self.path(m), self.bit(m) - 1),
    {
        self.lemma_deepest_follows(n0, self.side(n0, sa));
        self.lemma_inv_shape();
        if m != n0 {
            self.lemma_below_agrees(m, n0);
        }
    }

    /// A new leaf parts from the deepest candidate at the bit `pos`, and a
    /// branching that tests `pos` has been set on the way down, with what lay
    /// below on one side and the new leaf on the other: `g` is the arena with
    /// the new leaf recorded, `mid` the arena with the new branching, `t` the
    /// arena with the new leaf as its child.
    pub open spec fn forked(
        &self,
        g: &Self,
        mid: &Self,
        t: &Self,
        n0: int,
        n: int,
        x: NodeIndex,
        sa: S,
        la: u8,
        pos: u8,
    ) -> bool {
        let l = -1 - self.next(n0, sa).0;
        &&& self.inv()
        &&& self.pfx@.len() <= INDEX_MAX
        &&& self.len() < INDEX_MAX
        &&& la <= S::width()
        &&& self.fresh(sa, la as int)
        &&& self.climbed(sa, n0, n, x, pos as int)
        &&& self.bit(n) < pos
        &&& 1 <= pos <= la
        &&& pos <= self.plen(l)
        &&& agree(sa, self.pslot(l), pos - 1)
        &&& sa.bit(pos as int) != self.pslot(l).bit(pos as int)
        &&& g.grown_from(self, sa, la)
        &&& mid.linked_from(g, n, self.nodes@[n].escape, x, pos, self.pslot(l))
        &&& t.kid_set_from(
            mid,
            self.len(),
            if sa.bit(pos as int) { 1int } else { 0int },
            NodeIndex((-1 - self.pfx@.len()) as i32),
        )
        &&& t.paths == mid.paths
        &&& t.pfx == mid.pfx
        &&& t.homes_from(self, x, self.len(), self.len())
    }

    /// What is known at a fork of the branching `n` and of its child `x`.
    pub proof fn lemma_fork_facts(
        &self,
        g: &Self,
        mid: &Self,
        t: &Self,
        n0: int,
        n: int,
        x: NodeIndex,
        sa: S,
        la: u8,
        pos: u8,
    )
        requires
            self.forked(g, mid, t, n0, n, x, sa, la, pos),
        ensures
            0 <= n < self.len(),
            agree(self.pslot(-1 - self.next(n0, sa).0), self.path(n), self.bit(n) - 1),
            self.next(n, self.pslot(-1 - self.next(n0, sa).0)) == x,
            x.0 >= 0 ==> 0 < x.0 < self.len() && self.par(x.0 as int) == n && self.bit(x.0 as int)
                > pos && agree(
                self.pslot(-1 - self.next(n0, sa).0),
                self.path(x.0 as int),
                self.bit(x.0 as int) - 1,
            ),
            x.0 < 0 ==> n == n0 && -1 - x.0 != self.esc(n) && self.home@[-1 - x.0] == n
                && self.plen(-1 - x.0) >= self.bit(n) && 0 <= -1 - x.0 < self.pfx@.len(),
            t.pfx@ == self.pfx@.push((sa, la)),
            t.len() == self.len() + 1,
    {
        let l = -1 - self.next(n0, sa).0;
        let sd = self.pslot(l);
        let k = self.side(n, sa);
        self.lemma_deepest_on_way(sa, n0, n);
        self.lemma_deepest_follows(n0, self.side(n0, sa));
        assert(self.node_ok(n));
        assert(self.node_ok(n0));
        assert(self.kid_ok(n0, self.side(n0, sa)));
        assert(self.kid_ok(n, k));
        assert(sd.bit(self.bit(n)) == sa.bit(self.bit(n)));
        if x.0 >= 0 {
            self.lemma_deepest_on_way(sa, n0, x.0 as int);
            assert(self.node_ok(x.0 as int));
        }
    }

    /// After a fork, every branching is as the invariant wants it.
    pub proof fn lemma_fork_node(
        &self,
        g: &Self,
        mid: &Self,
        t: &Self,
        n0: int,
        n: int,
        x: NodeIndex,
        sa: S,
        la: u8,
        pos: u8,
        i: int,
    )
        requires
            self.forked(g, mid, t, n0, n, x, sa, la, pos),
            0 <= i < t.len(),
        ensures
            t.node_ok(i),
    {
        let nn = self.len();
        let k = self.side(n, sa);
        self.lemma_fork_facts(g, mid, t, n0, n, x, sa, la, pos);
        assert(self.node_ok(n));
        if i == nn {
            assert(self.kid_ok(n, k));
            if x.0 >= 0 {
                assert(self.node_ok(x.0 as int));
            }
            assert(t.kid_ok(i, 0));
            assert(t.kid_ok(i, 1));
        } else {
            assert(self.node_ok(i));
            assert(self.kid_ok(i, 0));
            assert(self.kid_ok(i, 1));
            if x.0 < 0 {
                self.lemma_child_is_no_escape(n, k, i);
            }
            if i > 0 {
                assert(self.node_ok(self.par(i)));
            }
            assert(t.kid_ok(i, 0));
            assert(t.kid_ok(i, 1));
        }
    }

    /// After a fork, every leaf hangs as the invariant wants it.
    pub proof fn lemma_fork_leaf(
        &self,
        g: &Self,
        mid: &Self,
        t: &Self,
        n0: int,
        n: int,
        x: NodeIndex,
        sa: S,
        la: u8,
        pos: u8,
        j: int,
    )
        requires
            self.forked(g, mid, t, n0, n, x, sa, la, pos),
            0 <= j < t.pfx@.len(),
        ensures
            t.leaf_ok(j),
    {
        let a = self.pfx@.len() as int;
        self.lemma_fork_facts(g, mid, t, n0, n, x, sa, la, pos);
        assert(self.node_ok(n));
        if j < a && j != -1 - x.0 {
            assert(self.leaf_ok(j));
            let h = self.home@[j];
            assert(self.node_ok(h));
            assert(self.kid_ok(h, self.side(h, self.pslot(j))));
        } else if j < a {
            assert(self.leaf_ok(j));
        }
    }

    /// A fork keeps the invariant.
    pub proof fn lemma_fork(
        &self,
        g: &Self,
        mid: &Self,
        t: &Self,
        n0: int,
        n: int,
        x: NodeIndex,
        sa: S,
        la: u8,
        pos: u8,
    )
        requires
            self.forked(g, mid, t, n0, n, x, sa, la, pos),
        ensures
            t.inv(),
    {
        let a = self.pfx@.len() as int;
        self.lemma_fork_facts(g, mid, t, n0, n, x, sa, la, pos);
        assert(1 <= t.len() <= INDEX_MAX);
        assert(t.paths@.len() == t.len());
        assert(1 <= t.pfx@.len() <= INDEX_MAX + 1);
        if x.0 < 0 {
            assert(t.home@ == self.home@.update(-1 - x.0, self.len() as int).push(self.len() as int));
        } else {
            assert(t.home@ == self.home@.push(self.len() as int));
        }
        assert(self.home@.len() == self.pfx@.len());
        assert(t.pfx@.len() == self.pfx@.len() + 1);
        if x.0 < 0 {
            assert(self.home@.update(-1 - x.0, self.len() as int).len() == self.home@.len());
        }
        assert(t.home@.len() == self.home@.len() + 1);
        assert(t.home@.len() == t.pfx@.len());
        assert(t.plen(0) == self.plen(0));
        assert forall|i: int| 0 <= i < t.len() implies #[trigger] t.node_ok(i) by {
            self.lemma_fork_node(g, mid, t, n0, n, x, sa, la, pos, i);
        }
        assert forall|j: int| 0 <= j < t.pfx@.len() implies #[trigger] t.leaf_ok(j) by {
            self.lemma_fork_leaf(g, mid, t, n0, n, x, sa, la, pos, j);
        }
        assert forall|i: int| 0 < i < t.len() implies #[trigger] t.sided(i) by {
            if i < self.len() {
                assert(self.sided(i));
                assert(self.node_ok(i));
                assert(self.kid_ok(i, 0));
                assert(self.kid_ok(i, 1));
            }
            assert(t.node_ok(i));
            assert(t.kid_ok(i, 0));
            assert(t.kid_ok(i, 1));
        }
        assert forall|j1: int, j2: int| 0 <= j1 < j2 < t.pfx@.len() implies !#[trigger] t.same_range(
            j1,
            j2,
        ) by {
            if j2 < a {
                assert(!self.same_range(j1, j2));
            } else {
                assert(self.plen(j1) == t.plen(j1));
            }
        }
    }

    /// A new leaf whose range holds the deepest candidate has become the
    /// escape of the branching `n`, which tests the bit after its length, and
    /// of the zone of `n`: `g` is the arena with the new leaf recorded, `t`
    /// the arena with the new escape.
    pub open spec fn shadowed_at(&self, g: &Self, t: &Self, n0: int, n: int, sa: S, la: u8) -> bool {
        let l = -1 - self.next(n0, sa).0;
        &&& self.inv()
        &&& self.pfx@.len() <= INDEX_MAX
        &&& la <= S::width()
        &&& self.fresh(sa, la as int)
        &&& 0 <= n0 < self.len()
        &&& self.next(n0, sa).0 < 0
        &&& self.upward(n, n0)
        &&& self.bit(n) == la + 1
        &&& la < self.plen(l)
        &&& agree(sa, self.pslot(l), la as int)
        &&& g.grown_from(self, sa, la)
        &&& t.zone_swapped(
            g,
            n,
            self.nodes@[n].escape,
            LeafIndex((-1 - self.pfx@.len()) as i32),
        )
        &&& t.paths == self.paths
        &&& t.pfx == g.pfx
        &&& t.home@ == self.home@.push(n)
    }

    /// What is known of a branching in the zone of `n`, whose escape `e` is
    /// shorter than `la` while `n` tests a bit after `la`: it tests a bit
    /// after `la`, its path follows that of `n`, and no child of it is `e`.
    pub proof fn lemma_zone_facts(&self, n: int, i: int, la: int)
        requires
            self.inv(),
            0 <= n < self.len(),
            self.in_zone(n, self.esc(n), i),
            self.plen(self.esc(n)) < la < self.bit(n),
        ensures
            0 <= i < self.len(),
            self.esc(i) == self.esc(n),
            self.bit(i) >= self.bit(n),
            agree(self.path(i), self.path(n), self.bit(n) - 1),
            self.kid(i, 0).0 != -1 - self.esc(n),
            self.kid(i, 1).0 != -1 - self.esc(n),
            i != n ==> i > 0 && self.in_zone(n, self.esc(n), self.par(i)),
    {
        self.lemma_inv_shape();
        self.lemma_zone_below(n, self.esc(n), i);
        if i != n {
            self.lemma_below_agrees(n, i);
        }
        assert(self.node_ok(i));
        assert(self.kid_ok(i, 0));
        assert(self.kid_ok(i, 1));
    }

    /// After a new escape has come to the zone of `n`, every branching is as
    /// the invariant wants it.
    pub proof fn lemma_shadow_at_node(
        &self,
        g: &Self,
        t: &Self,
        n0: int,
        n: int,
        sa: S,
        la: u8,
        i: int,
    )
        requires
            self.shadowed_at(g, t, n0, n, sa, la),
            0 <= i < t.len(),
        ensures
            t.node_ok(i),
    {
        let a = self.pfx@.len() as int;
        let e0 = self.esc(n);
        self.lemma_deepest_on_way(sa, n0, n);
        assert(self.node_ok(n));
        assert(self.node_ok(i));
        assert(self.kid_ok(i, 0));
        assert(self.kid_ok(i, 1));
        assert(self.plen(e0) <= la);
        assert(self.plen(e0) != la);
        assert(t.pfx@ == self.pfx@.push((sa, la)));
        if g.in_zone(n, e0, i) {
            self.lemma_zone_frame(g, n, e0, i);
            self.lemma_zone_facts(n, i, la as int);
            if i != n {
                self.lemma_zone_frame(g, n, e0, self.par(i));
            }
        } else {
            self.lemma_zone_frame(g, n, e0, i);
            if i > 0 {
                let p = self.par(i);
                assert(self.node_ok(p));
                self.lemma_zone_frame(g, n, e0, p);
                if self.in_zone(n, e0, p) {
                    self.lemma_zone_facts(n, p, la as int);
                }
            }
        }
        assert(t.kid_ok(i, 0));
        assert(t.kid_ok(i, 1));
    }

    /// After a new escape has come to the zone of `n`, every leaf hangs as
    /// the invariant wants it.
    pub proof fn lemma_shadow_at_leaf(
        &self,
        g: &Self,
        t: &Self,
        n0: int,
        n: int,
        sa: S,
        la: u8,
        j: int,
    )
        requires
            self.shadowed_at(g, t, n0, n, sa, la),
            0 <= j < t.pfx@.len(),
        ensures
            t.leaf_ok(j),
    {
        let a = self.pfx@.len() as int;
        let e0 = self.esc(n);
        self.lemma_deepest_on_way(sa, n0, n);
        assert(self.node_ok(n));
        assert(self.plen(e0) <= la);
        assert(self.plen(e0) != la);
        assert(t.pfx@ == self.pfx@.push((sa, la)));
        self.lemma_zone_frame(g, n, e0, n);
        if j < a {
            assert(self.leaf_ok(j));
            let h = self.home@[j];
            assert(self.node_ok(h));
            assert(self.kid_ok(h, self.side(h, self.pslot(j))));
            self.lemma_zone_frame(g, n, e0, h);
            if self.in_zone(n, e0, h) {
                self.lemma_zone_facts(n, h, la as int);
            }
        }
    }

    /// A new escape for the zone of `n` keeps the invariant.
    pub proof fn lemma_shadow_at(&self, g: &Self, t: &Self, n0: int, n: int, sa: S, la: u8)
        requires
            self.shadowed_at(g, t, n0, n, sa, la),
        ensures
            t.inv(),
    {
        let a = self.pfx@.len() as int;
        assert(t.pfx@ == self.pfx@.push((sa, la)));
        assert(t.plen(0) == self.plen(0));
        assert forall|i: int| 0 <= i < t.len() implies #[trigger] t.node_ok(i) by {
            self.lemma_shadow_at_node(g, t, n0, n, sa, la, i);
        }
        assert forall|j: int| 0 <= j < t.pfx@.len() implies #[trigger] t.leaf_ok(j) by {
            self.lemma_shadow_at_leaf(g, t, n0, n, sa, la, j);
        }
        assert forall|i: int| 0 < i < t.len() implies #[trigger] t.sided(i) by {
            if i < self.len() {
                assert(self.sided(i));
                assert(self.node_ok(i));
                assert(self.kid_ok(i, 0));
                assert(self.kid_ok(i, 1));
            }
            assert(t.node_ok(i));
            assert(t.kid_ok(i, 0));
            assert(t.kid_ok(i, 1));
        }
        assert forall|j1: int, j2: int| 0 <= j1 < j2 < t.pfx@.len() implies !#[trigger] t.same_range(
            j1,
            j2,
        ) by {
            if j2 < a {
                assert(!self.same_range(j1, j2));
            } else {
                assert(self.plen(j1) == t.plen(j1));
            }
        }
    }

    /// A new leaf whose range holds the deepest candidate has become the
    /// escape of a new branching, set on the way down below `n` to test the
    /// bit after the length of the leaf, and of the zone of the child `x`
    /// that `n` had there: `g` is the arena with the new leaf recorded, `mid`
    /// the arena with the new branching, `t` the arena with the new escape.
    pub open spec fn shadowed(
        &self,
        g: &Self,
        mid: &Self,
        t: &Self,
        n0: int,
        n: int,
        x: NodeIndex,
        sa: S,
        la: u8,
    ) -> bool {
        let l = -1 - self.next(n0, sa).0;
        let added = LeafIndex((-1 - self.pfx@.len()) as i32);
        &&& self.inv()
        &&& self.pfx@.len() <= INDEX_MAX
        &&& self.len() < INDEX_MAX
        &&& la <= S::width()
        &&& self.fresh(sa, la as int)
        &&& self.climbed(sa, n0, n, x, la + 1)
        &&& self.bit(n) <= la
        &&& la < self.plen(l)
        &&& agree(sa, self.pslot(l), la as int)
        &&& g.grown_from(self, sa, la)
        &&& mid.linked_from(g, n, added, x, (la + 1) as u8, self.pslot(l))
        &&& mid.shape()
        &&& t.len() == mid.len()
        &&& if x.0 >= 0 && self.esc(x.0 as int) == self.esc(n) {
            t.zone_swapped(mid, x.0 as int, self.nodes@[n].escape, added)
        } else {
            t.nodes@ == mid.nodes@
        }
        &&& t.paths == mid.paths
        &&& t.pfx == mid.pfx
        &&& t.homes_from(self, x, self.len(), self.len())
    }

    /// What is known where a new escape has come below `n`.
    pub proof fn lemma_shadow_facts(
        &self,
        g: &Self,
        mid: &Self,
        t: &Self,
        n0: int,
        n: int,
        x: NodeIndex,
        sa: S,
        la: u8,
    )
        requires
            self.shadowed(g, mid, t, n0, n, x, sa, la),
        ensures
            0 <= n < self.len(),
            agree(self.pslot(-1 - self.next(n0, sa).0), self.path(n), self.bit(n) - 1),
            self.next(n, self.pslot(-1 - self.next(n0, sa).0)) == x,
            x.0 >= 0 ==> 0 < x.0 < self.len() && self.par(x.0 as int) == n && self.bit(x.0 as int)
                > la + 1 && agree(
                self.pslot(-1 - self.next(n0, sa).0),
                self.path(x.0 as int),
                self.bit(x.0 as int) - 1,
            ),
            x.0 < 0 ==> n == n0 && -1 - x.0 != self.esc(n) && self.home@[-1 - x.0] == n
                && self.plen(-1 - x.0) >= self.bit(n) && 0 <= -1 - x.0 < self.pfx@.len(),
            t.pfx@ == self.pfx@.push((sa, la)),
            t.len() == self.len() + 1,
            self.plen(self.esc(n)) < self.bit(n),
            la + 1 <= S::width(),
    {
        let l = -1 - self.next(n0, sa).0;
        let sd = self.pslot(l);
        let k = self.side(n, sa);
        self.lemma_deepest_on_way(sa, n0, n);
        self.lemma_deepest_follows(n0, self.side(n0, sa));
        assert(self.node_ok(n));
        assert(self.node_ok(n0));
        assert(self.kid_ok(n0, self.side(n0, sa)));
        assert(self.kid_ok(n, k));
        assert(sd.bit(self.bit(n)) == sa.bit(self.bit(n)));
        assert(self.leaf_ok(l));
        if x.0 >= 0 {
            self.lemma_deepest_on_way(sa, n0, x.0 as int);
            assert(self.node_ok(x.0 as int));
        }
    }

    /// What is known of a branching in the zone of the child `x`.
    pub proof fn lemma_shadow_zone(
        &self,
        g: &Self,
        mid: &Self,
        t: &Self,
        n0: int,
        n: int,
        x: NodeIndex,
        sa: S,
        la: u8,
        i: int,
    )
        requires
            self.shadowed(g, mid, t, n0, n, x, sa, la),
            x.0 >= 0,
            self.esc(x.0 as int) == self.esc(n),
            mid.in_zone(x.0 as int, self.esc(n), i),
        ensures
            0 <= i < self.len(),
            i != n,
            self.esc(i) == self.esc(n),
            self.bit(i) >= self.bit(x.0 as int),
            agree(self.path(i), self.path(x.0 as int), self.bit(x.0 as int) - 1),
            self.kid(i, 0).0 != -1 - self.esc(n),
            self.kid(i, 1).0 != -1 - self.esc(n),
            i != x.0 ==> i > 0 && self.par(i) != n && mid.in_zone(
                x.0 as int,
                self.esc(n),
                self.par(i),
            ),
    {
        self.lemma_shadow_facts(g, mid, t, n0, n, x, sa, la);
        mid.lemma_zone_below(x.0 as int, self.esc(n), i);
        if i != x.0 {
            mid.lemma_below_agrees(x.0 as int, i);
            assert(mid.shape_ok(i));
        }
        assert(i != self.len());
        assert(self.node_ok(i));
        assert(self.kid_ok(i, 0));
        assert(self.kid_ok(i, 1));
        assert(self.node_ok(n));
        if i != x.0 {
            let p = self.par(i);
            mid.lemma_zone_below(x.0 as int, self.esc(n), p);
            if p != x.0 {
                mid.lemma_below_agrees(x.0 as int, p);
            }
        }
    }

    /// After a new escape has come below `n`, every branching is as the
    /// invariant wants it.
    pub proof fn lemma_shadow_node(
        &self,
        g: &Self,
        mid: &Self,
        t: &Self,
        n0: int,
        n: int,
        x: NodeIndex,
        sa: S,
        la: u8,
        i: int,
    )
        requires
            self.shadowed(g, mid, t, n0, n, x, sa, la),
            0 <= i < t.len(),
        ensures
            t.node_ok(i),
    {
        let nn = self.len();
        let e0 = self.esc(n);
        let k = self.side(n, sa);
        let swap = x.0 >= 0 && self.esc(x.0 as int) == e0;
        self.lemma_shadow_facts(g, mid, t, n0, n, x, sa, la);
        assert(self.node_ok(n));
        assert(self.kid_ok(n, k));
        if swap && mid.in_zone(x.0 as int, e0, nn) {
            mid.lemma_zone_below(x.0 as int, e0, nn);
            mid.lemma_below_agrees(x.0 as int, nn);
            assert(false);
        }
        if swap && mid.in_zone(x.0 as int, e0, n) {
            self.lemma_shadow_zone(g, mid, t, n0, n, x, sa, la, n);
        }
        if i == nn {
            if x.0 >= 0 {
                assert(self.node_ok(x.0 as int));
                if swap {
                    assert(mid.in_zone(x.0 as int, e0, x.0 as int));
                }
            }
            assert(t.kid_ok(i, 0));
            assert(t.kid_ok(i, 1));
        } else {
            assert(self.node_ok(i));
            assert(self.kid_ok(i, 0));
            assert(self.kid_ok(i, 1));
            if x.0 < 0 {
                self.lemma_child_is_no_escape(n, k, i);
            }
            if swap && mid.in_zone(x.0 as int, e0, i) {
                self.lemma_shadow_zone(g, mid, t, n0, n, x, sa, la, i);
            } else if i > 0 {
                let p = self.par(i);
                assert(self.node_ok(p));
                if swap && mid.in_zone(x.0 as int, e0, p) {
                    self.lemma_shadow_zone(g, mid, t, n0, n, x, sa, la, p);
                    assert(mid.shape_ok(i));
                }
            }
            assert(t.kid_ok(i, 0));
            assert(t.kid_ok(i, 1));
        }
    }

    /// After a new escape has come below `n`, every leaf hangs as the
    /// invariant wants it.
    pub proof fn lemma_shadow_leaf(
        &self,
        g: &Self,
        mid: &Self,
        t: &Self,
        n0: int,
        n: int,
        x: NodeIndex,
        sa: S,
        la: u8,
        j: int,
    )
        requires
            self.shadowed(g, mid, t, n0, n, x, sa, la),
            0 <= j < t.pfx@.len(),
        ensures
            t.leaf_ok(j),
    {
        let a = self.pfx@.len() as int;
        let nn = self.len();
        let e0 = self.esc(n);
        let swap = x.0 >= 0 && self.esc(x.0 as int) == e0;
        self.lemma_shadow_facts(g, mid, t, n0, n, x, sa, la);
        assert(self.node_ok(n));
        if swap && mid.in_zone(x.0 as int, e0, nn) {
            mid.lemma_zone_below(x.0 as int, e0, nn);
            mid.lemma_below_agrees(x.0 as int, nn);
            assert(false);
        }
        if swap && mid.in_zone(x.0 as int, e0, n) {
            self.lemma_shadow_zone(g, mid, t, n0, n, x, sa, la, n);
        }
        if j < a && j != -1 - x.0 {
            assert(self.leaf_ok(j));
            let h = self.home@[j];
            assert(self.node_ok(h));
            assert(self.kid_ok(h, self.side(h, self.pslot(j))));
            if swap && mid.in_zone(x.0 as int, e0, h) {
                self.lemma_shadow_zone(g, mid, t, n0, n, x, sa, la, h);
            }
        } else if j < a {
            assert(self.leaf_ok(j));
        }
    }

    /// A new escape below `n` keeps the invariant.
    pub proof fn lemma_shadow(
        &self,
        g: &Self,
        mid: &Self,
        t: &Self,
        n0: int,
        n: int,
        x: NodeIndex,
        sa: S,
        la: u8,
    )
        requires
            self.shadowed(g, mid, t, n0, n, x, sa, la),
        ensures
            t.inv(),
    {
        let a = self.pfx@.len() as int;
        self.lemma_shadow_facts(g, mid, t, n0, n, x, sa, la);
        if x.0 < 0 {
            assert(self.home@.update(-1 - x.0, self.len() as int).len() == self.home@.len());
        }
        assert(t.home@.len() == self.home@.len() + 1);
        assert(t.plen(0) == self.plen(0));
        assert forall|i: int| 0 <= i < t.len() implies #[trigger] t.node_ok(i) by {
            self.lemma_shadow_node(g, mid, t, n0, n, x, sa, la, i);
        }
        assert forall|j: int| 0 <= j < t.pfx@.len() implies #[trigger] t.leaf_ok(j) by {
            self.lemma_shadow_leaf(g, mid, t, n0, n, x, sa, la, j);
        }
        assert forall|i: int| 0 < i < t.len() implies #[trigger] t.sided(i) by {
            if i < self.len() {
                assert(self.sided(i));
                assert(self.node_ok(i));
                assert(self.kid_ok(i, 0));
                assert(self.kid_ok(i, 1));
            }
            assert(t.node_ok(i));
            assert(t.kid_ok(i, 0));
            assert(t.kid_ok(i, 1));
        }
        assert forall|j1: int, j2: int| 0 <= j1 < j2 < t.pfx@.len() implies !#[trigger] t.same_range(
            j1,
            j2,
        ) by {
            if j2 < a {
                assert(!self.same_range(j1, j2));
            } else {
                assert(self.plen(j1) == t.plen(j1));
            }
        }
    }

    /// A climb cannot stop at a branching that tests the bit at which the new
    /// leaf parts from the deepest candidate.
    pub proof fn lemma_no_fork_at(&self, sa: S, n0: int, n: int, x: NodeIndex, pos: int)
        requires
            self.inv(),
            self.climbed(sa, n0, n, x, pos),
            pos <= self.plen(-1 - self.next(n0, sa).0),
            sa.bit(pos) != self.pslot(-1 - self.next(n0, sa).0).bit(pos),
        ensures
            self.bit(n) != pos,
    {
        self.lemma_above(n, n0);
        assert(self.node_ok(n));
        assert(self.kid_ok(n, self.side(n, sa)));
        if n != n0 {
            self.lemma_deepest_on_way(sa, n0, x.0 as int);
            assert(self.node_ok(x.0 as int));
        }
    }

    /// One step of a climb: from a branching that tests a bit after `p` to its parent.
    pub proof fn lemma_climb_step(&self, sa: S, n0: int, n: int, x: NodeIndex, p: int)
        requires
            self.inv(),
            self.climbed(sa, n0, n, x, p),
            self.bit(n) > p,
            p >= 1,
        ensures
            n > 0,
            0 <= self.par(n) < self.len(),
            self.bit(self.par(n)) < self.bit(n),
            self.climbed(sa, n0, self.par(n), NodeIndex(n as i32), p),
    {
        self.lemma_above(n, n0);
        assert(self.node_ok(n));
        assert(self.node_ok(0));
        if n != n0 {
            self.lemma_trail_above(sa, n, n0);
            self.lemma_above_walk(self.par(n), n, n0);
        }
        self.lemma_trail_up(sa, n);
    }

    /// Sets the new leaf `addedindex` into a trie that holds no leaf of the
    /// same range.  `n` is the deepest branching on the way down for the slot
    /// of the new leaf, and `deepestindex` the leaf that it holds there.
    ///
    /// With `pos` the first position at which the two slots differ:
    /// where the deepest leaf covers the new one, the new leaf takes the
    /// place that `n` held for its escape, or hangs below a new branching
    /// that gets the deepest leaf as its escape; where the new leaf covers
    /// the deepest, it becomes the escape of the branching on the way that
    /// tests the bit after its length, which is set there if there is none;
    /// else the two part at `pos`, where a branching is set on the way.
    pub fn insert_prefix(
        &mut self,
        addedindex: LeafIndex,
        addedslot: &S,
        addedlen: u8,
        n: BranchingIndex,
        deepestindex: LeafIndex,
        deepestslot: &S,
        deepestlen: u8,
    )
        requires
            old(self).inv(),
            old(self).counted(0),
            old(self).len() < INDEX_MAX,
            old(self).pfx@.len() <= INDEX_MAX,
            addedindex.idx() == old(self).pfx@.len(),
            addedlen <= S::width(),
            0 <= n.0 < old(self).len(),
            old(self).on_trail(*addedslot, n.0 as int),
            old(self).next(n.0 as int, *addedslot) == NodeIndex(deepestindex.0),
            deepestindex.0 < 0,
            old(self).pfx@[deepestindex.idx()] == (*deepestslot, deepestlen),
            old(self).fresh(*addedslot, addedlen as int),
        ensures
            final(self).inv(),
            final(self).counted(0),
            final(self).pfx@ == old(self).pfx@.push((*addedslot, addedlen)),
            old(self).len() <= final(self).len() <= old(self).len() + 1,
    {
        let ghost t0 = *self;
        let ghost sa = *addedslot;
        let ghost sd = *deepestslot;
        let ghost n0 = n.0 as int;
        let ghost l = deepestindex.idx();
        proof {
            self.pfx = Ghost(t0.pfx@.push((sa, addedlen)));
            self.home = Ghost(t0.home@.push(0));
        }
        let ghost g = *self;
        proof {
            t0.lemma_inv_shape();
            t0.lemma_grown_shape(&g, sa, addedlen);
            assert(t0.node_ok(n0));
            assert(t0.kid_ok(n0, t0.side(n0, sa)));
            assert(t0.leaf_ok(l));
            assert(g.shape_ok(n0));
        }
        let diff = addedslot.bitxor(*deepestslot);
        let pos = diff.first_bit();
        proof {
            S::lemma_bit_range(sa, 0);
            assert(agree(sa, sd, pos - 1));
            if pos <= S::width() {
                assert(sa.bit(pos as int) != sd.bit(pos as int));
            }
        }
        let mut n = n;
        if pos > deepestlen && deepestlen < addedlen {
            let c = self.at(n).child(addedslot);
            if c.0 == self.at(n).escape.0 {
                let mut b = self.nodes[n.index()];
                *b.child_mut(addedslot) = NodeIndex::of_leaf(addedindex);
                self.nodes.set(n.index(), b);
                proof {
                    self.home = Ghost(t0.home@.push(n0));
                    t0.lemma_plug(&*self, n0, sa, addedlen);
                    t0.lemma_plug_count(&*self, n0, sa, addedlen);
                }
            } else {
                let nn = self.insert_prefix_branching(
                    n,
                    deepestindex,
                    NodeIndex::of_leaf(addedindex),
                    deepestlen + 1,
                    addedslot,
                );
                proof {
                    self.home = Ghost(t0.home@.update(l, t0.len() as int).push(t0.len() as int));
                    t0.lemma_hang(&g, &*self, n0, sa, addedlen);
                    t0.lemma_hang_count(&g, &*self, n0, sa, addedlen);
                }
            }
        } else if pos > addedlen {
            proof {
                if deepestlen == addedlen {
                    assert(t0.plen(l) == addedlen && agree(t0.pslot(l), sa, addedlen as int));
                }
                assert(addedlen < deepestlen);
            }
            let pos2 = addedlen + 1;
            let ghost mut x = NodeIndex(deepestindex.0);
            while self.at(n).bit > pos2
                invariant
                    *self == g,
                    t0.inv(),
                    g.grown_from(&t0, sa, addedlen),
                    0 <= n.0 < t0.len(),
                    t0.climbed(sa, n0, n.0 as int, x, pos2 as int),
                    pos2 == addedlen + 1,
                decreases t0.bit(n.0 as int),
            {
                proof {
                    t0.lemma_climb_step(sa, n0, n.0 as int, x, pos2 as int);
                    x = NodeIndex(n.0);
                }
                n = self.at(n).parent;
            }
            proof {
                t0.lemma_deepest_on_way(sa, n0, n.0 as int);
                assert(t0.node_ok(n.0 as int));
            }
            if self.at(n).bit < pos2 {
                let xc = self.at(n).child(deepestslot);
                proof {
                    assert(sd.bit(t0.bit(n.0 as int)) == sa.bit(t0.bit(n.0 as int)));
                    assert(xc == x);
                    assert(t0.kid_ok(n.0 as int, t0.side(n.0 as int, sa)));
                    if x.0 >= 0 {
                        t0.lemma_deepest_on_way(sa, n0, x.0 as int);
                    }
                }
                let nn = self.insert_prefix_branching(n, addedindex, xc, pos2, deepestslot);
                proof {
                    let mid = choose|mid: Self|
                        {
                            &&& #[trigger] mid.linked_from(&g, n.0 as int, addedindex, xc, pos2, sd)
                            &&& mid.shape()
                            &&& if xc.0 >= 0 && g.esc(xc.0 as int) == g.esc(n.0 as int) && g.esc(
                                n.0 as int,
                            ) != addedindex.idx() {
                                self.replaced_from(
                                    &mid,
                                    xc.0 as int,
                                    g.nodes@[n.0 as int].escape,
                                    addedindex,
                                )
                            } else {
                                *self == mid
                            }
                        };
                    self.home = Ghost(
                        (if x.0 < 0 {
                            t0.home@.update(-1 - x.0, t0.len() as int)
                        } else {
                            t0.home@
                        }).push(t0.len() as int),
                    );
                    t0.lemma_shadow(&g, &mid, &*self, n0, n.0 as int, x, sa, addedlen);
                    t0.lemma_shadow_count(&g, &mid, &*self, n0, n.0 as int, x, sa, addedlen);
                }
            } else {
                let e = self.at(n).escape;
                self.replace_escape_leaf(n, e, addedindex);
                proof {
                    self.home = Ghost(t0.home@.push(n.0 as int));
                    t0.lemma_above(n.0 as int, n0);
                    t0.lemma_shadow_at(&g, &*self, n0, n.0 as int, sa, addedlen);
                    t0.lemma_shadow_at_count(&g, &*self, n0, n.0 as int, sa, addedlen);
                }
            }
        } else {
            proof {
                assert(pos <= deepestlen);
            }
            let ghost mut x = NodeIndex(deepestindex.0);
            while self.at(n).bit > pos
                invariant
                    *self == g,
                    t0.inv(),
                    g.grown_from(&t0, sa, addedlen),
                    0 <= n.0 < t0.len(),
                    1 <= pos,
                    t0.climbed(sa, n0, n.0 as int, x, pos as int),
                decreases t0.bit(n.0 as int),
            {
                proof {
                    t0.lemma_climb_step(sa, n0, n.0 as int, x, pos as int);
                    x = NodeIndex(n.0);
                }
                n = self.at(n).parent;
            }
            proof {
                t0.lemma_deepest_on_way(sa, n0, n.0 as int);
                assert(t0.node_ok(n.0 as int));
                t0.lemma_no_fork_at(sa, n0, n.0 as int, x, pos as int);
            }
            let ghost nb = n.0 as int;
            if self.at(n).bit < pos {
                let e = self.at(n).escape;
                let xc = self.at(n).child(deepestslot);
                proof {
                    assert(sd.bit(t0.bit(nb)) == sa.bit(t0.bit(nb)));
                    assert(xc == x);
                    assert(t0.kid_ok(nb, t0.side(nb, sa)));
                    if x.0 >= 0 {
                        t0.lemma_deepest_on_way(sa, n0, x.0 as int);
                    }
                }
                n = self.insert_prefix_branching(n, e, xc, pos, deepestslot);
            }
            let ghost mid = *self;
            let mut b = self.nodes[n.index()];
            *b.child_mut(addedslot) = NodeIndex::of_leaf(addedindex);
            self.nodes.set(n.index(), b);
            proof {
                self.home = Ghost(
                    (if x.0 < 0 {
                        t0.home@.update(-1 - x.0, t0.len() as int)
                    } else {
                        t0.home@
                    }).push(t0.len() as int),
                );
                t0.lemma_fork(&g, &mid, &*self, n0, nb, x, sa, addedlen, pos);
                t0.lemma_fork_count(&g, &mid, &*self, n0, nb, x, sa, addedlen, pos);
            }
        }
    }

    /// A copy of the arena.
    pub fn duplicate(&self) -> (r: Self)
        ensures
            r.nodes@ == self.nodes@,
            r.paths == self.paths,
            r.pfx == self.pfx,
            r.home == self.home,
    {
        let mut nodes: Vec<Branching> = Vec::with_capacity(self.nodes.len());
        let n = self.nodes.len();
        let mut i: usize = 0;
        while i < n
            invariant
                0 <= i <= n,
                n == self.nodes@.len(),
                nodes@ == self.nodes@.subrange(0, i as int),
            decreases n - i,
        {
            nodes.push(self.nodes[i]);
            assert(nodes@ =~= self.nodes@.subrange(0, i + 1));
            i += 1;
        }
        assert(nodes@ =~= self.nodes@);
        Self { nodes, paths: self.paths, pfx: self.pfx, home: self.home }
    }

    /// The invariant depends on the branchings and on what is recorded, and on nothing else.
    pub proof fn lemma_inv_same(&self, t: &Self)
        requires
            self.inv(),
            t.nodes@ == self.nodes@,
            t.paths == self.paths,
            t.pfx == self.pfx,
            t.home == self.home,
        ensures
            t.inv(),
    {
        assert forall|i: int| 0 <= i < t.len() implies #[trigger] t.node_ok(i) by {
            assert(self.node_ok(i));
            assert(self.kid_ok(i, 0));
            assert(self.kid_ok(i, 1));
            assert(t.kid_ok(i, 0));
            assert(t.kid_ok(i, 1));
        }
        assert forall|j: int| 0 <= j < t.pfx@.len() implies #[trigger] t.leaf_ok(j) by {
            assert(self.leaf_ok(j));
        }
        assert forall|i: int| 0 < i < t.len() implies #[trigger] t.sided(i) by {
            if i < self.len() {
                assert(self.sided(i));
                assert(self.node_ok(i));
                assert(self.kid_ok(i, 0));
                assert(self.kid_ok(i, 1));
            }
            assert(t.node_ok(i));
            assert(t.kid_ok(i, 0));
            assert(t.kid_ok(i, 1));
        }
        assert forall|j1: int, j2: int| 0 <= j1 < j2 < t.pfx@.len() implies !#[trigger] t.same_range(
            j1,
            j2,
        ) by {
            assert(!self.same_range(j1, j2));
        }
    }

    /// Empties the arena but for the root, which gets the root leaf on both
    /// sides again; of what is recorded, the root leaf alone stays.
    pub fn clear(&mut self)
        requires
            old(self).pfx@.len() >= 1,
        ensures
            final(self).inv(),
            final(self).counted(0),
            final(self).len() == 1,
            final(self).pfx@ == seq![(old(self).pfx@[0].0, 0u8)],
    {
        let ghost slot = self.pfx@[0].0;
        let fresh = Self::new(0);
        let ghost b0 = fresh;
        let ghost p0 = b0.pfx@.update(0, (slot, 0u8));
        self.nodes = fresh.nodes;
        self.paths = fresh.paths;
        self.home = fresh.home;
        self.pfx = Ghost(p0);
        proof {
            assert(b0.node_ok(0));
            b0.lemma_reslot(&*self, 0, slot);
            assert(self.pfx@ =~= seq![(slot, 0u8)]);
        }
    }

    /// Takes the last branching away.  What referred to it is left as it is.
    pub fn remove_last(&mut self)
        requires
            old(self).len() > 1,
        ensures
            final(self).nodes@ == old(self).nodes@.drop_last(),
            final(self).pfx == old(self).pfx,
            final(self).home == old(self).home,
            final(self).paths@ == old(self).paths@.drop_last(),
    {
        self.nodes.pop();
        proof {
            self.paths = Ghost(self.paths@.drop_last());
        }
    }

    /// Takes the branching at `i` away; the last branching takes its place.
    /// What referred to either is left as it is.
    pub fn remove(&mut self, i: BranchingIndex)
        requires
            0 < i.0 < old(self).len(),
            old(self).paths@.len() == old(self).len(),
        ensures
            final(self).nodes@ == old(self).nodes@.update(
                i.0 as int,
                old(self).nodes@.last(),
            ).drop_last(),
            final(self).paths@ == old(self).paths@.update(
                i.0 as int,
                old(self).paths@.last(),
            ).drop_last(),
            final(self).pfx == old(self).pfx,
            final(self).home == old(self).home,
    {
        self.nodes.swap_remove(i.index());
        proof {
            self.paths = Ghost(self.paths@.update(i.0 as int, self.paths@.last()).drop_last());
        }
    }

    /// A leaf that lies below the branching `b` or is its escape: one whose
    /// slot follows the path to `b`, and that is not shorter than that path.
    pub fn search_one_matching_leaf(&self, b: BranchingIndex) -> (r: LeafIndex)
        requires
            self.inv(),
            0 <= b.0 < self.len(),
        ensures
            r.0 < 0,
            0 <= r.idx() < self.pfx@.len(),
            self.plen(r.idx()) >= self.bit(b.0 as int) - 1,
            agree(self.pslot(r.idx()), self.path(b.0 as int), self.bit(b.0 as int) - 1),
    {
        let ghost top = b.0 as int;
        let mut cur = b;
        proof {
            self.lemma_inv_shape();
        }
        loop
            invariant
                self.inv(),
                self.shape(),
                0 <= cur.0 < self.len(),
                top == b.0,
                0 <= top < self.len(),
                self.upward(top, cur.0 as int),
            decreases 256 - self.bit(cur.0 as int),
        {
            let bb = *self.at(cur);
            let ghost i = cur.0 as int;
            proof {
                assert(self.node_ok(i));
                assert(self.kid_ok(i, 0));
                assert(self.kid_ok(i, 1));
                assert(self.node_ok(self.par(i)));
                if i != top {
                    self.lemma_below_agrees(top, i);
                }
                assert(agree(self.path(i), self.path(top), self.bit(top) - 1));
                assert(self.bit(top) <= self.bit(i));
            }
            if self.at(bb.parent).escape.0 != bb.escape.0 || cur.0 == 0 {
                proof {
                    let e = self.esc(i);
                    assert(self.bit(i) == self.plen(e) + 1);
                    assert(agree(self.pslot(e), self.path(i), self.plen(e)));
                    assert(agree(self.pslot(e), self.path(top), self.bit(top) - 1));
                }
                return bb.escape;
            }
            if bb.child[0].is_leaf() && bb.child[0].0 != bb.escape.0 {
                proof {
                    let j = -1 - bb.child[0].0;
                    assert(agree(self.pslot(j), self.path(top), self.bit(top) - 1));
                }
                return bb.child[0].as_leaf();
            }
            if bb.child[1].is_leaf() && bb.child[1].0 != bb.escape.0 {
                proof {
                    let j = -1 - bb.child[1].0;
                    assert(agree(self.pslot(j), self.path(top), self.bit(top) - 1));
                }
                return bb.child[1].as_leaf();
            }
            proof {
                let c = if bb.child[0].0 >= 0 { bb.child[0].0 as int } else { bb.child[1].0 as int };
                assert(self.node_ok(c));
                self.lemma_above_step(top, c);
            }
            if bb.child[0].is_branching() {
                cur = bb.child[0].as_branching();
            } else {
                cur = bb.child[1].as_branching();
            }
        }
    }

    /// The number of branchings from `i` downwards that test a bit at or
    /// before `p`, counted through such branchings only; `i` itself counts.
    pub open spec fn spec_count(&self, i: int, p: int) -> nat
        decreases 256 - self.bit(i),
    {
        1 + self.spec_count_kid(i, 0, p) + self.spec_count_kid(i, 1, p)
    }

    /// What child `k` of `i` adds to the count.
    pub open spec fn spec_count_kid(&self, i: int, k: int, p: int) -> nat
        decreases 256 - self.bit(i), 0int,
    {
        let c = self.kid(i, k).0 as int;
        if 0 <= c < self.len() && self.bit(i) < self.bit(c) <= p {
            self.spec_count(c, p)
        } else {
            0
        }
    }

    /// The number of branchings that a compression of `b` up to the bit `p`
    /// would take in; where the count does not fit, the greatest number.
    pub fn count_compressed_branching(&self, b: BranchingIndex, p: u8) -> (r: usize)
        requires
            self.shape(),
            0 <= b.0 < self.len(),
        ensures
            r == if self.spec_count(b.0 as int, p as int) > usize::MAX {
                usize::MAX as nat
            } else {
                self.spec_count(b.0 as int, p as int)
            },
        decreases 256 - self.bit(b.0 as int),
    {
        let ghost i = b.0 as int;
        proof {
            assert(self.shape_ok(i));
            assert(self.kid_shape(i, 0));
            assert(self.kid_shape(i, 1));
        }
        let node = *self.at(b);
        let mut count: usize = 1;
        let c0 = node.child[0];
        if c0.is_branching() {
            proof {
                assert(self.shape_ok(c0.0 as int));
            }
            if self.at(c0.as_branching()).bit <= p {
                let sub = self.count_compressed_branching(c0.as_branching(), p);
                count = if sub > usize::MAX - count {
                    usize::MAX
                } else {
                    count + sub
                };
            }
        }
        let c1 = node.child[1];
        if c1.is_branching() {
            proof {
                assert(self.shape_ok(c1.0 as int));
            }
            if self.at(c1.as_branching()).bit <= p {
                let sub = self.count_compressed_branching(c1.as_branching(), p);
                count = if sub > usize::MAX - count {
                    usize::MAX
                } else {
                    count + sub
                };
            }
        }
        count
    }

    /// The number of levels, at most `max`, through which every branching
    /// from `i` downwards has the escape `stop`.
    pub open spec fn spec_level_max(&self, i: int, max: int, stop: int) -> int
        decreases max,
    {
        if max <= 0 || !(0 <= i < self.len()) || self.esc(i) != stop {
            0
        } else {
            let c0 = self.kid(i, 0).0 as int;
            let c1 = self.kid(i, 1).0 as int;
            if c0 >= 0 {
                if c1 >= 0 {
                    let l0 = self.spec_level_max(c0, max - 1, stop);
                    let l1 = self.spec_level_max(c1, max - 1, stop);
                    let l = if l0 <= l1 { l0 } else { l1 };
                    if max <= 1 + l { max } else { 1 + l }
                } else {
                    1 + self.spec_level_max(c0, max - 1, stop)
                }
            } else if c1 >= 0 {
                1 + self.spec_level_max(c1, max - 1, stop)
            } else {
                1
            }
        }
    }

    /// The levels counted are at most `max`.
    pub proof fn lemma_level_max(&self, i: int, max: int, stop: int)
        ensures
            0 <= self.spec_level_max(i, max, stop),
            max >= 0 ==> self.spec_level_max(i, max, stop) <= max,
        decreases max,
    {
        if max > 0 && 0 <= i < self.len() && self.esc(i) == stop {
            self.lemma_level_max(self.kid(i, 0).0 as int, max - 1, stop);
            self.lemma_level_max(self.kid(i, 1).0 as int, max - 1, stop);
        }
    }

    pub fn compression_level_max(&self, b: BranchingIndex, max: u8, stop: LeafIndex) -> (r: u8)
        requires
            self.shape(),
            0 <= b.0 < self.len(),
            stop.0 < 0,
        ensures
            r == self.spec_level_max(b.0 as int, max as int, stop.idx()),
            r <= max,
        decreases max,
    {
        let ghost i = b.0 as int;
        proof {
            assert(self.shape_ok(i));
            assert(self.kid_shape(i, 0));
            assert(self.kid_shape(i, 1));
            self.lemma_level_max(i, max as int, stop.idx());
            self.lemma_level_max(self.kid(i, 0).0 as int, max - 1, stop.idx());
            self.lemma_level_max(self.kid(i, 1).0 as int, max - 1, stop.idx());
        }
        if max == 0 {
            return 0;
        }
        let node = *self.at(b);
        if node.escape.0 != stop.0 {
            return 0;
        }
        if node.child[0].is_branching() {
            if node.child[1].is_branching() {
                let l0 = self.compression_level_max(node.child[0].as_branching(), max - 1, stop);
                let l1 = self.compression_level_max(node.child[1].as_branching(), max - 1, stop);
                let l = if l0 <= l1 {
                    l0
                } else {
                    l1
                };
                if max <= 1 + l {
                    max
                } else {
                    1 + l
                }
            } else {
                1 + self.compression_level_max(node.child[0].as_branching(), max - 1, stop)
            }
        } else if node.child[1].is_branching() {
            1 + self.compression_level_max(node.child[1].as_branching(), max - 1, stop)
        } else {
            1
        }
    }

    /// Where levels are counted from `i`, `i` has the escape `stop`.
    pub proof fn lemma_level_esc(&self, i: int, max: int, stop: int)
        requires
            self.spec_level_max(i, max, stop) >= 1,
        ensures
            0 <= i < self.len(),
            self.esc(i) == stop,
            max >= 1,
    {
    }

    /// A branching below `i` counts at most one level less than `i`.
    pub proof fn lemma_level_step(&self, i: int, max: int, stop: int, k: int)
        requires
            self.spec_level_max(i, max, stop) >= 2,
            0 <= k <= 1,
            self.kid(i, k).0 >= 0,
        ensures
            self.spec_level_max(self.kid(i, k).0 as int, max - 1, stop) >= self.spec_level_max(
                i,
                max,
                stop,
            ) - 1,
    {
        self.lemma_level_max(self.kid(i, 0).0 as int, max - 1, stop);
        self.lemma_level_max(self.kid(i, 1).0 as int, max - 1, stop);
    }

    /// From `i`, at least one level is counted for its own escape.
    pub proof fn lemma_level_one(&self, i: int, max: int)
        requires
            0 <= i < self.len(),
            max >= 1,
        ensures
            self.spec_level_max(i, max, self.esc(i)) >= 1,
    {
        self.lemma_level_max(self.kid(i, 0).0 as int, max - 1, self.esc(i));
        self.lemma_level_max(self.kid(i, 1).0 as int, max - 1, self.esc(i));
    }

    /// What lies above a branching lies above what lies below that branching.
    pub proof fn lemma_above_trans(&self, a: int, b: int, c: int)
        requires
            self.nodes_inv(),
            0 <= c < self.len(),
            self.upward(a, b),
            self.above(b, c),
        ensures
            self.above(a, c),
        decreases self.bit(c),
    {
        assert(self.node_ok(c));
        if self.par(c) == b {
            if a != b {
                self.lemma_above_step(a, c);
            }
        } else {
            self.lemma_above_trans(a, b, self.par(c));
            self.lemma_above_step(a, c);
        }
    }

    /// Two branchings from `n` upwards that test the same bit are one branching.
    pub proof fn lemma_upward_same(&self, n: int, m: int, a: int)
        requires
            self.nodes_inv(),
            0 <= n < self.len(),
            self.upward(m, n),
            self.upward(a, n),
            self.bit(m) == self.bit(a),
        ensures
            m == a,
        decreases self.bit(n),
    {
        self.lemma_above(m, n);
        self.lemma_above(a, n);
        if m != n && a != n {
            assert(self.node_ok(n));
            self.lemma_upward_same(self.par(n), m, a);
        }
    }

    /// Of two branchings from `n` upwards, the one that tests the earlier bit
    /// lies above the other.
    pub proof fn lemma_upward_order(&self, n: int, m: int, a: int)
        requires
            self.nodes_inv(),
            0 <= n < self.len(),
            self.upward(m, n),
            self.upward(a, n),
            self.bit(m) < self.bit(a),
        ensures
            self.above(m, a),
    {
        let s = self.path(n);
        self.lemma_trail_of_path(s, n);
        self.lemma_above(a, n);
        self.lemma_above(m, n);
        if a != n {
            self.lemma_trail_above(s, a, n);
        }
        if m != n {
            self.lemma_trail_above(s, m, n);
        }
        self.lemma_trail_linear(s, a, m);
        if self.above(a, m) {
            self.lemma_above(a, m);
        }
    }

    /// Of the branchings from `n0` upwards, only `a` tests a bit after that
    /// of its parent and not after its own.
    pub proof fn lemma_between(&self, n0: int, a: int, m: int)
        requires
            self.nodes_inv(),
            0 <= n0 < self.len(),
            self.upward(a, n0),
            self.upward(m, n0),
            a != 0,
            self.bit(self.par(a)) < self.bit(m) <= self.bit(a),
        ensures
            m == a,
    {
        let s = self.path(n0);
        self.lemma_trail_of_path(s, n0);
        self.lemma_above(a, n0);
        self.lemma_above(m, n0);
        if a != n0 {
            self.lemma_trail_above(s, a, n0);
        }
        if m != n0 {
            self.lemma_trail_above(s, m, n0);
        }
        self.lemma_trail_linear(s, a, m);
        if self.above(a, m) {
            self.lemma_above(a, m);
        }
        if self.above(m, a) {
            self.lemma_trail_above(s, m, a);
            self.lemma_above(m, self.par(a));
        }
    }

    /// The count of `i` up to `p`, cut at the greatest number that fits.
    pub open spec fn count_cut(&self, i: int, p: int) -> int {
        if self.spec_count(i, p) > usize::MAX {
            usize::MAX as int
        } else {
            self.spec_count(i, p) as int
        }
    }

    /// The level chosen among `j..top`, where `level` with the count `best`
    /// is the best level before `j`: levels are tried in turn; the first
    /// whose count is under half of its fan-out, divided by `2^comp`, ends
    /// the choice; a level whose count is above the best becomes the best.
    pub open spec fn spec_level_from(
        &self,
        i: int,
        comp: int,
        j: int,
        top: int,
        level: int,
        best: int,
    ) -> int
        decreases top - j,
    {
        if j >= top {
            level
        } else {
            let cc = self.count_cut(i, self.bit(i) + j);
            if cc < Self::threshold(j, comp) {
                level
            } else if cc > best {
                self.spec_level_from(i, comp, j + 1, top, j, cc)
            } else {
                self.spec_level_from(i, comp, j + 1, top, level, best)
            }
        }
    }

    /// Half of the fan-out of level `j`, divided by `2^comp`.
    pub open spec fn threshold(j: int, comp: int) -> int {
        (pow2(j as nat) / pow2(comp as nat)) as int / 2
    }

    /// The level chosen is under the top.
    pub proof fn lemma_level_from(&self, i: int, comp: int, j: int, top: int, level: int, best: int)
        requires
            0 <= level < j || (level == 0 && j >= 0),
        ensures
            self.spec_level_from(i, comp, j, top, level, best) < top || self.spec_level_from(
                i,
                comp,
                j,
                top,
                level,
                best,
            ) == level,
            0 <= self.spec_level_from(i, comp, j, top, level, best),
        decreases top - j,
    {
        if j < top {
            let cc = self.count_cut(i, self.bit(i) + j);
            if cc < Self::threshold(j, comp) {
            } else if cc > best {
                self.lemma_level_from(i, comp, j + 1, top, j, cc);
            } else {
                self.lemma_level_from(i, comp, j + 1, top, level, best);
            }
        }
    }

    /// The level of compression for `b`: how many bits, beside the one that
    /// `b` tests, a compressed branching made of `b` takes in.
    pub fn compression_level(&self, b: BranchingIndex, comp: u8) -> (r: u8)
        requires
            self.shape(),
            0 <= b.0 < self.len(),
            comp < 16,
        ensures
            r == self.spec_level_from(
                b.0 as int,
                comp as int,
                1,
                self.spec_level_max(b.0 as int, 15, self.esc(b.0 as int)),
                0,
                self.count_cut(b.0 as int, self.bit(b.0 as int)),
            ),
            r <= 14,
    {
        let ghost i = b.0 as int;
        proof {
            assert(self.shape_ok(i));
        }
        let node = *self.at(b);
        let top = self.compression_level_max(b, 15, node.escape);
        let mut level: u8 = 0;
        let mut best: usize = self.count_compressed_branching(b, node.bit);
        let mut j: u8 = 1;
        proof {
            self.lemma_level_from(i, comp as int, 1, top as int, 0, best as int);
        }
        while j < top
            invariant
                self.shape(),
                0 <= i < self.len(),
                i == b.0,
                node == self.nodes@[i],
                comp < 16,
                1 <= j <= 15,
                top <= 15,
                top == self.spec_level_max(i, 15, self.esc(i)),
                level < j,
                self.spec_level_from(i, comp as int, j as int, top as int, level as int, best as int)
                    == self.spec_level_from(
                    i,
                    comp as int,
                    1,
                    top as int,
                    0,
                    self.count_cut(i, self.bit(i)),
                ),
            decreases top - j,
        {
            proof {
                S::lemma_bit_range(self.path(i), 0);
                assert(self.shape_ok(i));
            }
            let p: u8 = node.bit + j;
            let cc = self.count_compressed_branching(b, p);
            let half = threshold_of(j, comp);
            proof {
                assert(cc == self.count_cut(i, self.bit(i) + j));
                assert(half == Self::threshold(j as int, comp as int));
            }
            if cc < half {
                assert(self.spec_level_from(
                    i,
                    comp as int,
                    j as int,
                    top as int,
                    level as int,
                    best as int,
                ) == level);
                return level;
            } else if cc > best {
                level = j;
                best = cc;
            }
            j += 1;
        }
        level
    }

    /// Goes down from the root by the bits of `slot` to the last branching on
    /// the way, and returns it with the leaf that it holds on the side of `slot`.
    pub fn search_deepest_candidate<B: BitSlot>(&self, slot: &B) -> (r: (BranchingIndex, LeafIndex))
        requires
            self.nodes_inv(),
        ensures
            0 <= r.0.0 < self.len(),
            self.on_trail(*slot, r.0.0 as int),
            r.1.0 < 0,
            self.next(r.0.0 as int, *slot) == NodeIndex(r.1.0),
            0 <= r.1.idx() < self.pfx@.len(),
    {
        let mut b = BranchingIndex::root();
        loop
            invariant
                self.nodes_inv(),
                0 <= b.0 < self.len(),
                self.on_trail(*slot, b.0 as int),
            decreases 256 - self.bit(b.0 as int),
        {
            proof {
                assert(self.node_ok(b.0 as int));
                assert(self.kid_ok(b.0 as int, 0));
                assert(self.kid_ok(b.0 as int, 1));
            }
            let n = self.at(b).child(slot);
            if n.is_leaf() {
                return (b, n.as_leaf());
            }
            proof {
                assert(self.node_ok(n.0 as int));
            }
            b = n.as_branching();
        }
    }
}

/// The radix trie: the arena of branchings and the arena of leaves.
pub struct RadixTrie<K: IpPrefix, V> {
    pub branching: BranchingTree<K::Slot>,
    pub leaves: TrieLeaves<Leaf<K, V>>,
}

impl<K: IpPrefix, V> RadixTrie<K, V> {
    /// Leaf `j` is valid, and the arena of branchings records its prefix.
    pub open spec fn leaf_matches(&self, j: int) -> bool {
        let p = self.leaves@[j].prefix;
        p.valid() && self.branching.pfx@[j] == (p.spec_bitslot(), p.spec_len())
    }

    /// The branchings hold the first `m` leaves.
    pub open spec fn linked(&self, m: int) -> bool {
        &&& self.branching.inv()
        &&& self.branching.pfx@.len() == m
        &&& m <= self.leaves@.len() <= INDEX_MAX
        &&& self.branching.len() <= m
        &&& self.branching.counted(0)
        &&& forall|j: int| 0 <= j < m ==> #[trigger] self.leaf_matches(j)
    }

    /// The branchings record the first `m` leaves; whether each leaf hangs
    /// where it should is left open.
    pub open spec fn recorded(&self, m: int) -> bool {
        &&& self.branching.nodes_inv()
        &&& self.branching.pfx@.len() == m
        &&& m <= self.leaves@.len() <= INDEX_MAX
        &&& forall|j: int| 0 <= j < m ==> #[trigger] self.leaf_matches(j)
    }

    /// The invariant of the trie: the branchings hold every leaf.
    pub open spec fn wf(&self) -> bool {
        self.linked(self.leaves@.len() as int)
    }

    /// The prefix of leaf `j` covers `q`.
    pub open spec fn covers<Q: IpPrefix>(&self, j: int, q: Q) -> bool {
        coverage(self.leaves@[j].prefix, q) != IpPrefixCoverage::NoCover
    }

    /// The prefix of leaf `j` denotes the same range as `q`.
    pub open spec fn holds<Q: IpPrefix>(&self, j: int, q: Q) -> bool {
        coverage(self.leaves@[j].prefix, q) == IpPrefixCoverage::SameRange
    }

    /// Among the first `m` leaves, leaf `l` is the longest prefix match of
    /// `q`: it covers `q`, and no leaf that covers `q` is longer.
    pub open spec fn is_lpm_in<Q: IpPrefix>(&self, m: int, l: int, q: Q) -> bool {
        &&& 0 <= l < m
        &&& self.covers(l, q)
        &&& forall|j: int|
            0 <= j < m && #[trigger] self.covers(j, q) ==> self.leaves@[j].prefix.spec_len()
                <= self.leaves@[l].prefix.spec_len()
    }

    /// Among the first `m` leaves that hang where they should, leaf `l` is
    /// the longest that covers `q`.
    pub open spec fn is_best_in<Q: IpPrefix>(&self, m: int, l: int, q: Q) -> bool {
        &&& 0 <= l < m
        &&& self.covers(l, q)
        &&& forall|j: int|
            0 <= j < m && self.branching.leaf_ok(j) && #[trigger] self.covers(j, q)
                ==> self.leaves@[j].prefix.spec_len() <= self.leaves@[l].prefix.spec_len()
    }

    /// Leaf `l` is the longest prefix match of `q`.
    pub open spec fn is_lpm<Q: IpPrefix>(&self, l: int, q: Q) -> bool {
        self.is_lpm_in(self.leaves@.len() as int, l, q)
    }

    /// The number of leaves, which is at least one.
    pub fn len(&self) -> (r: usize)
        requires
            self.wf(),
        ensures
            r == self.leaves@.len(),
            r >= 1,
    {
        self.leaves.len()
    }

    /// Goes down by the bits of `s`, which starts with the bits of `k`, then
    /// up again to the first leaf that covers `k`.  Returns the deepest
    /// branching on the way down with the leaf that it holds for `s`, then
    /// the branching and the leaf at which the way up ends.
    pub fn walk<Q>(&self, k: &Q, s: &Q::Slot) -> (r: (
        BranchingIndex,
        LeafIndex,
        BranchingIndex,
        LeafIndex,
    )) where Q: IpPrefix<Addr = K::Addr>, K: IpPrefixCovering<Q>
        requires
            self.recorded(self.branching.pfx@.len() as int),
            agree(*s, k.spec_bitslot(), k.spec_len() as int),
        ensures
            0 <= r.0.0 < self.branching.len(),
            self.branching.on_trail(*s, r.0.0 as int),
            r.1.0 < 0,
            self.branching.next(r.0.0 as int, *s) == NodeIndex(r.1.0),
            0 <= r.1.idx() < self.branching.pfx@.len(),
            0 <= r.2.0 < self.branching.len(),
            r.3.0 < 0,
            self.is_best_in(self.branching.pfx@.len() as int, r.3.idx(), *k),
            self.branching.inv() ==> self.is_lpm_in(
                self.branching.pfx@.len() as int,
                r.3.idx(),
                *k,
            ),
            self.branching.walked(
                *s,
                k.spec_len() as int,
                r.0.0 as int,
                r.2.0 as int,
                r.3.idx(),
            ),
    {
        let ghost lq = k.spec_len() as int;
        let ghost m = self.branching.pfx@.len() as int;
        let (n0, l0) = self.branching.search_deepest_candidate(s);
        let mut n = n0;
        let mut l = l0;
        proof {
            assert(self.branching.node_ok(n0.0 as int));
            assert forall|j: int|
                #![trigger self.covers(j, *k)]
                #![trigger self.branching.covered(j, *s, lq)]
                0 <= j < m implies (self.covers(j, *k) <==> self.branching.covered(j, *s, lq)) by {
                assert(self.leaf_matches(j));
            }
        }
        if l.0 != self.branching.at(n).escape.0 {
            if self.leaves.at(l).prefix.covers(k) {
                proof {
                    assert(self.branching.walked(*s, lq, n0.0 as int, n.0 as int, l.idx()));
                    assert forall|j: int|
                        0 <= j < m && self.branching.leaf_ok(j) && #[trigger] self.covers(
                            j,
                            *k,
                        ) implies self.leaves@[j].prefix.spec_len()
                        <= self.leaves@[l.idx()].prefix.spec_len() by {
                        self.branching.lemma_lookup_max(*s, lq, n0.0 as int, n.0 as int, l.idx(), j);
                        assert(self.leaf_matches(j));
                        assert(self.leaf_matches(l.idx()));
                    }
                }
                return (n0, l0, n, l);
            }
            proof {
                assert(!self.covers(l0.idx(), *k));
                assert(!self.branching.covered(l0.idx(), *s, lq));
            }
            l = self.branching.at(n).escape;
        }
        proof {
            assert forall|i: int|
                self.branching.upward(i, n0.0 as int) && self.branching.bit(i) > self.branching.bit(
                    n.0 as int,
                ) implies !self.branching.covered(#[trigger] self.branching.esc(i), *s, lq) by {
                self.branching.lemma_above(i, n0.0 as int);
            }
            assert(self.branching.walked(*s, lq, n0.0 as int, n.0 as int, l.idx()));
        }
        while !self.leaves.at(l).prefix.covers(k)
            invariant
                self.recorded(m),
                0 <= l.idx() < m,
                0 <= n.0 < self.branching.len(),
                l.0 < 0,
                l.idx() == self.branching.esc(n.0 as int),
                self.branching.walked(*s, lq, n0.0 as int, n.0 as int, l.idx()),
                !(l.idx() == -1 - self.branching.next(n0.0 as int, *s).0 && l.idx()
                    != self.branching.esc(n0.0 as int) && n == n0),
                forall|j: int|
                    #![trigger self.covers(j, *k)]
                    #![trigger self.branching.covered(j, *s, lq)]
                    0 <= j < m ==> (self.covers(j, *k) <==> self.branching.covered(j, *s, lq)),
            decreases self.branching.bit(n.0 as int),
        {
            proof {
                assert(self.branching.node_ok(n.0 as int));
                assert(self.leaf_matches(0));
                assert(self.branching.node_ok(0));
                assert(self.covers(0, *k));
                self.branching.lemma_walk_step(*s, lq, n0.0 as int, n.0 as int);
                assert(self.branching.node_ok(self.branching.par(n.0 as int)));
            }
            n = self.branching.at(n).parent;
            l = self.branching.at(n).escape;
        }
        proof {
            assert(self.branching.node_ok(n.0 as int));
            assert forall|j: int|
                0 <= j < m && self.branching.leaf_ok(j) && #[trigger] self.covers(
                    j,
                    *k,
                ) implies self.leaves@[j].prefix.spec_len()
                <= self.leaves@[l.idx()].prefix.spec_len() by {
                self.branching.lemma_lookup_max(*s, lq, n0.0 as int, n.0 as int, l.idx(), j);
                assert(self.leaf_matches(j));
                assert(self.leaf_matches(l.idx()));
            }
        }
        (n0, l0, n, l)
    }

    /// The branching and the leaf of the longest prefix match of `k`.
    pub fn inner_lookup<Q>(&self, k: &Q) -> (r: (BranchingIndex, LeafIndex)) where
        Q: IpPrefix<Addr = K::Addr>,
        K: IpPrefixCovering<Q>,

        requires
            self.wf(),
        ensures
            self.is_lpm(r.1.idx(), *k),
            r.1.0 < 0,
            0 <= r.0.0 < self.branching.len(),
    {
        let s = k.bitslot_trunc();
        let (_, _, n, l) = self.walk(k, &s);
        (n, l)
    }

    /// The longest prefix that covers `k`, and its value.
    pub fn lookup<Q>(&self, k: &Q) -> (r: (&K, &V)) where
        Q: IpPrefix<Addr = K::Addr>,
        K: IpPrefixCovering<Q>,

        requires
            self.wf(),
        ensures
            exists|l: int|
                self.is_lpm(l, *k) && *r.0 == (#[trigger] self.leaves@[l]).prefix && *r.1
                    == self.leaves@[l].value,
    {
        let (_, l) = self.inner_lookup(k);
        self.leaves.at(l).get()
    }

    /// The prefix that denotes the same range as `k`, and its value, if the trie holds one.
    pub fn get<Q>(&self, k: &Q) -> (r: Option<(&K, &V)>) where
        Q: IpPrefix<Addr = K::Addr>,
        K: IpPrefixCovering<Q>,

        requires
            self.wf(),
        ensures
            r.is_some() <==> exists|j: int|
                0 <= j < self.leaves@.len() && #[trigger] self.holds(j, *k),
            r matches Some(p) ==> exists|j: int|
                0 <= j < self.leaves@.len() && self.holds(j, *k) && *p.0 == (
                #[trigger] self.leaves@[j]).prefix && *p.1 == self.leaves@[j].value,
    {
        let (_, l) = self.inner_lookup(k);
        let kl = k.len();
        proof {
            assert forall|j: int|
                0 <= j < self.leaves@.len() && #[trigger] self.holds(j, *k) implies self.holds(
                l.idx(),
                *k,
            ) by {
                assert(self.covers(j, *k));
            }
        }
        if kl == self.leaves.at(l).prefix.len() {
            assert(self.holds(l.idx(), *k));
            Some(self.leaves.at(l).get())
        } else {
            None
        }
    }
}

impl<K: IpPrefix, V> RadixTrie<K, V> {
    /// Every leaf is valid, the first has the length 0, and no two leaves
    /// denote the same range.
    pub open spec fn leaves_apart(&self) -> bool {
        &&& 1 <= self.leaves@.len() <= INDEX_MAX
        &&& self.leaves@[0].prefix.spec_len() == 0
        &&& forall|j: int| 0 <= j < self.leaves@.len() ==> (#[trigger] self.leaves@[j]).prefix.valid()
        &&& forall|j1: int, j2: int|
            #![trigger self.leaves@[j1], self.leaves@[j2]]
            0 <= j1 < self.leaves@.len() && 0 <= j2 < self.leaves@.len() && j1 != j2 ==> coverage(
                self.leaves@[j1].prefix,
                self.leaves@[j2].prefix,
            ) != IpPrefixCoverage::SameRange
    }

    /// In a trie, no two leaves denote the same range.
    pub proof fn lemma_leaves_apart(&self)
        requires
            self.wf(),
        ensures
            self.leaves_apart(),
    {
        assert(self.leaf_matches(0));
        assert forall|j: int| 0 <= j < self.leaves@.len() implies (
        #[trigger] self.leaves@[j]).prefix.valid() by {
            assert(self.leaf_matches(j));
        }
        assert forall|j1: int, j2: int|
            #![trigger self.leaves@[j1], self.leaves@[j2]]
            0 <= j1 < self.leaves@.len() && 0 <= j2 < self.leaves@.len() && j1 != j2 implies coverage(
            self.leaves@[j1].prefix,
            self.leaves@[j2].prefix,
        ) != IpPrefixCoverage::SameRange by {
            assert(self.leaf_matches(j1));
            assert(self.leaf_matches(j2));
            if j1 < j2 {
                assert(!self.branching.same_range(j1, j2));
            } else {
                assert(!self.branching.same_range(j2, j1));
            }
        }
    }

    /// Sets leaf `m`, the first that the branchings do not hold yet, into
    /// the branchings.  `n0` is the deepest branching on the way down for the
    /// slot of the leaf, `l0` the leaf that it holds there.
    pub fn link(&mut self, added: LeafIndex, n0: BranchingIndex, l0: LeafIndex)
        requires
            old(self).linked(old(self).branching.pfx@.len() as int),
            added.idx() == old(self).branching.pfx@.len(),
            old(self).branching.pfx@.len() < old(self).leaves@.len(),
            old(self).leaves@[old(self).branching.pfx@.len() as int].prefix.valid(),
            0 <= n0.0 < old(self).branching.len(),
            l0.0 < 0,
            old(self).branching.on_trail(
                old(self).leaves@[old(self).branching.pfx@.len() as int].prefix.spec_bitslot(),
                n0.0 as int,
            ),
            old(self).branching.next(
                n0.0 as int,
                old(self).leaves@[old(self).branching.pfx@.len() as int].prefix.spec_bitslot(),
            ) == NodeIndex(l0.0),
            forall|j: int|
                0 <= j < old(self).branching.pfx@.len() ==> coverage(
                    (#[trigger] old(self).leaves@[j]).prefix,
                    old(self).leaves@[old(self).branching.pfx@.len() as int].prefix,
                ) != IpPrefixCoverage::SameRange,
        ensures
            final(self).linked(old(self).branching.pfx@.len() as int + 1),
            final(self).leaves == old(self).leaves,
            old(self).branching.len() <= final(self).branching.len() <= old(self).branching.len()
                + 1,
    {
        let ghost m = self.branching.pfx@.len() as int;
        let p = self.leaves.at(added).prefix;
        let s = p.bitslot();
        let pl = p.len();
        proof {
            p.lemma_valid();
            assert(self.branching.node_ok(n0.0 as int));
            assert(self.branching.kid_ok(n0.0 as int, self.branching.side(n0.0 as int, s)));
            assert(self.leaf_matches(l0.idx()));
            assert forall|j: int| 0 <= j < m implies !(#[trigger] self.branching.plen(j) == pl
                && agree(self.branching.pslot(j), s, pl as int)) by {
                assert(self.leaf_matches(j));
                assert(coverage(self.leaves@[j].prefix, p) != IpPrefixCoverage::SameRange);
            }
        }
        let ds = self.leaves.at(l0).prefix.bitslot();
        let dl = self.leaves.at(l0).prefix.len();
        self.branching.insert_prefix(added, &s, pl, n0, l0, &ds, dl);
        proof {
            assert forall|j: int| 0 <= j < m + 1 implies #[trigger] self.leaf_matches(j) by {
                if j < m {
                    assert(old(self).leaf_matches(j));
                }
            }
        }
    }
}

impl<K: IpPrefix, V> RadixTrie<K, V> {
    /// Gives back the memory that the two arenas do not use.
    pub fn shrink_to_fit(&mut self)
        requires
            old(self).wf(),
        ensures
            final(self).wf(),
            final(self).leaves@ == old(self).leaves@,
            final(self).branching.nodes@ == old(self).branching.nodes@,
    {
        self.leaves.shrink_to_fit();
        vec_shrink_to_fit(&mut self.branching.nodes);
        proof {
            let b0 = old(self).branching;
            let b1 = self.branching;
            assert forall|i: int| 0 <= i < b1.len() implies #[trigger] b1.node_ok(i) by {
                assert(b0.node_ok(i));
                assert(b0.kid_ok(i, 0));
                assert(b0.kid_ok(i, 1));
                assert(b1.kid_ok(i, 0));
                assert(b1.kid_ok(i, 1));
            }
            assert forall|i: int| 0 < i < b1.len() implies #[trigger] b1.sided(i) by {
                assert(b0.sided(i));
            }
            b0.lemma_counted_same(&b1, 0);
            assert forall|j: int| 0 <= j < b1.pfx@.len() implies #[trigger] b1.leaf_ok(j) by {
                assert(b0.leaf_ok(j));
            }
            assert forall|j1: int, j2: int| 0 <= j1 < j2 < b1.pfx@.len() implies !#[trigger] b1.same_range(
                j1,
                j2,
            ) by {
                assert(!b0.same_range(j1, j2));
            }
            assert forall|j: int| 0 <= j < self.leaves@.len() implies #[trigger] self.leaf_matches(
                j,
            ) by {
                assert(old(self).leaf_matches(j));
            }
        }
    }

    /// Stores `v` for the prefix `k`.  Where the trie holds a prefix of the
    /// same range, that prefix stays, `v` takes the place of its value, and
    /// the former value is returned; else `k` is stored with `v` as a new
    /// leaf, and `None` is returned.
    pub fn insert(&mut self, k: K, v: V) -> (r: Option<V>)
        requires
            old(self).wf(),
            old(self).leaves@.len() < INDEX_MAX,
        ensures
            final(self).wf(),
            r.is_some() <==> exists|j: int|
                0 <= j < old(self).leaves@.len() && #[trigger] old(self).holds(j, k),
            r matches Some(w) ==> exists|j: int|
                0 <= j < old(self).leaves@.len() && #[trigger] old(self).holds(j, k) && w == old(
                    self,
                ).leaves@[j].value && final(self).leaves@ == old(self).leaves@.update(
                    j,
                    Leaf { prefix: old(self).leaves@[j].prefix, value: v },
                ),
            r.is_none() ==> final(self).leaves@ == old(self).leaves@.push(
                Leaf { prefix: k, value: v },
            ),
            old(self).inserted(final(self), k, v, r),
            r.is_some() ==> final(self).branching == old(self).branching,
            old(self).branching.len() <= final(self).branching.len() <= old(self).branching.len()
                + 1,
    {
        let ghost m = self.leaves@.len() as int;
        let addedleaf = self.leaves.push(Leaf::new(k, v));
        let s = k.bitslot();
        proof {
            assert forall|j: int| 0 <= j < m implies #[trigger] self.leaf_matches(j) by {
                assert(old(self).leaf_matches(j));
            }
            assert forall|j: int| 0 <= j < m implies (old(self).holds(j, k) == self.holds(j, k)) by {}
        }
        let (n0, l0, _, l) = self.walk(&k, &s);
        let kl = k.len();
        proof {
            assert forall|j: int| 0 <= j < m && #[trigger] self.holds(j, k) implies self.holds(
                l.idx(),
                k,
            ) by {
                assert(self.covers(j, k));
            }
        }
        match self.leaves.at(l).prefix.covering(&k) {
            IpPrefixCoverage::SameRange => {
                let provisional = self.leaves.remove_last().unwrap();
                let (_, value) = provisional.into_pair();
                let kept = self.leaves.at(l).prefix;
                let former = self.leaves.replace_at(l, Leaf::new(kept, value));
                proof {
                    assert(self.leaves@ =~= old(self).leaves@.update(
                        l.idx(),
                        Leaf { prefix: old(self).leaves@[l.idx()].prefix, value: v },
                    ));
                    assert forall|j: int| 0 <= j < m implies #[trigger] self.leaf_matches(j) by {
                        assert(old(self).leaf_matches(j));
                    }
                    assert(old(self).holds(l.idx(), k));
                }
                Some(former.into_pair().1)
            },
            _ => {
                proof {
                    assert forall|j: int| 0 <= j < m implies coverage(
                        (#[trigger] self.leaves@[j]).prefix,
                        k,
                    ) != IpPrefixCoverage::SameRange by {
                        if self.holds(j, k) {
                            assert(self.holds(l.idx(), k));
                        }
                    }
                }
                self.link(addedleaf, n0, l0);
                proof {
                    assert forall|j: int| 0 <= j < m implies !#[trigger] old(self).holds(j, k) by {
                        assert(old(self).leaves@[j] == self.leaves@[j]);
                    }
                }
                None
            },
        }
    }

    /// Stores `v` for the prefix `k`.  Where the trie holds a prefix of the
    /// same range, `k` and `v` take the place of that prefix and of its
    /// value, which are returned; else `k` is stored with `v` as a new leaf,
    /// and `None` is returned.
    pub fn replace(&mut self, k: K, v: V) -> (r: Option<Leaf<K, V>>)
        requires
            old(self).wf(),
            old(self).leaves@.len() < INDEX_MAX,
        ensures
            final(self).wf(),
            r.is_some() <==> exists|j: int|
                0 <= j < old(self).leaves@.len() && #[trigger] old(self).holds(j, k),
            r matches Some(w) ==> exists|j: int|
                0 <= j < old(self).leaves@.len() && #[trigger] old(self).holds(j, k) && w == old(
                    self,
                ).leaves@[j] && final(self).leaves@ == old(self).leaves@.update(
                    j,
                    Leaf { prefix: k, value: v },
                ),
            r.is_none() ==> final(self).leaves@ == old(self).leaves@.push(
                Leaf { prefix: k, value: v },
            ),
    {
        let ghost m = self.leaves@.len() as int;
        let addedleaf = self.leaves.push(Leaf::new(k, v));
        let s = k.bitslot();
        proof {
            assert forall|j: int| 0 <= j < m implies #[trigger] self.leaf_matches(j) by {
                assert(old(self).leaf_matches(j));
            }
            assert forall|j: int| 0 <= j < m implies (old(self).holds(j, k) == self.holds(j, k)) by {}
        }
        let (n0, l0, _, l) = self.walk(&k, &s);
        let kl = k.len();
        proof {
            assert forall|j: int| 0 <= j < m && #[trigger] self.holds(j, k) implies self.holds(
                l.idx(),
                k,
            ) by {
                assert(self.covers(j, k));
            }
        }
        match self.leaves.at(l).prefix.covering(&k) {
            IpPrefixCoverage::SameRange => {
                let provisional = self.leaves.remove_last().unwrap();
                let former = self.leaves.replace_at(l, provisional);
                let ghost b0 = self.branching;
                let ghost p0 = b0.pfx@.update(l.idx(), (k.spec_bitslot(), k.spec_len()));
                self.branching.pfx = Ghost(p0);
                proof {
                    assert(old(self).leaf_matches(l.idx()));
                    b0.lemma_reslot(&self.branching, l.idx(), k.spec_bitslot());
                    assert(self.leaves@ =~= old(self).leaves@.update(
                        l.idx(),
                        Leaf { prefix: k, value: v },
                    ));
                    assert forall|j: int| 0 <= j < m implies #[trigger] self.leaf_matches(j) by {
                        assert(old(self).leaf_matches(j));
                    }
                    assert(old(self).holds(l.idx(), k));
                }
                Some(former)
            },
            _ => {
                proof {
                    assert forall|j: int| 0 <= j < m implies coverage(
                        (#[trigger] self.leaves@[j]).prefix,
                        k,
                    ) != IpPrefixCoverage::SameRange by {
                        if self.holds(j, k) {
                            assert(self.holds(l.idx(), k));
                        }
                    }
                }
                self.link(addedleaf, n0, l0);
                proof {
                    assert forall|j: int| 0 <= j < m implies !#[trigger] old(self).holds(j, k) by {
                        assert(old(self).leaves@[j] == self.leaves@[j]);
                    }
                }
                None
            },
        }
    }
}

impl<K: IpPrefix, V> RadixTrie<K, V> {
    /// Takes away the prefix that denotes the same range as `k`, if the trie
    /// holds one, and returns its value.  The last leaf takes the place of
    /// the leaf that is taken away.  The root prefix cannot be taken away.
    pub fn remove<Q>(&mut self, k: &Q) -> (r: Option<V>) where
        Q: IpPrefix<Addr = K::Addr>,
        K: IpPrefixCovering<Q>,

        requires
            old(self).wf(),
            k.spec_len() != 0,
        ensures
            final(self).wf(),
            r.is_some() <==> exists|j: int|
                0 <= j < old(self).leaves@.len() && #[trigger] old(self).holds(j, *k),
            r matches Some(w) ==> exists|j: int|
                0 < j < old(self).leaves@.len() && #[trigger] old(self).holds(j, *k) && w == old(
                    self,
                ).leaves@[j].value && final(self).leaves@ == old(self).leaves@.update(
                    j,
                    old(self).leaves@.last(),
                ).drop_last(),
            r.is_none() ==> final(self).leaves@ == old(self).leaves@,
            old(self).removed(final(self), *k, r),
            r.is_none() ==> final(self).branching == old(self).branching,
            final(self).branching.len() <= old(self).branching.len(),
    {
        let s = k.bitslot_trunc();
        let (n0, l0, n, l) = self.walk(k, &s);
        let kl = k.len();
        proof {
            assert forall|j: int|
                0 <= j < self.leaves@.len() && #[trigger] self.holds(j, *k) implies self.holds(
                l.idx(),
                *k,
            ) by {
                assert(self.covers(j, *k));
            }
        }
        if kl != self.leaves.at(l).prefix.len() {
            None
        } else {
            proof {
                assert(self.holds(l.idx(), *k));
                assert(self.leaf_matches(0));
                assert(self.branching.node_ok(n.0 as int));
                assert(self.branching.node_ok(n0.0 as int));
            }
            let hangs = l.0 == l0.0 && n.0 == n0.0 && self.branching.at(n0).escape.0 != l.0;
            let v = if hangs {
                self.branching.unlink_child(n0, &s);
                n0
            } else {
                self.branching.unlink_escape(n)
            };
            proof {
                assert forall|j: int|
                    0 <= j < self.leaves@.len() implies #[trigger] self.leaf_matches(j) by {
                    assert(old(self).leaf_matches(j));
                }
            }
            let removed = self.close_gap(v, l);
            Some(removed.into_pair().1)
        }
    }

    /// Ends the removal of leaf `l`, to which no branching refers any
    /// more: cuts out the branchings that have become useless from `v`
    /// upwards, gives the index `l` to the last leaf, and takes the leaf out
    /// of the arena of leaves.
    pub fn close_gap(&mut self, v: BranchingIndex, l: LeafIndex) -> (r: Leaf<K, V>)
        requires
            old(self).branching.holed(l.idx(), v.0 as int),
            old(self).branching.counted(1),
            0 <= v.0 < old(self).branching.len(),
            l.0 < 0,
            old(self).branching.pfx@.len() == old(self).leaves@.len(),
            old(self).leaves@.len() <= INDEX_MAX,
            forall|j: int| 0 <= j < old(self).leaves@.len() ==> #[trigger] old(self).leaf_matches(j),
        ensures
            final(self).wf(),
            r == old(self).leaves@[l.idx()],
            final(self).leaves@ == old(self).leaves@.update(
                l.idx(),
                old(self).leaves@.last(),
            ).drop_last(),
            final(self).branching.len() <= old(self).branching.len(),
    {
        let ghost hole = l.idx();
        self.branching.prune(v, Ghost(hole));
        let ghost t1 = *self;
        let last = LeafIndex::from_index(self.leaves.len() - 1);
        proof {
            self.branching.lemma_holed_nodes(hole);
            assert forall|j: int| 0 <= j < self.leaves@.len() implies #[trigger] self.leaf_matches(
                j,
            ) by {
                assert(old(self).leaf_matches(j));
            }
        }
        if last.0 == l.0 {
            self.branching.forget_last();
        } else {
            let p = self.leaves.at(last).prefix;
            let ps = p.bitslot();
            proof {
                assert(self.leaf_matches(last.idx()));
                p.lemma_valid();
            }
            let (m0, _, mn, lf) = self.walk(&p, &ps);
            proof {
                let b = self.branching;
                assert(b.clear_of(m0.0 as int, hole));
                assert(b.clear_of(mn.0 as int, hole));
                assert(b.leaf_ok(last.idx()));
                assert(self.covers(last.idx(), p));
                assert(self.leaf_matches(lf.idx()));
                if lf.idx() != last.idx() {
                    assert(b.same_range(lf.idx(), last.idx()));
                    assert(!b.same_range(lf.idx(), last.idx()));
                }
            }
            self.branching.rename_leaf(m0, mn, &ps, last, l);
        }
        let removed = self.leaves.remove(l);
        proof {
            assert forall|j: int| 0 <= j < self.leaves@.len() implies #[trigger] self.leaf_matches(
                j,
            ) by {
                let i = if j == l.idx() { last.idx() } else { j };
                assert(t1.leaf_matches(i));
            }
            self.branching.lemma_few_branchings();
        }
        removed
    }
}

impl<K: IpPrefix, V> RadixTrie<K, V> {
    /// The trie keeps its invariant when values change and prefixes stay.
    pub proof fn lemma_values_free(&self, t: &Self)
        requires
            self.wf(),
            t.branching == self.branching,
            t.leaves@.len() == self.leaves@.len(),
            forall|j: int|
                0 <= j < self.leaves@.len() ==> (#[trigger] t.leaves@[j]).prefix
                    == self.leaves@[j].prefix,
        ensures
            t.wf(),
    {
        assert forall|j: int| 0 <= j < t.leaves@.len() implies #[trigger] t.leaf_matches(j) by {
            assert(self.leaf_matches(j));
        }
    }

    /// The longest prefix that covers `k`, and its value, which can be changed.
    pub fn lookup_mut<Q>(&mut self, k: &Q) -> (r: (&K, &mut V)) where
        Q: IpPrefix<Addr = K::Addr>,
        K: IpPrefixCovering<Q>,

        requires
            old(self).wf(),
        ensures
            exists|l: int|
                old(self).is_lpm(l, *k) && *r.0 == (#[trigger] old(self).leaves@[l]).prefix
                    && *r.1 == old(self).leaves@[l].value && final(self).leaves@ == old(
                    self,
                ).leaves@.update(l, Leaf { prefix: old(self).leaves@[l].prefix, value: *final(r.1) }),
            final(self).branching == old(self).branching,
    {
        let (_, l) = self.inner_lookup(k);
        self.leaves.at_mut(l).get_mut()
    }

    /// The prefix that denotes the same range as `k`, and its value, which
    /// can be changed, if the trie holds one.
    pub fn get_mut<Q>(&mut self, k: &Q) -> (r: Option<(&K, &mut V)>) where
        Q: IpPrefix<Addr = K::Addr>,
        K: IpPrefixCovering<Q>,

        requires
            old(self).wf(),
        ensures
            r.is_some() <==> exists|j: int|
                0 <= j < old(self).leaves@.len() && #[trigger] old(self).holds(j, *k),
            r matches Some(p) ==> exists|j: int|
                0 <= j < old(self).leaves@.len() && old(self).holds(j, *k) && *p.0 == (
                #[trigger] old(self).leaves@[j]).prefix && *p.1 == old(self).leaves@[j].value
                    && final(self).leaves@ == old(self).leaves@.update(
                    j,
                    Leaf { prefix: old(self).leaves@[j].prefix, value: *final(p.1) },
                ),
            r.is_none() ==> final(self).leaves@ == old(self).leaves@,
            final(self).branching == old(self).branching,
    {
        let (_, l) = self.inner_lookup(k);
        let kl = k.len();
        proof {
            assert forall|j: int|
                0 <= j < self.leaves@.len() && #[trigger] self.holds(j, *k) implies self.holds(
                l.idx(),
                *k,
            ) by {
                assert(self.covers(j, *k));
            }
        }
        if kl == self.leaves.at(l).prefix.len() {
            assert(self.holds(l.idx(), *k));
            Some(self.leaves.at_mut(l).get_mut())
        } else {
            None
        }
    }

    /// The leaves, in the order of the arena: the root leaf first.
    pub fn iter(&self) -> (r: Vec<&Leaf<K, V>>)
        ensures
            r@.len() == self.leaves@.len(),
            forall|j: int| 0 <= j < r@.len() ==> *(#[trigger] r@[j]) == self.leaves@[j],
    {
        let mut out: Vec<&Leaf<K, V>> = Vec::new();
        let n = self.leaves.len();
        let mut j: usize = 0;
        while j < n
            invariant
                0 <= j <= n,
                n == self.leaves@.len(),
                out@.len() == j,
                forall|i: int| 0 <= i < j ==> *(#[trigger] out@[i]) == self.leaves@[i],
            decreases n - j,
        {
            out.push(&self.leaves.0[j]);
            j += 1;
        }
        out
    }
}

impl<K: IpPrefix, V> RadixTrie<K, V> {
    /// A trie with the same prefixes, laid out in the same way, whose values
    /// are those that `f` gives for the values of this trie.
    pub fn map<W, F: Fn(&V) -> W>(&self, f: F) -> (r: RadixTrie<K, W>)
        requires
            self.wf(),
            forall|j: int|
                0 <= j < self.leaves@.len() ==> f.requires((&(#[trigger] self.leaves@[j]).value,)),
        ensures
            r.wf(),
            r.branching.nodes@ == self.branching.nodes@,
            r.leaves@.len() == self.leaves@.len(),
            forall|j: int|
                0 <= j < self.leaves@.len() ==> (#[trigger] r.leaves@[j]).prefix
                    == self.leaves@[j].prefix && f.ensures(
                    (&self.leaves@[j].value,),
                    r.leaves@[j].value,
                ),
    {
        let branching = self.branching.duplicate();
        let n = self.leaves.len();
        let mut leaves: Vec<Leaf<K, W>> = Vec::with_capacity(n);
        let mut j: usize = 0;
        while j < n
            invariant
                0 <= j <= n,
                n == self.leaves@.len(),
                leaves@.len() == j,
                forall|i: int|
                    0 <= i < self.leaves@.len() ==> f.requires(
                        (&(#[trigger] self.leaves@[i]).value,),
                    ),
                forall|i: int|
                    0 <= i < j ==> (#[trigger] leaves@[i]).prefix == self.leaves@[i].prefix
                        && f.ensures((&self.leaves@[i].value,), leaves@[i].value),
            decreases n - j,
        {
            let leaf = &self.leaves.0[j];
            assert(*leaf == self.leaves@[j as int]);
            let w = f(&leaf.value);
            leaves.push(Leaf::new(leaf.prefix, w));
            j += 1;
        }
        let r = RadixTrie { branching, leaves: TrieLeaves(leaves) };
        proof {
            self.branching.lemma_inv_same(&r.branching);
            self.branching.lemma_counted_same(&r.branching, 0);
            assert forall|i: int| 0 <= i < r.leaves@.len() implies #[trigger] r.leaf_matches(i) by {
                assert(self.leaf_matches(i));
            }
        }
        r
    }
}

impl<K: IpPrefix, V> RadixTrie<K, V> {
    /// The trie holds a prefix that denotes the same range as `q`.
    pub open spec fn present<Q: IpPrefix>(&self, q: Q) -> bool {
        exists|j: int| 0 <= j < self.leaves@.len() && #[trigger] self.holds(j, q)
    }

    /// What `insert` does: `after` is this trie once `v` has been stored for
    /// `k`, and `r` is what `insert` returned.
    pub open spec fn inserted(&self, after: &Self, k: K, v: V, r: Option<V>) -> bool {
        &&& after.wf()
        &&& r.is_some() <==> self.present(k)
        &&& r matches Some(w) ==> exists|j: int|
            0 <= j < self.leaves@.len() && #[trigger] self.holds(j, k) && w
                == self.leaves@[j].value && after.leaves@ == self.leaves@.update(
                j,
                Leaf { prefix: self.leaves@[j].prefix, value: v },
            )
        &&& r.is_none() ==> after.leaves@ == self.leaves@.push(Leaf { prefix: k, value: v })
    }

    /// What `remove` does: `after` is this trie once the prefix of the range
    /// of `q` has been taken away, and `r` is what `remove` returned.
    pub open spec fn removed<Q: IpPrefix>(&self, after: &Self, q: Q, r: Option<V>) -> bool {
        &&& after.wf()
        &&& r.is_some() <==> self.present(q)
        &&& r matches Some(w) ==> exists|j: int|
            0 < j < self.leaves@.len() && #[trigger] self.holds(j, q) && w
                == self.leaves@[j].value && after.leaves@ == self.leaves@.update(
                j,
                self.leaves@.last(),
            ).drop_last()
        &&& r.is_none() ==> after.leaves@ == self.leaves@
    }

    /// A prefix that covers a prefix covers what that prefix covers.
    pub proof fn lemma_covers_trans<A: IpPrefix, B: IpPrefix, C: IpPrefix>(a: A, b: B, c: C)
        requires
            coverage(a, b) != IpPrefixCoverage::NoCover,
            coverage(b, c) != IpPrefixCoverage::NoCover,
        ensures
            coverage(a, c) != IpPrefixCoverage::NoCover,
    {
    }

    /// Two prefixes of the same range cover the same prefixes, and either
    /// has the range of what has the range of the other.
    pub proof fn lemma_same_range<A: IpPrefix, B: IpPrefix, C: IpPrefix>(a: A, b: B, c: C)
        requires
            coverage(a, b) == IpPrefixCoverage::SameRange,
        ensures
            coverage(b, a) == IpPrefixCoverage::SameRange,
            coverage(a, c) == coverage(b, c),
            coverage(c, a) == coverage(c, b),
    {
    }

    /// The longest prefix match is one leaf: no two leaves are the longest
    /// that cover a prefix.
    pub proof fn lemma_lpm_unique<Q: IpPrefix>(&self, q: Q, l1: int, l2: int)
        requires
            self.wf(),
            self.is_lpm(l1, q),
            self.is_lpm(l2, q),
        ensures
            l1 == l2,
    {
        self.lemma_leaves_apart();
        if l1 != l2 {
            let a = self.leaves@[l1];
            let b = self.leaves@[l2];
            assert(a.prefix.spec_len() == b.prefix.spec_len());
            assert(coverage(a.prefix, b.prefix) == IpPrefixCoverage::SameRange);
        }
    }

    /// At most one leaf has the range of a prefix.
    pub proof fn lemma_holder_unique<Q: IpPrefix>(&self, q: Q, j1: int, j2: int)
        requires
            self.wf(),
            0 <= j1 < self.leaves@.len(),
            0 <= j2 < self.leaves@.len(),
            self.holds(j1, q),
            self.holds(j2, q),
        ensures
            j1 == j2,
    {
        self.lemma_leaves_apart();
        if j1 != j2 {
            let a = self.leaves@[j1];
            let b = self.leaves@[j2];
            assert(coverage(a.prefix, b.prefix) == IpPrefixCoverage::SameRange);
        }
    }

    /// The leaf that has the range of a prefix is the longest prefix match of
    /// that prefix: a lookup of a prefix that the trie holds finds it.
    pub proof fn lemma_holder_is_lpm<Q: IpPrefix>(&self, q: Q, j: int, l: int)
        requires
            self.wf(),
            0 <= j < self.leaves@.len(),
            self.holds(j, q),
            self.is_lpm(l, q),
        ensures
            l == j,
    {
        assert(self.covers(j, q));
        assert(self.holds(l, q));
        self.lemma_holder_unique(q, j, l);
    }

    /// A prefix stored twice: the second `insert` returns the value of the
    /// first, and the trie then holds the second value for the prefix, in
    /// the one leaf that has its range.
    pub proof fn lemma_insert_twice(
        &self,
        t1: &Self,
        t2: &Self,
        p: K,
        v: V,
        w: V,
        r1: Option<V>,
        r2: Option<V>,
    )
        requires
            self.wf(),
            p.valid(),
            self.inserted(t1, p, v, r1),
            t1.inserted(t2, p, w, r2),
        ensures
            r2 == Some(v),
            exists|j: int|
                0 <= j < t2.leaves@.len() && #[trigger] t2.holds(j, p) && t2.leaves@[j].value == w,
            t2.leaves@.len() == t1.leaves@.len(),
    {
        let j1 = choose|j: int|
            0 <= j < t1.leaves@.len() && #[trigger] t1.holds(j, p) && t1.leaves@[j].value == v;
        if r1.is_none() {
            let j = self.leaves@.len() as int;
            assert(t1.holds(j, p));
            assert(t1.leaves@[j].value == v);
        } else {
            let j = choose|j: int|
                0 <= j < self.leaves@.len() && #[trigger] self.holds(j, p) && r1.unwrap()
                    == self.leaves@[j].value && t1.leaves@ == self.leaves@.update(
                    j,
                    Leaf { prefix: self.leaves@[j].prefix, value: v },
                );
            assert(t1.holds(j, p));
            assert(t1.leaves@[j].value == v);
        }
        assert(t1.present(p));
        let j2 = choose|j: int|
            0 <= j < t1.leaves@.len() && #[trigger] t1.holds(j, p) && r2.unwrap()
                == t1.leaves@[j].value && t2.leaves@ == t1.leaves@.update(
                j,
                Leaf { prefix: t1.leaves@[j].prefix, value: w },
            );
        t1.lemma_holder_unique(p, j1, j2);
        assert(t2.holds(j2, p));
    }

    /// The number of leaves after an `insert`: one more where the prefix was
    /// new, the same where the trie held its range.
    pub proof fn lemma_insert_len(&self, after: &Self, k: K, v: V, r: Option<V>)
        requires
            self.wf(),
            self.inserted(after, k, v, r),
        ensures
            after.leaves@.len() == self.leaves@.len() + if self.present(k) {
                0int
            } else {
                1int
            },
    {
    }

    /// After a `remove` that returned a value, the trie holds one leaf less
    /// and no prefix of the range that was taken away; every other leaf is
    /// still there, and no leaf has come.
    pub proof fn lemma_remove_effect<Q: IpPrefix>(&self, after: &Self, q: Q, r: Option<V>)
        requires
            self.wf(),
            self.removed(after, q, r),
        ensures
            r.is_some() ==> after.leaves@.len() == self.leaves@.len() - 1 && !after.present(q),
            forall|i: int|
                0 <= i < self.leaves@.len() && !#[trigger] self.holds(i, q)
                    ==> after.leaves@.contains(self.leaves@[i]),
            forall|i: int|
                0 <= i < after.leaves@.len() ==> self.leaves@.contains(#[trigger] after.leaves@[i]),
    {
        let n = self.leaves@.len() as int;
        if r.is_some() {
            let j = choose|j: int|
                0 < j < self.leaves@.len() && #[trigger] self.holds(j, q) && r.unwrap()
                    == self.leaves@[j].value && after.leaves@ == self.leaves@.update(
                    j,
                    self.leaves@.last(),
                ).drop_last();
            assert forall|i2: int| 0 <= i2 < after.leaves@.len() implies !#[trigger] after.holds(
                i2,
                q,
            ) by {
                let i = if i2 == j { n - 1 } else { i2 };
                assert(after.leaves@[i2] == self.leaves@[i]);
                if self.holds(i, q) {
                    self.lemma_holder_unique(q, i, j);
                }
            }
            assert forall|i: int|
                0 <= i < self.leaves@.len() && !#[trigger] self.holds(
                    i,
                    q,
                ) implies after.leaves@.contains(self.leaves@[i]) by {
                let i2 = if i == n - 1 { j } else { i };
                assert(after.leaves@[i2] == self.leaves@[i]);
            }
            assert forall|i: int| 0 <= i < after.leaves@.len() implies self.leaves@.contains(
                #[trigger] after.leaves@[i],
            ) by {
                let i0 = if i == j { n - 1 } else { i };
                assert(self.leaves@[i0] == after.leaves@[i]);
            }
        } else {
            assert forall|i: int|
                0 <= i < self.leaves@.len() && !#[trigger] self.holds(
                    i,
                    q,
                ) implies after.leaves@.contains(self.leaves@[i]) by {
                assert(after.leaves@[i] == self.leaves@[i]);
            }
            assert forall|i: int| 0 <= i < after.leaves@.len() implies self.leaves@.contains(
                #[trigger] after.leaves@[i],
            ) by {
                assert(self.leaves@[i] == after.leaves@[i]);
            }
        }
    }

    /// After a `remove` that returned a value, the longest prefix match of
    /// the prefix that was taken away is the nearest of the prefixes that
    /// are left: a prefix that the trie held before, that covers `q` as a
    /// wider range, and than which none that is left and covers `q` is longer.
    pub proof fn lemma_lookup_after_remove<Q: IpPrefix>(
        &self,
        after: &Self,
        q: Q,
        r: Option<V>,
        l: int,
    )
        requires
            self.wf(),
            self.removed(after, q, r),
            r.is_some(),
            after.is_lpm(l, q),
        ensures
            self.leaves@.contains(after.leaves@[l]),
            coverage(after.leaves@[l].prefix, q) == IpPrefixCoverage::WiderRange,
            forall|i: int|
                0 <= i < self.leaves@.len() && #[trigger] self.covers(i, q) && !self.holds(i, q)
                    ==> self.leaves@[i].prefix.spec_len() <= after.leaves@[l].prefix.spec_len(),
    {
        self.lemma_remove_effect(after, q, r);
        assert(!after.holds(l, q));
        assert forall|i: int|
            0 <= i < self.leaves@.len() && #[trigger] self.covers(i, q) && !self.holds(
                i,
                q,
            ) implies self.leaves@[i].prefix.spec_len() <= after.leaves@[l].prefix.spec_len() by {
            assert(after.leaves@.contains(self.leaves@[i]));
            let i2 = choose|i2: int|
                0 <= i2 < after.leaves@.len() && after.leaves@[i2] == self.leaves@[i];
            assert(after.covers(i2, q));
        }
    }

    /// Where the trie holds a prefix that covers `q`, the longest prefix
    /// match of anything that `q` covers is at least as long as that prefix.
    pub proof fn lemma_lookup_not_shorter<Q: IpPrefix, A: IpPrefix>(
        &self,
        j: int,
        q: Q,
        a: A,
        l: int,
    )
        requires
            self.wf(),
            0 <= j < self.leaves@.len(),
            self.covers(j, q),
            coverage(q, a) != IpPrefixCoverage::NoCover,
            self.is_lpm(l, a),
        ensures
            self.leaves@[l].prefix.spec_len() >= self.leaves@[j].prefix.spec_len(),
    {
        assert(self.covers(j, a));
    }

    /// The leaves are the root prefix, first, and prefixes of ranges that
    /// differ from one another: a list of the leaves has each prefix once.
    pub proof fn lemma_each_once(&self)
        requires
            self.wf(),
        ensures
            self.leaves@.len() >= 1,
            self.leaves@[0].prefix.spec_len() == 0,
            forall|j1: int, j2: int|
                #![trigger self.leaves@[j1], self.leaves@[j2]]
                0 <= j1 < self.leaves@.len() && 0 <= j2 < self.leaves@.len() && j1 != j2
                    ==> coverage(self.leaves@[j1].prefix, self.leaves@[j2].prefix)
                    != IpPrefixCoverage::SameRange,
    {
        self.lemma_leaves_apart();
    }
}

impl<K: IpRootPrefix, V> RadixTrie<K, V> {
    /// The trie that holds the root prefix only, with `value`.
    pub fn new(value: V, capacity: usize) -> (r: Self)
        ensures
            r.wf(),
            r.leaves@.len() == 1,
            r.leaves@[0].value == value,
            r.leaves@[0].prefix.spec_len() == 0,
    {
        let root = K::root();
        let mut branching = BranchingTree::new(capacity / 2);
        let ghost b0 = branching;
        let ghost p0 = b0.pfx@.update(0, (root.spec_bitslot(), 0u8));
        branching.pfx = Ghost(p0);
        proof {
            assert(b0.node_ok(0));
            b0.lemma_reslot(&branching, 0, root.spec_bitslot());
            assert(branching.pfx@ =~= seq![(root.spec_bitslot(), 0u8)]);
        }
        let leaves = TrieLeaves::new(capacity, root, value);
        let r = Self { branching, leaves };
        proof {
            assert(r.leaf_matches(0));
        }
        r
    }
}

impl<K: IpPrefix, V> RadixTrie<K, V> {
    /// Gives each leaf the value that `f` returns for its prefix and its
    /// value.  The prefixes and the branchings stay as they are.
    pub fn iter_mut<F: Fn(&K, &V) -> V>(&mut self, f: &F)
        requires
            old(self).wf(),
            forall|j: int|
                0 <= j < old(self).leaves@.len() ==> f.requires(
                    (&(#[trigger] old(self).leaves@[j]).prefix, &old(self).leaves@[j].value),
                ),
        ensures
            final(self).wf(),
            final(self).branching == old(self).branching,
            final(self).leaves@.len() == old(self).leaves@.len(),
            forall|j: int|
                0 <= j < old(self).leaves@.len() ==> (#[trigger] final(self).leaves@[j]).prefix
                    == old(self).leaves@[j].prefix && f.ensures(
                    (&old(self).leaves@[j].prefix, &old(self).leaves@[j].value),
                    final(self).leaves@[j].value,
                ),
    {
        self.leaves.update_values(f);
        proof {
            old(self).lemma_values_free(&*self);
        }
    }
}

/// Half of the fan-out of level `j`, divided by `2^comp`.
pub fn threshold_of(j: u8, comp: u8) -> (r: usize)
    requires
        1 <= j < 16,
        comp < 16,
    ensures
        r == (pow2(j as nat) / pow2(comp as nat)) as int / 2,
{
    proof {
        vstd::arithmetic::power2::lemma2_to64();
        assert((1usize << (j as usize)) == pow2(j as nat)) by {
            vstd::bits::lemma_usize_shl_is_mul(1usize, j as usize);
            vstd::bits::lemma_usize_pow2_no_overflow(j as nat);
        }
        assert((1usize << (comp as usize)) == pow2(comp as nat)) by {
            vstd::bits::lemma_usize_shl_is_mul(1usize, comp as usize);
            vstd::bits::lemma_usize_pow2_no_overflow(comp as nat);
        }
        assert(pow2(comp as nat) > 0);
    }
    ((1usize << (j as usize)) / (1usize << (comp as usize))) / 2
}

} // verus!
