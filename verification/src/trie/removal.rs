//! Taking a leaf away from the radix trie: the leaf is unlinked, branchings
//! that have become useless are pruned, and the last leaf takes the index
//! of the leaf that has gone.
use vstd::prelude::*;
use crate::prefix::cover::agree;
use crate::prefix::slot::BitSlot;
use crate::trie::common::{BranchingIndex, LeafIndex, NodeIndex, INDEX_MAX};
use crate::trie::patricia::{Branching, BranchingTree};

verus! {

impl<S: BitSlot> BranchingTree<S> {
    /// What holds of the child `k` of branching `i` while a leaf is taken
    /// away: as `kid_ok`, but a child that is the escape may stand at any
    /// branching.
    pub open spec fn kid_ok_w(&self, i: int, k: int) -> bool {
        let c = self.kid(i, k).0 as int;
        if c >= 0 {
            &&& 0 < c < self.len()
            &&& self.par(c) == i
            &&& self.side(i, self.path(c)) == k
        } else {
            let j = -1 - c;
            &&& j < self.pfx@.len()
            &&& (j != self.esc(i) ==> {
                &&& self.plen(j) >= self.bit(i)
                &&& agree(self.pslot(j), self.path(i), self.bit(i) - 1)
                &&& self.pslot(j).bit(self.bit(i)) == (k == 1)
                &&& self.home@[j] == i
            })
        }
    }

    /// What holds of branching `i` while a leaf is taken away.
    pub open spec fn node_ok_w(&self, i: int) -> bool {
        let b = self.nodes@[i];
        let p = self.par(i);
        let e = self.esc(i);
        &&& 1 <= b.bit <= S::width()
        &&& 0 <= e < self.pfx@.len()
        &&& 0 <= p < self.len()
        &&& (i == 0 ==> b.bit == 1 && p == 0 && e == 0)
        &&& (i > 0 ==> {
            &&& self.bit(p) < b.bit
            &&& self.next(p, self.path(i)) == NodeIndex(i as i32)
            &&& agree(self.path(i), self.path(p), self.bit(p) - 1)
            &&& (e == self.esc(p) || b.bit == self.plen(e) + 1)
        })
        &&& self.kid_ok_w(i, 0)
        &&& self.kid_ok_w(i, 1)
        &&& self.plen(e) < b.bit
        &&& agree(self.pslot(e), self.path(i), self.plen(e))
    }

    /// Nothing refers to leaf `hole` at branching `i`.
    pub open spec fn clear_of(&self, i: int, hole: int) -> bool {
        &&& self.esc(i) != hole
        &&& self.kid(i, 0).0 != -1 - hole
        &&& self.kid(i, 1).0 != -1 - hole
    }

    /// The state of the arena while leaf `hole` is taken away: nothing
    /// refers to the leaf; the branching `weak`, if there is one, may hold
    /// its escape as a child though it tests a later bit, and on both sides.
    pub open spec fn holed(&self, hole: int, weak: int) -> bool {
        &&& 1 <= self.len() <= INDEX_MAX
        &&& self.paths@.len() == self.len()
        &&& 1 <= self.pfx@.len() <= INDEX_MAX + 1
        &&& self.home@.len() == self.pfx@.len()
        &&& self.plen(0) == 0
        &&& 0 < hole < self.pfx@.len()
        &&& forall|i: int| 0 <= i < self.len() ==> #[trigger] self.node_ok_w(i)
        &&& forall|i: int| 0 <= i < self.len() && i != weak ==> #[trigger] self.node_ok(i)
        &&& forall|i: int| 0 < i < self.len() && i != weak ==> #[trigger] self.sided(i)
        &&& forall|i: int| 0 <= i < self.len() ==> #[trigger] self.clear_of(i, hole)
        &&& forall|j: int| 0 <= j < self.pfx@.len() && j != hole ==> #[trigger] self.leaf_ok(j)
        &&& forall|j1: int, j2: int|
            0 <= j1 < j2 < self.pfx@.len() ==> !#[trigger] self.same_range(j1, j2)
        &&& (weak != -1 ==> 0 <= weak < self.len())
    }

    /// Every branching that has the escape `l` lies in the zone of the
    /// branching at which `l` first is the escape.
    pub proof fn lemma_escape_zone(&self, top: int, l: int, i: int)
        requires
            self.nodes_inv(),
            0 < top < self.len(),
            self.esc(top) == l,
            self.esc(self.par(top)) != l,
            0 <= i < self.len(),
            self.esc(i) == l,
        ensures
            self.in_zone(top, l, i),
        decreases self.bit(i),
    {
        assert(self.node_ok(i));
        assert(self.node_ok(top));
        assert(self.node_ok(0));
        if i != top {
            let p = self.par(i);
            assert(self.node_ok(p));
            if i == 0 {
                // the root leaf is no longer than any bit position
                assert(self.node_ok(self.par(top)));
                assert(self.bit(top) == self.plen(l) + 1);
                assert(false);
            } else if self.esc(p) == l {
                self.lemma_escape_zone(top, l, p);
                self.lemma_zone_below(top, l, p);
                if p != top {
                    self.lemma_above(top, p);
                }
            } else {
                let sl = self.pslot(l);
                self.lemma_trail_of_path(sl, i);
                self.lemma_trail_of_path(sl, top);
                self.lemma_trail_linear(sl, i, top);
                if self.above(i, top) {
                    self.lemma_above(i, top);
                }
                if self.above(top, i) {
                    self.lemma_above(top, i);
                }
                assert(false);
            }
        }
    }

    /// A branching that holds its escape as a child only where it may is as
    /// the invariant wants it.
    pub proof fn lemma_weak_ok(&self, i: int)
        requires
            self.node_ok_w(i),
            0 <= i < self.len(),
            self.plen(0) == 0,
            i == 0 || self.esc(i) != self.esc(self.par(i)) || (self.kid(i, 0).0 != -1 - self.esc(i)
                && self.kid(i, 1).0 != -1 - self.esc(i)),
        ensures
            self.node_ok(i),
    {
        assert(self.kid_ok_w(i, 0));
        assert(self.kid_ok_w(i, 1));
        assert(self.kid_ok(i, 0));
        assert(self.kid_ok(i, 1));
    }

    /// The ghost state is that of `before`.
    pub open spec fn same_ghost(&self, before: &Self) -> bool {
        &&& self.paths == before.paths
        &&& self.pfx == before.pfx
        &&& self.home == before.home
    }

    /// What holds of branching `i` once the leaf on side `k` of `n` has given
    /// way to the escape of `n`.
    pub proof fn lemma_unhang_node(&self, t: &Self, n: int, k: int, i: int)
        requires
            self.inv(),
            0 <= n < self.len(),
            0 <= k <= 1,
            self.kid(n, k).0 < 0,
            -1 - self.kid(n, k).0 != self.esc(n),
            t.kid_set_from(self, n, k, NodeIndex(self.nodes@[n].escape.0)),
            t.same_ghost(self),
            0 <= i < self.len(),
        ensures
            t.node_ok_w(i),
            i != n ==> t.node_ok(i),
            i != n && i > 0 ==> t.sided(i),
            t.clear_of(i, -1 - self.kid(n, k).0),
            t.credit(i) == self.credit(i) - if i == n {
                1int
            } else {
                0int
            },
    {
        let l = -1 - self.kid(n, k).0;
        assert(self.node_ok(i));
        if i > 0 {
            assert(self.sided(i));
        }
        assert(self.kid_ok(i, 0));
        assert(self.kid_ok(i, 1));
        assert(self.node_ok(n));
        assert(self.kid_ok(n, 0));
        assert(self.kid_ok(n, 1));
        self.lemma_child_is_no_escape(n, k, i);
        assert(self.node_ok(self.par(i)));
        assert(t.kid_ok_w(i, 0));
        assert(t.kid_ok_w(i, 1));
        if i != n {
            assert(t.kid_ok(i, 0));
            assert(t.kid_ok(i, 1));
        }
    }

    /// What holds of leaf `j` once the leaf on side `k` of `n` has given way
    /// to the escape of `n`.
    pub proof fn lemma_unhang_leaf(&self, t: &Self, n: int, k: int, j: int)
        requires
            self.inv(),
            0 <= n < self.len(),
            0 <= k <= 1,
            self.kid(n, k).0 < 0,
            -1 - self.kid(n, k).0 != self.esc(n),
            t.kid_set_from(self, n, k, NodeIndex(self.nodes@[n].escape.0)),
            t.same_ghost(self),
            0 <= j < self.pfx@.len(),
            j != -1 - self.kid(n, k).0,
        ensures
            t.leaf_ok(j),
    {
        assert(self.leaf_ok(j));
        assert(self.node_ok(n));
        assert(self.kid_ok(n, 0));
        assert(self.kid_ok(n, 1));
    }

    /// Once the leaf on side `k` of `n` has given way to the escape of `n`,
    /// nothing refers to the leaf, and `n` alone may be weak.
    pub proof fn lemma_unhang(&self, t: &Self, n: int, k: int)
        requires
            self.inv(),
            0 <= n < self.len(),
            0 <= k <= 1,
            self.kid(n, k).0 < 0,
            -1 - self.kid(n, k).0 != self.esc(n),
            t.kid_set_from(self, n, k, NodeIndex(self.nodes@[n].escape.0)),
            t.same_ghost(self),
        ensures
            t.holed(-1 - self.kid(n, k).0, n),
            self.counted(0) ==> t.counted(1),
    {
        let l = -1 - self.kid(n, k).0;
        assert forall|i: int| 0 <= i < self.len() && i != n implies #[trigger] t.credit(i)
            == self.credit(i) by {
            self.lemma_unhang_node(t, n, k, i);
        }
        self.lemma_unhang_node(t, n, k, n);
        self.lemma_credits_diff(t, self.len(), n, -1);
        assert(self.node_ok(n));
        assert(self.kid_ok(n, k));
        assert(self.node_ok(0));
        self.lemma_child_is_no_escape(n, k, 0);
        assert forall|i: int| 0 <= i < t.len() implies #[trigger] t.node_ok_w(i) by {
            self.lemma_unhang_node(t, n, k, i);
        }
        assert forall|i: int| 0 <= i < t.len() && i != n implies #[trigger] t.node_ok(i) by {
            self.lemma_unhang_node(t, n, k, i);
        }
        assert forall|i: int| 0 < i < t.len() && i != n implies #[trigger] t.sided(i) by {
            self.lemma_unhang_node(t, n, k, i);
        }
        assert forall|i: int| 0 <= i < t.len() implies #[trigger] t.clear_of(i, l) by {
            self.lemma_unhang_node(t, n, k, i);
        }
        assert forall|j: int| 0 <= j < t.pfx@.len() && j != l implies #[trigger] t.leaf_ok(j) by {
            self.lemma_unhang_leaf(t, n, k, j);
        }
        assert forall|j1: int, j2: int| 0 <= j1 < j2 < t.pfx@.len() implies !#[trigger] t.same_range(
            j1,
            j2,
        ) by {
            assert(!self.same_range(j1, j2));
        }
    }

    /// Puts the escape of `n` in the place of the leaf that `n` holds on the
    /// side of `slot`.
    pub fn unlink_child<B: BitSlot>(&mut self, n: BranchingIndex, slot: &B)
        requires
            old(self).inv(),
            0 <= n.0 < old(self).len(),
            old(self).next(n.0 as int, *slot).0 < 0,
            -1 - old(self).next(n.0 as int, *slot).0 != old(self).esc(n.0 as int),
        ensures
            final(self).holed(-1 - old(self).next(n.0 as int, *slot).0, n.0 as int),
            final(self).same_skeleton(old(self)),
            final(self).same_ghost(old(self)),
            old(self).counted(0) ==> final(self).counted(1),
    {
        let ghost t0 = *self;
        let ghost k = t0.side(n.0 as int, *slot);
        let mut b = self.nodes[n.index()];
        let escape = NodeIndex::of_leaf(b.escape);
        *b.child_mut(slot) = escape;
        self.nodes.set(n.index(), b);
        proof {
            t0.lemma_unhang(&*self, n.0 as int, k);
        }
    }

    /// What holds of branching `i` once the escape of `top`, which the
    /// parent of `top` does not share, has given way to the escape of that parent.
    pub proof fn lemma_unescape_node(&self, t: &Self, top: int, i: int)
        requires
            self.inv(),
            0 < top < self.len(),
            self.esc(self.par(top)) != self.esc(top),
            t.replaced_from(
                self,
                top,
                self.nodes@[top].escape,
                self.nodes@[self.par(top)].escape,
            ),
            0 <= i < self.len(),
        ensures
            t.node_ok_w(i),
            i != top ==> t.node_ok(i),
            i != top && i > 0 ==> t.sided(i),
            t.clear_of(i, self.esc(top)),
            t.credit(i) == self.credit(i) - if i == top {
                1int
            } else {
                0int
            },
    {
        let l = self.esc(top);
        let p = self.par(top);
        let e2 = self.esc(p);
        if i > 0 {
            assert(self.sided(i));
        }
        assert(self.node_ok(top));
        assert(self.node_ok(p));
        assert(self.node_ok(i));
        assert(self.kid_ok(i, 0));
        assert(self.kid_ok(i, 1));
        let q = self.par(i);
        assert(self.node_ok(q));
        if self.esc(i) == l {
            self.lemma_escape_zone(top, l, i);
        }
        if self.esc(q) == l {
            self.lemma_escape_zone(top, l, q);
        }
        if self.in_zone(top, l, i) {
            assert(self.esc(i) == l);
            if i != top {
                self.lemma_zone_below(top, l, i);
                self.lemma_above(top, i);
                self.lemma_inv_shape();
                self.lemma_below_agrees(top, i);
                assert(self.in_zone(top, l, q));
            }
            assert(agree(self.pslot(e2), self.path(i), self.plen(e2)));
            assert(t.kid_ok_w(i, 0));
            assert(t.kid_ok_w(i, 1));
            if i != top {
                assert(t.kid_ok(i, 0));
                assert(t.kid_ok(i, 1));
            }
        } else {
            assert(t.nodes@[i] == self.nodes@[i]);
            if self.kid(i, 0).0 == -1 - l {
                self.lemma_child_is_no_escape(i, 0, top);
            }
            if self.kid(i, 1).0 == -1 - l {
                self.lemma_child_is_no_escape(i, 1, top);
            }
            assert(t.kid_ok(i, 0));
            assert(t.kid_ok(i, 1));
        }
    }

    /// What holds of leaf `j` once the escape of `top` has given way to the
    /// escape of the parent of `top`.
    pub proof fn lemma_unescape_leaf(&self, t: &Self, top: int, j: int)
        requires
            self.inv(),
            0 < top < self.len(),
            self.esc(self.par(top)) != self.esc(top),
            t.replaced_from(
                self,
                top,
                self.nodes@[top].escape,
                self.nodes@[self.par(top)].escape,
            ),
            0 <= j < self.pfx@.len(),
            j != self.esc(top),
        ensures
            t.leaf_ok(j),
    {
        let l = self.esc(top);
        let p = self.par(top);
        let h = self.home@[j];
        assert(self.leaf_ok(j));
        assert(self.node_ok(top));
        assert(self.node_ok(p));
        assert(self.node_ok(h));
        assert(self.kid_ok(h, 0));
        assert(self.kid_ok(h, 1));
        if self.esc(h) == l {
            self.lemma_escape_zone(top, l, h);
            if h != top {
                self.lemma_zone_below(top, l, h);
                self.lemma_above(top, h);
            }
        }
        if !self.in_zone(top, l, h) {
            assert(t.nodes@[h] == self.nodes@[h]);
        }
    }

    /// Once the escape of `top` has given way to the escape of the parent of
    /// `top`, nothing refers to the leaf, and `top` alone may be weak.
    pub proof fn lemma_unescape(&self, t: &Self, top: int)
        requires
            self.inv(),
            0 < top < self.len(),
            self.esc(self.par(top)) != self.esc(top),
            t.replaced_from(
                self,
                top,
                self.nodes@[top].escape,
                self.nodes@[self.par(top)].escape,
            ),
        ensures
            t.holed(self.esc(top), top),
            self.counted(0) ==> t.counted(1),
    {
        let l = self.esc(top);
        assert forall|i: int| 0 <= i < self.len() && i != top implies #[trigger] t.credit(i)
            == self.credit(i) by {
            self.lemma_unescape_node(t, top, i);
        }
        self.lemma_unescape_node(t, top, top);
        self.lemma_credits_diff(t, self.len(), top, -1);
        assert(self.node_ok(top));
        assert(self.node_ok(self.par(top)));
        assert(self.node_ok(0));
        assert forall|i: int| 0 <= i < t.len() implies #[trigger] t.node_ok_w(i) by {
            self.lemma_unescape_node(t, top, i);
        }
        assert forall|i: int| 0 <= i < t.len() && i != top implies #[trigger] t.node_ok(i) by {
            self.lemma_unescape_node(t, top, i);
        }
        assert forall|i: int| 0 < i < t.len() && i != top implies #[trigger] t.sided(i) by {
            self.lemma_unescape_node(t, top, i);
        }
        assert forall|i: int| 0 <= i < t.len() implies #[trigger] t.clear_of(i, l) by {
            self.lemma_unescape_node(t, top, i);
        }
        assert forall|j: int| 0 <= j < t.pfx@.len() && j != l implies #[trigger] t.leaf_ok(j) by {
            self.lemma_unescape_leaf(t, top, j);
        }
        assert forall|j1: int, j2: int| 0 <= j1 < j2 < t.pfx@.len() implies !#[trigger] t.same_range(
            j1,
            j2,
        ) by {
            assert(!self.same_range(j1, j2));
        }
        if l == 0 {
            self.lemma_escape_zone(top, l, 0);
            self.lemma_zone_below(top, l, 0);
            assert(false);
        }
    }

    /// Puts the escape of the branching above in the place of the escape
    /// of `n`, from the first branching that has this escape downwards.
    /// Returns that branching.
    pub fn unlink_escape(&mut self, n: BranchingIndex) -> (top: BranchingIndex)
        requires
            old(self).inv(),
            0 <= n.0 < old(self).len(),
            old(self).esc(n.0 as int) != 0,
        ensures
            0 < top.0 < final(self).len(),
            final(self).holed(old(self).esc(n.0 as int), top.0 as int),
            final(self).same_skeleton(old(self)),
            final(self).same_ghost(old(self)),
            old(self).counted(0) ==> final(self).counted(1),
    {
        let l = self.nodes[n.index()].escape;
        let mut b = n;
        proof {
            assert(self.node_ok(0));
            assert(self.node_ok(b.0 as int));
        }
        while self.nodes[self.nodes[b.index()].parent.index()].escape.0 == l.0
            invariant
                *self == *old(self),
                self.inv(),
                0 <= b.0 < self.len(),
                self.esc(b.0 as int) == l.idx(),
                l.idx() != 0,
                self.node_ok(b.0 as int),
                self.node_ok(0),
            decreases self.bit(b.0 as int),
        {
            b = self.nodes[b.index()].parent;
            proof {
                assert(self.node_ok(b.0 as int));
            }
        }
        let e = self.nodes[self.nodes[b.index()].parent.index()].escape;
        proof {
            self.lemma_inv_shape();
            assert(self.node_ok(self.par(b.0 as int)));
        }
        self.replace_escape_leaf(b, l, e);
        proof {
            old(self).lemma_unescape(&*self, b.0 as int);
        }
        b
    }

    /// Nothing refers to branching `dead` at branching `i`.
    pub open spec fn apart_from(&self, i: int, dead: int) -> bool {
        &&& self.par(i) != dead
        &&& self.kid(i, 0).0 != dead
        &&& self.kid(i, 1).0 != dead
    }

    /// What holds of leaf `j` while branching `dead` is out of use.
    pub open spec fn leaf_kept(&self, j: int, dead: int) -> bool {
        self.leaf_ok(j) && self.home@[j] != dead
    }

    /// The state of the arena while leaf `hole` is taken away and the
    /// branching `dead` has been cut out: nothing refers to either.
    pub open spec fn pruned(&self, hole: int, weak: int, dead: int) -> bool {
        &&& 1 <= self.len() <= INDEX_MAX
        &&& self.paths@.len() == self.len()
        &&& 1 <= self.pfx@.len() <= INDEX_MAX + 1
        &&& self.home@.len() == self.pfx@.len()
        &&& self.plen(0) == 0
        &&& 0 < hole < self.pfx@.len()
        &&& 0 < dead < self.len()
        &&& forall|i: int| 0 <= i < self.len() && i != dead ==> #[trigger] self.node_ok_w(i)
        &&& forall|i: int|
            0 <= i < self.len() && i != dead && i != weak ==> #[trigger] self.node_ok(i)
        &&& forall|i: int|
            0 < i < self.len() && i != dead && i != weak ==> #[trigger] self.sided(i)
        &&& forall|i: int| 0 <= i < self.len() && i != dead ==> #[trigger] self.clear_of(i, hole)
        &&& forall|i: int| 0 <= i < self.len() && i != dead ==> #[trigger] self.apart_from(i, dead)
        &&& forall|j: int|
            0 <= j < self.pfx@.len() && j != hole ==> #[trigger] self.leaf_kept(j, dead)
        &&& forall|j1: int, j2: int|
            0 <= j1 < j2 < self.pfx@.len() ==> !#[trigger] self.same_range(j1, j2)
        &&& (weak != -1 ==> 0 <= weak < self.len() && weak != dead)
    }

    /// Branching `v` holds its escape on side `k`, and can be cut out:
    /// it shares the escape of its parent, or holds its escape on both sides.
    pub open spec fn prunable(&self, v: int, k: int) -> bool {
        &&& 0 < v < self.len()
        &&& 0 <= k <= 1
        &&& self.kid(v, k).0 == -1 - self.esc(v)
        &&& (self.esc(v) == self.esc(self.par(v)) || self.kid(v, 1 - k).0 == -1 - self.esc(v))
    }

    /// The arena is `before` with branching `v` cut out: the parent of `v`
    /// holds the node `o` in the place of `v`.
    pub open spec fn detached_from(&self, before: &Self, v: int, o: NodeIndex) -> bool {
        let p = before.par(v);
        let kp = before.side(p, before.path(v));
        &&& self.len() == before.len()
        &&& self.paths == before.paths
        &&& self.pfx == before.pfx
        &&& Self::with_kid(self.nodes@[p], before.nodes@[p], kp, o)
        &&& (o.0 >= 0 ==> Self::with_parent(self.nodes@[o.0 as int], before.nodes@[o.0 as int], p))
        &&& forall|i: int|
            0 <= i < before.len() && i != p && i != o.0 ==> #[trigger] self.nodes@[i]
                == before.nodes@[i]
        &&& self.home@ == if o.0 < 0 && -1 - o.0 != before.esc(p) {
            before.home@.update(-1 - o.0, p)
        } else {
            before.home@
        }
    }

    /// The branching at which a leaf first is the escape is the home of that leaf.
    pub proof fn lemma_home_of_escape(&self, v: int)
        requires
            self.nodes_inv(),
            0 < v < self.len(),
            self.esc(v) != self.esc(self.par(v)),
            self.leaf_ok(self.esc(v)),
        ensures
            self.home@[self.esc(v)] == v,
    {
        let e = self.esc(v);
        let h = self.home@[e];
        assert(self.node_ok(v));
        assert(self.node_ok(h));
        if self.esc(h) == e {
            self.lemma_escape_zone(v, e, h);
            if h != v {
                self.lemma_zone_below(v, e, h);
                self.lemma_above(v, h);
                assert(self.next(h, self.pslot(e)).0 == -1 - e);
            }
        }
        if h != v {
            self.lemma_child_is_no_escape(h, self.side(h, self.pslot(e)), v);
        }
    }

    /// What the parts of the state give at a branching that can be cut out.
    pub proof fn lemma_prunable(&self, hole: int, v: int, k: int)
        requires
            self.holed(hole, v),
            self.prunable(v, k),
        ensures
            ({
                let p = self.par(v);
                let o = self.kid(v, 1 - k);
                let kp = self.side(p, self.path(v));
                let e = self.esc(v);
                &&& 0 <= p < self.len()
                &&& p != v
                &&& self.bit(p) < self.bit(v)
                &&& self.kid(p, kp).0 == v
                &&& self.kid(p, 1 - kp).0 != v
                &&& agree(self.path(v), self.path(p), self.bit(p) - 1)
                &&& (o.0 >= 0 ==> {
                    &&& 0 < o.0 < self.len()
                    &&& o.0 != v
                    &&& o.0 != p
                    &&& self.par(o.0 as int) == v
                    &&& self.bit(v) < self.bit(o.0 as int)
                    &&& agree(self.path(o.0 as int), self.path(v), self.bit(v) - 1)
                    &&& self.esc(v) == self.esc(p)
                    &&& (self.esc(o.0 as int) == e || self.bit(o.0 as int) == self.plen(
                        self.esc(o.0 as int),
                    ) + 1)
                })
                &&& (o.0 < 0 ==> {
                    let j = -1 - o.0;
                    &&& 0 <= j < self.pfx@.len()
                    &&& j != hole
                    &&& (j != self.esc(p) ==> {
                        &&& self.home@[j] == v
                        &&& self.plen(j) >= self.bit(p)
                        &&& agree(self.pslot(j), self.path(v), self.bit(p))
                    })
                })
                &&& forall|j: int|
                    0 <= j < self.pfx@.len() && j != hole && j != -1 - o.0 ==> self.home@[j] != v
            }),
    {
        let p = self.par(v);
        let o = self.kid(v, 1 - k);
        let e = self.esc(v);
        assert(self.node_ok_w(v));
        assert(self.kid_ok_w(v, 0));
        assert(self.kid_ok_w(v, 1));
        assert(self.node_ok_w(p));
        assert(self.kid_ok_w(p, 0));
        assert(self.kid_ok_w(p, 1));
        assert(self.clear_of(v, hole));
        assert(self.leaf_ok(e));
        if self.esc(v) != self.esc(p) {
            self.lemma_weak_ok(v);
            assert forall|i: int| 0 <= i < self.len() implies #[trigger] self.node_ok(i) by {}
            self.lemma_home_of_escape(v);
        }
        if o.0 >= 0 {
            assert(self.node_ok(o.0 as int));
        }
        assert forall|j: int|
            0 <= j < self.pfx@.len() && j != hole && j != -1 - o.0 implies self.home@[j] != v by {
            assert(self.leaf_ok(j));
        }
    }

    /// The branching that may be weak once `v` has been cut out: the parent
    /// of `v`, where it now holds its own escape in the place of `v`.
    pub open spec fn weak_after(&self, v: int, k: int) -> int {
        if self.kid(v, 1 - k).0 == -1 - self.esc(self.par(v)) {
            self.par(v)
        } else {
            -1
        }
    }

    /// What holds of branching `i` once `v` has been cut out.
    pub proof fn lemma_detach_node(&self, t: &Self, hole: int, v: int, k: int, i: int)
        requires
            self.holed(hole, v),
            self.prunable(v, k),
            t.detached_from(self, v, self.kid(v, 1 - k)),
            0 <= i < self.len(),
            i != v,
        ensures
            t.node_ok_w(i),
            i != self.weak_after(v, k) ==> t.node_ok(i),
            i != self.weak_after(v, k) && i > 0 ==> t.sided(i),
            t.clear_of(i, hole),
            t.apart_from(i, v),
            t.credit(i) == self.credit(i) - if i == self.weak_after(v, k) {
                1int
            } else {
                0int
            },
    {
        let p = self.par(v);
        let o = self.kid(v, 1 - k);
        let kp = self.side(p, self.path(v));
        self.lemma_prunable(hole, v, k);
        assert(self.node_ok(i));
        if i > 0 {
            assert(self.sided(i));
        }
        assert(self.kid_ok(i, 0));
        assert(self.kid_ok(i, 1));
        assert(self.clear_of(i, hole));
        assert(self.clear_of(v, hole));
        let q = self.par(i);
        assert(self.node_ok_w(q));
        assert(self.kid_ok_w(q, 0));
        assert(self.kid_ok_w(q, 1));
        assert(self.node_ok_w(v));
        assert(self.node_ok(p));
        assert(self.kid_ok(p, 0));
        assert(self.kid_ok(p, 1));
        if i == p {
            assert(t.kid_ok_w(i, 0));
            assert(t.kid_ok_w(i, 1));
            if i != self.weak_after(v, k) {
                assert(t.kid_ok(i, 0));
                assert(t.kid_ok(i, 1));
            }
        } else if i == o.0 {
            assert(t.kid_ok(i, 0));
            assert(t.kid_ok(i, 1));
        } else {
            assert(t.nodes@[i] == self.nodes@[i]);
            assert(t.kid_ok(i, 0));
            assert(t.kid_ok(i, 1));
        }
    }

    /// What holds of leaf `j` once `v` has been cut out.
    pub proof fn lemma_detach_leaf(&self, t: &Self, hole: int, v: int, k: int, j: int)
        requires
            self.holed(hole, v),
            self.prunable(v, k),
            t.detached_from(self, v, self.kid(v, 1 - k)),
            0 <= j < self.pfx@.len(),
            j != hole,
        ensures
            t.leaf_kept(j, v),
    {
        let p = self.par(v);
        let o = self.kid(v, 1 - k);
        self.lemma_prunable(hole, v, k);
        assert(self.leaf_ok(j));
        let h = self.home@[j];
        assert(self.node_ok_w(h));
        assert(self.kid_ok_w(h, 0));
        assert(self.kid_ok_w(h, 1));
        assert(self.node_ok(p));
        assert(self.kid_ok(p, 0));
        assert(self.kid_ok(p, 1));
        assert(self.node_ok_w(v));
    }

    /// Once `v` has been cut out, nothing refers to it.
    pub proof fn lemma_detach(&self, t: &Self, hole: int, v: int, k: int)
        requires
            self.holed(hole, v),
            self.prunable(v, k),
            t.detached_from(self, v, self.kid(v, 1 - k)),
        ensures
            t.pruned(hole, self.weak_after(v, k), v),
            self.counted(1) ==> t.counted_but(1, v),
    {
        let w = self.weak_after(v, k);
        self.lemma_prunable(hole, v, k);
        assert forall|i: int| 0 <= i < self.len() && i != v && i != w implies #[trigger] t.credit(
            i,
        ) == self.credit(i) by {
            self.lemma_detach_node(t, hole, v, k, i);
        }
        if w != -1 {
            self.lemma_detach_node(t, hole, v, k, w);
        }
        self.lemma_credits_diff(t, self.len(), v, w);
        assert(self.node_ok_w(v));
        assert(self.node_ok_w(self.par(v)));
        assert(t.nodes@[v] == self.nodes@[v]);
        assert(self.credit(v) == if w != -1 {
            -2int
        } else {
            -1int
        });
        assert forall|i: int| 0 <= i < t.len() && i != v implies #[trigger] t.node_ok_w(i) by {
            self.lemma_detach_node(t, hole, v, k, i);
        }
        assert forall|i: int| 0 <= i < t.len() && i != v && i != w implies #[trigger] t.node_ok(
            i,
        ) by {
            self.lemma_detach_node(t, hole, v, k, i);
        }
        assert forall|i: int| 0 < i < t.len() && i != v && i != w implies #[trigger] t.sided(i) by {
            self.lemma_detach_node(t, hole, v, k, i);
        }
        assert forall|i: int| 0 <= i < t.len() && i != v implies #[trigger] t.clear_of(i, hole) by {
            self.lemma_detach_node(t, hole, v, k, i);
        }
        assert forall|i: int| 0 <= i < t.len() && i != v implies #[trigger] t.apart_from(i, v) by {
            self.lemma_detach_node(t, hole, v, k, i);
        }
        assert forall|j: int| 0 <= j < t.pfx@.len() && j != hole implies #[trigger] t.leaf_kept(
            j,
            v,
        ) by {
            self.lemma_detach_leaf(t, hole, v, k, j);
        }
        assert forall|j1: int, j2: int| 0 <= j1 < j2 < t.pfx@.len() implies !#[trigger] t.same_range(
            j1,
            j2,
        ) by {
            assert(!self.same_range(j1, j2));
        }
    }

    /// Cuts the branching `v` out, which holds its escape as a child: the
    /// parent of `v` takes the other child of `v` in the place of `v`.
    /// Returns the parent where it now holds its own escape in that place.
    pub fn detach(&mut self, v: BranchingIndex, Ghost(hole): Ghost<int>) -> (w: Option<
        BranchingIndex,
    >)
        requires
            old(self).holed(hole, v.0 as int),
            old(self).prunable(v.0 as int, 0) || old(self).prunable(v.0 as int, 1),
        ensures
            final(self).pruned(
                hole,
                match w {
                    Some(x) => x.0 as int,
                    None => -1,
                },
                v.0 as int,
            ),
            final(self).len() == old(self).len(),
            final(self).pfx == old(self).pfx,
            old(self).counted(1) ==> final(self).counted_but(1, v.0 as int),
            forall|i: int| 0 <= i < final(self).len() ==> final(self).bit(i) == old(self).bit(i),
            w matches Some(x) ==> 0 <= x.0 < final(self).len() && final(self).bit(x.0 as int)
                < final(self).bit(v.0 as int),
    {
        let ghost t0 = *self;
        let b = self.nodes[v.index()];
        let p = b.parent;
        let o = if b.child[0].0 == b.escape.0 {
            b.child[1]
        } else {
            b.child[0]
        };
        let ghost k: int = if b.child[0].0 == b.escape.0 { 0 } else { 1 };
        proof {
            t0.lemma_prunable(hole, v.0 as int, k);
        }
        let mut bp = self.nodes[p.index()];
        let pe = bp.escape;
        if bp.child[0].0 == v.0 {
            bp.child = [o, bp.child[1]];
        } else {
            bp.child = [bp.child[0], o];
        }
        self.nodes.set(p.index(), bp);
        if o.is_branching() {
            let oi = o.as_branching();
            let mut bo = self.nodes[oi.index()];
            bo.parent = p;
            self.nodes.set(oi.index(), bo);
        }
        proof {
            if o.0 < 0 && -1 - o.0 != t0.esc(p.0 as int) {
                self.home = Ghost(t0.home@.update(-1 - o.0, p.0 as int));
            }
            assert(self.detached_from(&t0, v.0 as int, o));
            t0.lemma_detach(&*self, hole, v.0 as int, k);
        }
        if o.0 == pe.0 {
            Some(p)
        } else {
            None
        }
    }

    /// The index `x` once the branching `m` has taken the index `d`.
    pub open spec fn shifted(x: int, m: int, d: int) -> int {
        if x == m {
            d
        } else {
            x
        }
    }

    /// Branching `b2` is `b1` with `d` for each reference to branching `m`.
    pub open spec fn is_moved(b2: Branching, b1: Branching, m: int, d: int) -> bool {
        &&& b2.escape == b1.escape
        &&& b2.bit == b1.bit
        &&& b2.parent.0 == Self::shifted(b1.parent.0 as int, m, d)
        &&& b2.child@[0].0 == Self::shifted(b1.child@[0].0 as int, m, d)
        &&& b2.child@[1].0 == Self::shifted(b1.child@[1].0 as int, m, d)
    }

    /// The arena is `before` without the branching `d`: the last branching
    /// of `before` has taken the index `d`.
    pub open spec fn renamed_from(&self, before: &Self, d: int) -> bool {
        let m = before.len() - 1;
        &&& self.len() == m
        &&& self.paths@.len() == m
        &&& self.pfx == before.pfx
        &&& self.home@.len() == before.home@.len()
        &&& forall|i: int|
            0 <= i < m ==> Self::is_moved(
                #[trigger] self.nodes@[i],
                before.nodes@[Self::shifted(i, d, m)],
                m,
                d,
            ) && self.paths@[i] == before.paths@[Self::shifted(i, d, m)]
        &&& forall|j: int|
            0 <= j < self.home@.len() ==> #[trigger] self.home@[j] == Self::shifted(
                before.home@[j],
                m,
                d,
            )
    }

    /// What holds of branching `i` once the last branching has taken the
    /// index of the branching that was cut out.
    pub proof fn lemma_release_node(&self, t: &Self, hole: int, weak: int, d: int, i: int)
        requires
            self.pruned(hole, weak, d),
            t.renamed_from(self, d),
            0 <= i < t.len(),
        ensures
            t.node_ok_w(i),
            Self::shifted(i, d, self.len() - 1) != weak ==> t.node_ok(i),
            Self::shifted(i, d, self.len() - 1) != weak && i > 0 ==> t.sided(i),
            t.clear_of(i, hole),
            t.credit(i) == self.credit(Self::shifted(i, d, self.len() - 1)),
    {
        let m = self.len() - 1;
        let s = Self::shifted(i, d, m);
        if s != weak && i > 0 {
            assert(self.sided(s));
        }
        assert(self.node_ok_w(s));
        assert(self.kid_ok_w(s, 0));
        assert(self.kid_ok_w(s, 1));
        assert(self.apart_from(s, d));
        assert(self.clear_of(s, hole));
        assert(Self::is_moved(t.nodes@[i], self.nodes@[s], m, d));
        let q = self.par(s);
        let q2 = Self::shifted(q, m, d);
        assert(self.node_ok_w(q));
        assert(Self::is_moved(t.nodes@[q2], self.nodes@[q], m, d));
        let c0 = self.kid(s, 0).0 as int;
        let c1 = self.kid(s, 1).0 as int;
        if c0 >= 0 {
            let c = Self::shifted(c0, m, d);
            assert(Self::is_moved(t.nodes@[c], self.nodes@[c0], m, d));
        }
        if c1 >= 0 {
            let c = Self::shifted(c1, m, d);
            assert(Self::is_moved(t.nodes@[c], self.nodes@[c1], m, d));
        }
        assert(t.kid_ok_w(i, 0));
        assert(t.kid_ok_w(i, 1));
        if s != weak {
            assert(self.node_ok(s));
            assert(self.kid_ok(s, 0));
            assert(self.kid_ok(s, 1));
            assert(t.kid_ok(i, 0));
            assert(t.kid_ok(i, 1));
        }
    }

    /// What holds of leaf `j` once the last branching has taken the index of
    /// the branching that was cut out.
    pub proof fn lemma_release_leaf(&self, t: &Self, hole: int, weak: int, d: int, j: int)
        requires
            self.pruned(hole, weak, d),
            t.renamed_from(self, d),
            0 <= j < t.pfx@.len(),
            j != hole,
        ensures
            t.leaf_ok(j),
    {
        let m = self.len() - 1;
        assert(self.leaf_kept(j, d));
        let h = self.home@[j];
        let h2 = Self::shifted(h, m, d);
        assert(Self::is_moved(t.nodes@[h2], self.nodes@[h], m, d));
    }

    /// Once the last branching has taken the index of the branching that
    /// was cut out, every branching is in use again.
    pub proof fn lemma_release(&self, t: &Self, hole: int, weak: int, d: int)
        requires
            self.pruned(hole, weak, d),
            t.renamed_from(self, d),
        ensures
            t.holed(hole, Self::shifted(weak, self.len() - 1, d)),
            self.counted_but(1, d) ==> t.counted(1),
    {
        let m = self.len() - 1;
        let w = Self::shifted(weak, m, d);
        assert forall|i: int| 0 <= i < m && i != d implies #[trigger] t.credit(i) == self.credit(
            i,
        ) by {
            self.lemma_release_node(t, hole, weak, d, i);
        }
        if d < m {
            self.lemma_release_node(t, hole, weak, d, d);
        }
        self.lemma_credits_diff(t, m, d, -1);
        assert(self.credits(m + 1) == self.credits(m) + self.credit(m));
        assert forall|i: int| 0 <= i < t.len() implies #[trigger] t.node_ok_w(i) by {
            self.lemma_release_node(t, hole, weak, d, i);
        }
        assert forall|i: int| 0 <= i < t.len() && i != w implies #[trigger] t.node_ok(i) by {
            self.lemma_release_node(t, hole, weak, d, i);
        }
        assert forall|i: int| 0 < i < t.len() && i != w implies #[trigger] t.sided(i) by {
            self.lemma_release_node(t, hole, weak, d, i);
        }
        assert forall|i: int| 0 <= i < t.len() implies #[trigger] t.clear_of(i, hole) by {
            self.lemma_release_node(t, hole, weak, d, i);
        }
        assert forall|j: int| 0 <= j < t.pfx@.len() && j != hole implies #[trigger] t.leaf_ok(j) by {
            self.lemma_release_leaf(t, hole, weak, d, j);
        }
        assert forall|j1: int, j2: int| 0 <= j1 < j2 < t.pfx@.len() implies !#[trigger] t.same_range(
            j1,
            j2,
        ) by {
            assert(!self.same_range(j1, j2));
        }
    }

    /// Gives the index of the branching `d`, which has been cut out, to the
    /// last branching, and shortens the arena by one.
    pub fn release(&mut self, d: BranchingIndex, Ghost(hole): Ghost<int>, Ghost(weak): Ghost<int>)
        requires
            old(self).pruned(hole, weak, d.0 as int),
        ensures
            final(self).holed(hole, Self::shifted(weak, old(self).len() - 1, d.0 as int)),
            final(self).renamed_from(old(self), d.0 as int),
            old(self).counted_but(1, d.0 as int) ==> final(self).counted(1),
    {
        let ghost t0 = *self;
        let ghost di = d.0 as int;
        let m = self.nodes.len() - 1;
        let ghost mi = m as int;
        if d.index() != m {
            let bm = self.nodes[m];
            let pm = bm.parent;
            proof {
                assert(t0.node_ok_w(mi));
                assert(t0.kid_ok_w(mi, 0));
                assert(t0.kid_ok_w(mi, 1));
                assert(t0.apart_from(mi, di));
                assert(t0.node_ok_w(pm.0 as int));
                assert(t0.kid_ok_w(pm.0 as int, 0));
                assert(t0.kid_ok_w(pm.0 as int, 1));
            }
            let mut bp = self.nodes[pm.index()];
            if bp.child[0].is_branching() && bp.child[0].as_branching().index() == m {
                bp.child = [NodeIndex::of_branching(d), bp.child[1]];
            } else {
                bp.child = [bp.child[0], NodeIndex::of_branching(d)];
            }
            self.nodes.set(pm.index(), bp);
            let c0 = bm.child[0];
            if c0.is_branching() {
                let ci = c0.as_branching();
                proof {
                    assert(t0.node_ok_w(ci.0 as int));
                }
                let mut bc = self.nodes[ci.index()];
                bc.parent = d;
                self.nodes.set(ci.index(), bc);
            }
            let c1 = bm.child[1];
            if c1.is_branching() {
                let ci = c1.as_branching();
                proof {
                    assert(t0.node_ok_w(ci.0 as int));
                }
                let mut bc = self.nodes[ci.index()];
                bc.parent = d;
                self.nodes.set(ci.index(), bc);
            }
        }
        let ghost t1 = *self;
        self.remove(d);
        proof {
            self.home = Ghost(Seq::new(t0.home@.len(), |j: int| Self::shifted(t0.home@[j], mi, di)));
            assert forall|i: int| 0 <= i < mi implies Self::is_moved(
                #[trigger] self.nodes@[i],
                t0.nodes@[Self::shifted(i, di, mi)],
                mi,
                di,
            ) && self.paths@[i] == t0.paths@[Self::shifted(i, di, mi)] by {
                let s = Self::shifted(i, di, mi);
                assert(self.nodes@[i] == t1.nodes@[s]);
                assert(t0.node_ok_w(s));
                assert(t0.kid_ok_w(s, 0));
                assert(t0.kid_ok_w(s, 1));
                assert(t0.apart_from(s, di));
                if di != mi {
                    assert(t0.node_ok_w(mi));
                    assert(t0.kid_ok_w(mi, 0));
                    assert(t0.kid_ok_w(mi, 1));
                }
                let q = t0.par(s);
                assert(t0.node_ok_w(q));
                assert(t0.kid_ok_w(q, 0));
                assert(t0.kid_ok_w(q, 1));
            }
            t0.lemma_release(&*self, hole, weak, di);
        }
    }

    /// Cuts out, from `v` upwards, each branching that holds its escape as a
    /// child and shares it with its parent, or holds it on both sides.
    pub fn prune(&mut self, v: BranchingIndex, Ghost(hole): Ghost<int>)
        requires
            old(self).holed(hole, v.0 as int),
            0 <= v.0 < old(self).len(),
        ensures
            final(self).holed(hole, -1),
            final(self).pfx == old(self).pfx,
            final(self).len() <= old(self).len(),
            old(self).counted(1) ==> final(self).counted(1),
    {
        let mut v = v;
        let mut go = true;
        while go
            invariant
                self.holed(hole, if go { v.0 as int } else { -1 }),
                old(self).counted(1) ==> self.counted(1),
                self.pfx == old(self).pfx,
                self.len() <= old(self).len(),
                go ==> 0 <= v.0 < self.len(),
            decreases
                    (if go {
                        1 + self.bit(v.0 as int)
                    } else {
                        0
                    }),
        {
            let ghost t0 = *self;
            let b = self.nodes[v.index()];
            let has0 = b.child[0].0 == b.escape.0;
            let has1 = b.child[1].0 == b.escape.0;
            proof {
                assert(self.node_ok_w(v.0 as int));
            }
            if v.0 != 0 && (has0 || has1) && (self.nodes[b.parent.index()].escape.0 == b.escape.0
                || (has0 && has1)) {
                let d = v;
                let w = self.detach(v, Ghost(hole));
                let ghost t1 = *self;
                let ghost wi: int = match w {
                    Some(x) => x.0 as int,
                    None => -1,
                };
                let m = self.nodes.len() - 1;
                self.release(d, Ghost(hole), Ghost(wi));
                match w {
                    Some(x) => {
                        if x.index() != m {
                            v = x;
                        }
                        proof {
                            assert(Self::is_moved(
                                self.nodes@[v.0 as int],
                                t1.nodes@[Self::shifted(v.0 as int, d.0 as int, m as int)],
                                m as int,
                                d.0 as int,
                            ));
                        }
                    },
                    None => {
                        go = false;
                    },
                }
            } else {
                proof {
                    self.lemma_weak_ok(v.0 as int);
                    if v.0 != 0 {
                        assert(self.sided(v.0 as int));
                    }
                }
                go = false;
            }
        }
    }

    /// Forgets the last leaf, to which nothing refers.
    pub fn forget_last(&mut self)
        requires
            old(self).holed(old(self).pfx@.len() - 1, -1),
        ensures
            final(self).inv(),
            final(self).nodes == old(self).nodes,
            final(self).pfx@ == old(self).pfx@.drop_last(),
            old(self).counted(1) ==> final(self).counted(0),
    {
        let ghost t0 = *self;
        let ghost hole = t0.pfx@.len() - 1;
        proof {
            self.pfx = Ghost(t0.pfx@.drop_last());
            self.home = Ghost(t0.home@.drop_last());
            assert forall|i: int| 0 <= i < self.len() implies #[trigger] self.credit(i)
                == t0.credit(i) by {}
            t0.lemma_credits_diff(&*self, t0.len(), -1, -2);
            assert forall|i: int| 0 <= i < self.len() implies #[trigger] self.node_ok(i) by {
                assert(t0.node_ok(i));
                assert(t0.kid_ok(i, 0));
                assert(t0.kid_ok(i, 1));
                assert(t0.clear_of(i, hole));
                assert(self.kid_ok(i, 0));
                assert(self.kid_ok(i, 1));
            }
            assert forall|i: int| 0 < i < self.len() implies #[trigger] self.sided(i) by {
                assert(t0.sided(i));
            }
            assert forall|j: int| 0 <= j < self.pfx@.len() implies #[trigger] self.leaf_ok(j) by {
                assert(t0.leaf_ok(j));
            }
            assert forall|j1: int, j2: int| 0 <= j1 < j2 < self.pfx@.len() implies !#[trigger] self.same_range(
                j1,
                j2,
            ) by {
                assert(!t0.same_range(j1, j2));
            }
        }
    }

    /// Branching `b2` is `b1` with the leaf `l2` for each reference to the leaf `l1`.
    pub open spec fn is_releaf(b2: Branching, b1: Branching, l1: LeafIndex, l2: LeafIndex) -> bool {
        &&& b2.escape == (if b1.escape == l1 {
            l2
        } else {
            b1.escape
        })
        &&& b2.parent == b1.parent
        &&& b2.bit == b1.bit
        &&& b2.child@[0] == Self::swapped(b1.child@[0], l1, l2)
        &&& b2.child@[1] == Self::swapped(b1.child@[1], l1, l2)
    }

    /// The arena is `before` once its last leaf, `last`, has taken the index `l`.
    pub open spec fn releafed_from(&self, before: &Self, last: LeafIndex, l: LeafIndex) -> bool {
        &&& self.len() == before.len()
        &&& self.paths == before.paths
        &&& forall|i: int|
            0 <= i < self.len() ==> Self::is_releaf(
                #[trigger] self.nodes@[i],
                before.nodes@[i],
                last,
                l,
            )
        &&& self.pfx@ == before.pfx@.update(l.idx(), before.pfx@[last.idx()]).drop_last()
        &&& self.home@ == before.home@.update(l.idx(), before.home@[last.idx()]).drop_last()
    }

    /// What holds of branching `i` once the last leaf has taken the index
    /// of the leaf that was taken away.
    pub proof fn lemma_releaf_node(&self, t: &Self, last: LeafIndex, l: LeafIndex, i: int)
        requires
            self.holed(l.idx(), -1),
            last.idx() == self.pfx@.len() - 1,
            last != l,
            t.releafed_from(self, last, l),
            0 <= i < self.len(),
        ensures
            t.node_ok(i),
            i > 0 ==> t.sided(i),
            t.credit(i) == self.credit(i),
    {
        if i > 0 {
            assert(self.sided(i));
        }
        assert(self.node_ok(i));
        assert(self.kid_ok(i, 0));
        assert(self.kid_ok(i, 1));
        assert(self.clear_of(i, l.idx()));
        let q = self.par(i);
        assert(self.node_ok(q));
        assert(self.clear_of(q, l.idx()));
        assert(Self::is_releaf(t.nodes@[i], self.nodes@[i], last, l));
        assert(Self::is_releaf(t.nodes@[q], self.nodes@[q], last, l));
        let c0 = self.kid(i, 0).0 as int;
        let c1 = self.kid(i, 1).0 as int;
        if c0 >= 0 {
            assert(Self::is_releaf(t.nodes@[c0], self.nodes@[c0], last, l));
        }
        if c1 >= 0 {
            assert(Self::is_releaf(t.nodes@[c1], self.nodes@[c1], last, l));
        }
        assert(t.kid_ok(i, 0));
        assert(t.kid_ok(i, 1));
    }

    /// What holds of leaf `j` once the last leaf has taken the index of the
    /// leaf that was taken away.
    pub proof fn lemma_releaf_leaf(&self, t: &Self, last: LeafIndex, l: LeafIndex, j: int)
        requires
            self.holed(l.idx(), -1),
            last.idx() == self.pfx@.len() - 1,
            last != l,
            t.releafed_from(self, last, l),
            0 <= j < self.pfx@.len() - 1,
        ensures
            t.leaf_ok(j),
    {
        let j0 = if j == l.idx() { last.idx() } else { j };
        assert(self.leaf_ok(j0));
        let h = self.home@[j0];
        assert(self.clear_of(h, l.idx()));
        assert(Self::is_releaf(t.nodes@[h], self.nodes@[h], last, l));
    }

    /// Once the last leaf has taken the index of the leaf that was taken
    /// away, the invariant holds again.
    pub proof fn lemma_releaf(&self, t: &Self, last: LeafIndex, l: LeafIndex)
        requires
            self.holed(l.idx(), -1),
            last.idx() == self.pfx@.len() - 1,
            last != l,
            t.releafed_from(self, last, l),
        ensures
            t.inv(),
            self.counted(1) ==> t.counted(0),
    {
        assert forall|i: int| 0 <= i < self.len() implies #[trigger] t.credit(i) == self.credit(
            i,
        ) by {
            self.lemma_releaf_node(t, last, l, i);
        }
        self.lemma_credits_diff(t, self.len(), -1, -2);
        assert forall|i: int| 0 <= i < t.len() implies #[trigger] t.node_ok(i) by {
            self.lemma_releaf_node(t, last, l, i);
        }
        assert forall|i: int| 0 < i < t.len() implies #[trigger] t.sided(i) by {
            self.lemma_releaf_node(t, last, l, i);
        }
        assert forall|j: int| 0 <= j < t.pfx@.len() implies #[trigger] t.leaf_ok(j) by {
            self.lemma_releaf_leaf(t, last, l, j);
        }
        assert forall|j1: int, j2: int| 0 <= j1 < j2 < t.pfx@.len() implies !#[trigger] t.same_range(
            j1,
            j2,
        ) by {
            let i1 = if j1 == l.idx() { last.idx() } else { j1 };
            let i2 = if j2 == l.idx() { last.idx() } else { j2 };
            if i1 < i2 {
                assert(!self.same_range(i1, i2));
            } else {
                assert(!self.same_range(i2, i1));
            }
        }
    }

    /// While a leaf is taken away and no branching is weak, the branchings
    /// are as the invariant wants them.
    pub proof fn lemma_holed_nodes(&self, hole: int)
        requires
            self.holed(hole, -1),
        ensures
            self.nodes_inv(),
    {
        assert forall|i: int| 0 <= i < self.len() implies #[trigger] self.node_ok(i) by {}
    }

    /// Gives the index `l`, to which nothing refers, to the last leaf, and
    /// forgets the last index.  The branching `n0` holds the last leaf on
    /// the side of `slot`, or the branching `n` has it as its escape.
    pub fn rename_leaf<B: BitSlot>(
        &mut self,
        n0: BranchingIndex,
        n: BranchingIndex,
        slot: &B,
        last: LeafIndex,
        l: LeafIndex,
    )
        requires
            old(self).holed(l.idx(), -1),
            last.idx() == old(self).pfx@.len() - 1,
            last != l,
            l.0 < 0,
            0 <= n0.0 < old(self).len(),
            0 <= n.0 < old(self).len(),
            (old(self).next(n0.0 as int, *slot) == NodeIndex(last.0) && last.idx() != old(self).esc(
                n0.0 as int,
            )) || old(self).esc(n.0 as int) == last.idx(),
        ensures
            final(self).inv(),
            final(self).releafed_from(old(self), last, l),
            old(self).counted(1) ==> final(self).counted(0),
    {
        let ghost t0 = *self;
        proof {
            t0.lemma_holed_nodes(l.idx());
            assert(t0.node_ok(0));
        }
        let b0 = self.nodes[n0.index()];
        if b0.child(slot).0 == last.0 && b0.escape.0 != last.0 {
            let mut b = b0;
            *b.child_mut(slot) = NodeIndex::of_leaf(l);
            self.nodes.set(n0.index(), b);
            proof {
                let k = t0.side(n0.0 as int, *slot);
                assert(t0.node_ok(n0.0 as int));
                assert(t0.kid_ok(n0.0 as int, 0));
                assert(t0.kid_ok(n0.0 as int, 1));
                assert forall|i: int| 0 <= i < self.len() implies Self::is_releaf(
                    #[trigger] self.nodes@[i],
                    t0.nodes@[i],
                    last,
                    l,
                ) by {
                    t0.lemma_child_is_no_escape(n0.0 as int, k, i);
                    assert(t0.node_ok(i));
                    assert(t0.kid_ok(i, 0));
                    assert(t0.kid_ok(i, 1));
                }
            }
        } else {
            let mut b = n;
            proof {
                assert(t0.node_ok(b.0 as int));
            }
            while self.nodes[self.nodes[b.index()].parent.index()].escape.0 == last.0
                invariant
                    *self == t0,
                    self.nodes_inv(),
                    0 <= b.0 < self.len(),
                    self.esc(b.0 as int) == last.idx(),
                    last.idx() != 0,
                    self.node_ok(b.0 as int),
                    self.node_ok(0),
                decreases self.bit(b.0 as int),
            {
                b = self.nodes[b.index()].parent;
                proof {
                    assert(self.node_ok(b.0 as int));
                }
            }
            proof {
                self.lemma_inv_shape();
            }
            self.replace_escape_leaf(b, last, l);
            proof {
                assert forall|i: int| 0 <= i < self.len() implies Self::is_releaf(
                    #[trigger] self.nodes@[i],
                    t0.nodes@[i],
                    last,
                    l,
                ) by {
                    assert(t0.node_ok(i));
                    if t0.esc(i) == last.idx() {
                        t0.lemma_escape_zone(b.0 as int, last.idx(), i);
                    }
                    if t0.in_zone(b.0 as int, last.idx(), i) {
                        assert(Self::is_repl(self.nodes@[i], t0.nodes@[i], last, l));
                    } else {
                        if t0.kid(i, 0).0 == last.0 {
                            t0.lemma_child_is_no_escape(i, 0, b.0 as int);
                        }
                        if t0.kid(i, 1).0 == last.0 {
                            t0.lemma_child_is_no_escape(i, 1, b.0 as int);
                        }
                    }
                }
            }
        }
        proof {
            self.pfx = Ghost(t0.pfx@.update(l.idx(), t0.pfx@[last.idx()]).drop_last());
            self.home = Ghost(t0.home@.update(l.idx(), t0.home@[last.idx()]).drop_last());
            t0.lemma_releaf(&*self, last, l);
        }
    }
}

} // verus!
