//! Counting the branchings of the radix trie against its leaves: there are
//! never more branchings than leaves.
use vstd::prelude::*;
use crate::prefix::cover::agree;
use crate::prefix::slot::BitSlot;
use crate::trie::common::{LeafIndex, NodeIndex, INDEX_MAX};
use crate::trie::patricia::BranchingTree;

verus! {

impl<S: BitSlot> BranchingTree<S> {
    /// One where branching `i` is the first, from the root, to have its
    /// escape; zero where it shares the escape of its parent.
    pub open spec fn first(&self, i: int) -> int {
        if i == 0 || self.esc(i) != self.esc(self.par(i)) {
            1
        } else {
            0
        }
    }

    /// The number of sides on which branching `i` holds its escape.
    pub open spec fn empties(&self, i: int) -> int {
        (if self.kid(i, 0).0 == -1 - self.esc(i) {
            1int
        } else {
            0int
        }) + (if self.kid(i, 1).0 == -1 - self.esc(i) {
            1int
        } else {
            0int
        })
    }

    /// What branching `i` adds to the number of leaves, less what it adds to
    /// the number of branchings.
    pub open spec fn credit(&self, i: int) -> int {
        self.first(i) - self.empties(i)
    }

    /// The credits of the first `n` branchings, added up.
    pub open spec fn credits(&self, n: int) -> int
        decreases n,
    {
        if n <= 0 {
            0
        } else {
            self.credits(n - 1) + self.credit(n - 1)
        }
    }

    /// The count of the arena: without `gone` of them, the leaves are as
    /// many as the branchings, and one, and the credits of the branchings.
    pub open spec fn counted(&self, gone: int) -> bool {
        self.pfx@.len() - gone == self.len() + 1 + self.credits(self.len())
    }

    /// The count of the arena while the branching `dead` is out of use.
    pub open spec fn counted_but(&self, gone: int, dead: int) -> bool {
        self.pfx@.len() - gone == self.len() + self.credits(self.len()) - self.credit(dead)
    }

    /// The credits of two arenas differ by what the credits of the
    /// branchings `x` and `y` differ, where all others have the same credit.
    pub proof fn lemma_credits_diff(&self, t: &Self, n: int, x: int, y: int)
        requires
            x != y,
            forall|i: int| 0 <= i < n && i != x && i != y ==> #[trigger] t.credit(i) == self.credit(i),
        ensures
            t.credits(n) - self.credits(n) == (if 0 <= x < n {
                t.credit(x) - self.credit(x)
            } else {
                0
            }) + (if 0 <= y < n {
                t.credit(y) - self.credit(y)
            } else {
                0
            }),
        decreases n,
    {
        if n > 0 {
            self.lemma_credits_diff(t, n - 1, x, y);
            if n - 1 != x && n - 1 != y {
                assert(t.credit(n - 1) == self.credit(n - 1));
            }
        }
    }

    /// Branchings that are as the invariant wants them have, all together,
    /// a credit that is not under minus one: the root alone may hold its
    /// escape on both sides.
    pub proof fn lemma_credits_low(&self, n: int)
        requires
            self.inv(),
            0 <= n <= self.len(),
        ensures
            self.credits(n) >= (if n >= 1 {
                -1int
            } else {
                0int
            }),
        decreases n,
    {
        if n > 0 {
            self.lemma_credits_low(n - 1);
            let i = n - 1;
            assert(self.node_ok(i));
            assert(self.kid_ok(i, 0));
            assert(self.kid_ok(i, 1));
            if i > 0 {
                assert(self.sided(i));
                assert(self.node_ok(self.par(i)));
                assert(self.credit(i) >= 0);
            }
        }
    }

    /// There are no more branchings than leaves.
    pub proof fn lemma_few_branchings(&self)
        requires
            self.inv(),
            self.counted(0),
        ensures
            self.len() <= self.pfx@.len(),
    {
        self.lemma_credits_low(self.len());
    }

    /// The count holds when a new leaf takes a side on which `n` held its escape.
    pub proof fn lemma_plug_count(&self, t: &Self, n: int, sa: S, la: u8)
        requires
            self.inv(),
            self.counted(0),
            self.pfx@.len() <= INDEX_MAX,
            0 <= n < self.len(),
            self.next(n, sa).0 == -1 - self.esc(n),
            t.kid_set_from(self, n, self.side(n, sa), NodeIndex((-1 - self.pfx@.len()) as i32)),
            t.pfx@ == self.pfx@.push((sa, la)),
        ensures
            t.counted(0),
    {
        assert(self.node_ok(n));
        assert forall|i: int| 0 <= i < self.len() && i != n implies #[trigger] t.credit(i)
            == self.credit(i) by {
            assert(self.node_ok(i));
        }
        self.lemma_credits_diff(t, self.len(), n, -1);
        assert(t.credit(n) == self.credit(n) + 1);
    }

    /// The count holds when a new branching, with the leaf `l` that hung
    /// at `n` as its escape, takes the place of `l` and holds the new leaf.
    pub proof fn lemma_hang_count(&self, x: &Self, t: &Self, n: int, sa: S, la: u8)
        requires
            self.inv(),
            self.counted(0),
            self.pfx@.len() <= INDEX_MAX,
            self.len() < INDEX_MAX,
            0 <= n < self.len(),
            self.next(n, sa).0 < 0,
            -1 - self.next(n, sa).0 != self.esc(n),
            x.grown_from(self, sa, la),
            t.linked_from(
                x,
                n,
                LeafIndex(self.next(n, sa).0),
                NodeIndex((-1 - self.pfx@.len()) as i32),
                (self.plen(-1 - self.next(n, sa).0) + 1) as u8,
                sa,
            ),
        ensures
            t.counted(0),
    {
        let nn = self.len();
        assert(self.node_ok(n));
        assert(self.kid_ok(n, 0));
        assert(self.kid_ok(n, 1));
        assert forall|i: int| 0 <= i < self.len() implies #[trigger] t.credit(i) == self.credit(
            i,
        ) by {
            assert(self.node_ok(i));
            assert(self.node_ok(self.par(i)));
        }
        self.lemma_credits_diff(t, self.len(), -1, -2);
        assert(t.credits(nn + 1) == t.credits(nn) + t.credit(nn));
        assert(t.credit(nn) == 0);
    }

    /// The count holds after a fork: the new branching shares the escape of
    /// `n` and holds it on no side.
    pub proof fn lemma_fork_count(
        &self,
        g: &Self,
        mid: &Self,
        t: &Self,
        n0: int,
        n: int,
        x: NodeIndex,
        sa: S,
        la: u8,
        pos: u8,
    )
        requires
            self.forked(g, mid, t, n0, n, x, sa, la, pos),
            self.counted(0),
        ensures
            t.counted(0),
    {
        let nn = self.len();
        self.lemma_fork_facts(g, mid, t, n0, n, x, sa, la, pos);
        assert(self.node_ok(n));
        assert(self.kid_ok(n, 0));
        assert(self.kid_ok(n, 1));
        assert forall|i: int| 0 <= i < self.len() implies #[trigger] t.credit(i) == self.credit(
            i,
        ) by {
            assert(self.node_ok(i));
            assert(self.node_ok(self.par(i)));
            assert(t.nodes@[i] == mid.nodes@[i]);
        }
        self.lemma_credits_diff(t, self.len(), -1, -2);
        assert(t.credits(nn + 1) == t.credits(nn) + t.credit(nn));
        assert(t.nodes@[n] == mid.nodes@[n]);
        assert(t.credit(nn) == 0);
    }

    /// Where the new leaf becomes the escape of `n`, the branching `n`
    /// shared its escape with its parent before, and held it on no side.
    pub proof fn lemma_shadow_at_top(&self, g: &Self, t: &Self, n0: int, n: int, sa: S, la: u8)
        requires
            self.shadowed_at(g, t, n0, n, sa, la),
        ensures
            0 < n < self.len(),
            self.plen(self.esc(n)) < la,
            self.first(n) == 0,
            self.empties(n) == 0,
    {
        let l = -1 - self.next(n0, sa).0;
        let e = self.esc(n);
        self.lemma_deepest_on_way(sa, n0, n);
        assert(self.node_ok(n));
        assert(self.kid_ok(n, 0));
        assert(self.kid_ok(n, 1));
        assert(self.node_ok(0));
        assert(agree(sa, self.path(n), la as int));
        if self.plen(e) == la {
            assert(agree(self.pslot(e), sa, la as int));
            assert(false);
        }
    }

    /// The credit of branching `i` once the new leaf has become the escape
    /// of `n` and of its zone.
    pub proof fn lemma_shadow_at_credit(
        &self,
        g: &Self,
        t: &Self,
        n0: int,
        n: int,
        sa: S,
        la: u8,
        i: int,
    )
        requires
            self.shadowed_at(g, t, n0, n, sa, la),
            0 <= i < self.len(),
        ensures
            t.credit(i) == self.credit(i) + if i == n {
                1int
            } else {
                0int
            },
    {
        let e = self.esc(n);
        let q = self.par(i);
        self.lemma_shadow_at_top(g, t, n0, n, sa, la);
        self.lemma_inv_shape();
        assert(self.node_ok(i));
        assert(self.kid_ok(i, 0));
        assert(self.kid_ok(i, 1));
        assert(self.node_ok(q));
        assert(self.node_ok(n));
        assert(g.in_zone(n, e, i) == self.in_zone(n, e, i)) by {
            g.lemma_zone_frame(self, n, e, i);
        }
        assert(g.in_zone(n, e, q) == self.in_zone(n, e, q)) by {
            g.lemma_zone_frame(self, n, e, q);
        }
        if self.in_zone(n, e, i) {
            self.lemma_zone_facts(n, i, la as int);
        }
        if self.in_zone(n, e, q) {
            self.lemma_zone_facts(n, q, la as int);
        }
        if i == n {
            if self.in_zone(n, e, q) {
                self.lemma_zone_below(n, e, q);
                if q != n {
                    self.lemma_above(n, q);
                }
            }
        }
    }

    /// The count holds once the new leaf has become the escape of `n` and
    /// of its zone.
    pub proof fn lemma_shadow_at_count(&self, g: &Self, t: &Self, n0: int, n: int, sa: S, la: u8)
        requires
            self.shadowed_at(g, t, n0, n, sa, la),
            self.counted(0),
        ensures
            t.counted(0),
    {
        self.lemma_shadow_at_top(g, t, n0, n, sa, la);
        assert forall|i: int| 0 <= i < self.len() && i != n implies #[trigger] t.credit(i)
            == self.credit(i) by {
            self.lemma_shadow_at_credit(g, t, n0, n, sa, la, i);
        }
        self.lemma_shadow_at_credit(g, t, n0, n, sa, la, n);
        self.lemma_credits_diff(t, self.len(), n, -1);
    }

    /// The credit of branching `i` once a new branching, with the new leaf
    /// as its escape, has been set between `n` and its child `x`.
    pub proof fn lemma_shadow_credit(
        &self,
        g: &Self,
        mid: &Self,
        t: &Self,
        n0: int,
        n: int,
        x: NodeIndex,
        sa: S,
        la: u8,
        i: int,
    )
        requires
            self.shadowed(g, mid, t, n0, n, x, sa, la),
            0 <= i < self.len(),
        ensures
            t.credit(i) == self.credit(i),
    {
        let e = self.esc(n);
        let nn = self.len();
        let q = self.par(i);
        let zone = x.0 >= 0 && self.esc(x.0 as int) == e;
        self.lemma_shadow_facts(g, mid, t, n0, n, x, sa, la);
        assert(self.node_ok(i));
        assert(self.kid_ok(i, 0));
        assert(self.kid_ok(i, 1));
        assert(self.node_ok(q));
        assert(self.node_ok(n));
        assert(self.kid_ok(n, 0));
        assert(self.kid_ok(n, 1));
        assert(mid.shape_ok(i));
        assert(mid.shape_ok(nn));
        if zone {
            let xi = x.0 as int;
            assert(!mid.in_zone(xi, e, nn));
            if mid.in_zone(xi, e, i) {
                self.lemma_shadow_zone(g, mid, t, n0, n, x, sa, la, i);
            }
            if mid.in_zone(xi, e, q) {
                self.lemma_shadow_zone(g, mid, t, n0, n, x, sa, la, q);
            }
            if i != xi && i != n {
                assert(mid.nodes@[i] == self.nodes@[i]);
            }
        } else {
            assert(t.nodes@[i] == mid.nodes@[i]);
            assert(t.nodes@[q] == mid.nodes@[q]);
            assert(t.nodes@[nn] == mid.nodes@[nn]);
        }
    }

    /// The count holds once a new branching, with the new leaf as its
    /// escape, has been set between `n` and its child `x`.
    pub proof fn lemma_shadow_count(
        &self,
        g: &Self,
        mid: &Self,
        t: &Self,
        n0: int,
        n: int,
        x: NodeIndex,
        sa: S,
        la: u8,
    )
        requires
            self.shadowed(g, mid, t, n0, n, x, sa, la),
            self.counted(0),
        ensures
            t.counted(0),
    {
        let nn = self.len();
        let e = self.esc(n);
        self.lemma_shadow_facts(g, mid, t, n0, n, x, sa, la);
        assert forall|i: int| 0 <= i < self.len() implies #[trigger] t.credit(i) == self.credit(
            i,
        ) by {
            self.lemma_shadow_credit(g, mid, t, n0, n, x, sa, la, i);
        }
        self.lemma_credits_diff(t, self.len(), -1, -2);
        assert(t.credits(nn + 1) == t.credits(nn) + t.credit(nn));
        assert(self.node_ok(n));
        assert(mid.shape_ok(nn));
        if x.0 >= 0 && self.esc(x.0 as int) == e {
            assert(!mid.in_zone(x.0 as int, e, nn));
            assert(!mid.in_zone(x.0 as int, e, n)) by {
                if mid.in_zone(x.0 as int, e, n) {
                    self.lemma_shadow_zone(g, mid, t, n0, n, x, sa, la, n);
                }
            }
        }
        assert(t.nodes@[nn] == mid.nodes@[nn]);
        assert(t.nodes@[n] == mid.nodes@[n]);
        assert(t.credit(nn) == 0);
    }

    /// The count holds in an arena with the same branchings and as many leaves.
    pub proof fn lemma_counted_same(&self, t: &Self, gone: int)
        requires
            self.counted(gone),
            t.nodes@ == self.nodes@,
            t.pfx@.len() == self.pfx@.len(),
        ensures
            t.counted(gone),
    {
        assert forall|i: int| 0 <= i < self.len() implies #[trigger] t.credit(i) == self.credit(
            i,
        ) by {}
        self.lemma_credits_diff(t, self.len(), -1, -2);
    }
}

} // verus!
