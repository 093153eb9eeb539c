//! Sets of IP prefixes, with lookup by longest prefix match.
use vstd::prelude::*;
use crate::prefix::cover::{coverage, IpPrefixCoverage, IpPrefixCovering};
use crate::prefix::{IpPrefix, IpRootPrefix};
use crate::trie::common::{Leaf, INDEX_MAX};
use crate::trie::lctrie::LevelCompressedTrie;
use crate::trie::patricia::RadixTrie;

verus! {

/// Leaf `j` of `leaves` has a prefix that denotes the same range as `k`.
pub open spec fn held_at<K: IpPrefix, V>(leaves: Seq<Leaf<K, V>>, j: int, k: K) -> bool {
    0 <= j < leaves.len() && coverage(leaves[j].prefix, k) == IpPrefixCoverage::SameRange
}

/// The leaves once `k` has been put in: those of `leaves`, and `k` after
/// them unless one of them denotes the same range.
pub open spec fn added<P: IpPrefix>(leaves: Seq<Leaf<P, ()>>, k: P) -> Seq<Leaf<P, ()>> {
    if exists|j: int| held_at(leaves, j, k) {
        leaves
    } else {
        leaves.push(Leaf { prefix: k, value: () })
    }
}

/// The leaves once the first `n` prefixes of `items` have been put in, in turn.
pub open spec fn added_all<P: IpPrefix>(leaves: Seq<Leaf<P, ()>>, items: Seq<P>, n: int) -> Seq<
    Leaf<P, ()>,
>
    decreases n,
{
    if n <= 0 {
        leaves
    } else {
        added(added_all(leaves, items, n - 1), items[n - 1])
    }
}

/// A set of prefixes, as a radix trie.  The root prefix is always in the set.
pub struct RTrieSet<P: IpPrefix>(pub RadixTrie<P, ()>);

/// A set of prefixes, as a level-compressed trie: it cannot be changed, and
/// is looked up faster.
pub struct LCTrieSet<P: IpPrefix>(pub LevelCompressedTrie<P, ()>);

impl<P: IpPrefix> View for RTrieSet<P> {
    type V = Seq<Leaf<P, ()>>;

    /// The prefixes of the set, the root first.
    open spec fn view(&self) -> Seq<Leaf<P, ()>> {
        self.0.leaves@
    }
}

impl<P: IpPrefix> View for LCTrieSet<P> {
    type V = Seq<Leaf<P, ()>>;

    /// The prefixes of the set, the root first.
    open spec fn view(&self) -> Seq<Leaf<P, ()>> {
        self.0.leaves@
    }
}

impl<P: IpRootPrefix> RTrieSet<P> {
    /// A set that holds the root prefix only.
    pub fn new() -> (r: Self)
        ensures
            r.wf(),
            r@.len() == 1,
            r@[0].prefix.spec_len() == 0,
    {
        Self::with_capacity(1000)
    }

    /// A set that holds the root prefix only, with room for `capacity` prefixes.
    pub fn with_capacity(capacity: usize) -> (r: Self)
        ensures
            r.wf(),
            r@.len() == 1,
            r@[0].prefix.spec_len() == 0,
    {
        Self(RadixTrie::new((), capacity))
    }
}

impl<P: IpPrefix> RTrieSet<P> {
    /// The invariant of the set.
    pub open spec fn wf(&self) -> bool {
        self.0.wf()
    }

    /// The number of prefixes, the root included: at least one.
    pub fn len(&self) -> (r: usize)
        requires
            self.wf(),
        ensures
            r == self@.len(),
            r >= 1,
    {
        self.0.len()
    }

    /// The set as a level-compressed trie, with the same prefixes.
    pub fn compress(self) -> (r: LCTrieSet<P>)
        requires
            self.wf(),
            5 * self.0.branching.len() <= INDEX_MAX,
        ensures
            r.wf(),
            r@ == self@,
            r.0.tree@ == self.0.branching,
    {
        LCTrieSet(LevelCompressedTrie::new(self.0))
    }

    /// Gives back the memory that the set does not use.
    pub fn shrink_to_fit(&mut self)
        requires
            old(self).wf(),
        ensures
            final(self).wf(),
            final(self)@ == old(self)@,
    {
        self.0.shrink_to_fit()
    }

    /// Puts `k` into the set, unless the set holds a prefix of the same
    /// range.  Returns whether `k` was put in.
    pub fn insert(&mut self, k: P) -> (r: bool)
        requires
            old(self).wf(),
            old(self)@.len() < INDEX_MAX,
        ensures
            final(self).wf(),
            r <==> !exists|j: int| 0 <= j < old(self)@.len() && #[trigger] old(self).0.holds(j, k),
            r ==> final(self)@ == old(self)@.push(Leaf { prefix: k, value: () }),
            !r ==> final(self)@ == old(self)@,
    {
        let former = self.0.insert(k, ());
        proof {
            if former.is_some() {
                assert(self@ =~= old(self)@);
            }
        }
        former.is_none()
    }

    /// Whether the set holds a prefix that denotes the same range as `k`.
    pub fn contains<Q>(&self, k: &Q) -> (r: bool) where
        Q: IpPrefix<Addr = P::Addr>,
        P: IpPrefixCovering<Q>,

        requires
            self.wf(),
        ensures
            r <==> exists|j: int| 0 <= j < self@.len() && #[trigger] self.0.holds(j, *k),
    {
        self.0.get(k).is_some()
    }

    /// Takes away the prefix that denotes the same range as `k`, if the set
    /// holds one; the last prefix takes its place.  Returns whether a prefix
    /// was taken away.  The root prefix cannot be taken away.
    pub fn remove<Q>(&mut self, k: &Q) -> (r: bool) where
        Q: IpPrefix<Addr = P::Addr>,
        P: IpPrefixCovering<Q>,

        requires
            old(self).wf(),
            k.spec_len() != 0,
        ensures
            final(self).wf(),
            r <==> exists|j: int| 0 <= j < old(self)@.len() && #[trigger] old(self).0.holds(j, *k),
            r ==> exists|j: int|
                0 < j < old(self)@.len() && #[trigger] old(self).0.holds(j, *k) && final(self)@
                    == old(self)@.update(j, old(self)@.last()).drop_last(),
            !r ==> final(self)@ == old(self)@,
    {
        self.0.remove(k).is_some()
    }

    /// Puts `k` into the set, in the place of the prefix of the same range if
    /// the set holds one, which is returned.
    pub fn replace(&mut self, k: P) -> (r: Option<P>)
        requires
            old(self).wf(),
            old(self)@.len() < INDEX_MAX,
        ensures
            final(self).wf(),
            r.is_some() <==> exists|j: int| 0 <= j < old(self)@.len() && #[trigger] old(self).0.holds(j, k),
            r matches Some(w) ==> exists|j: int|
                0 <= j < old(self)@.len() && #[trigger] old(self).0.holds(j, k) && w == old(
                    self,
                )@[j].prefix && final(self)@ == old(self)@.update(
                    j,
                    Leaf { prefix: k, value: () },
                ),
            r.is_none() ==> final(self)@ == old(self)@.push(Leaf { prefix: k, value: () }),
    {
        match self.0.replace(k, ()) {
            Some(leaf) => Some(leaf.prefix),
            None => None,
        }
    }

    /// The prefix of the set that denotes the same range as `k`, if the set holds one.
    pub fn get<Q>(&self, k: &Q) -> (r: Option<&P>) where
        Q: IpPrefix<Addr = P::Addr>,
        P: IpPrefixCovering<Q>,

        requires
            self.wf(),
        ensures
            r.is_some() <==> exists|j: int| 0 <= j < self@.len() && #[trigger] self.0.holds(j, *k),
            r matches Some(p) ==> exists|j: int|
                0 <= j < self@.len() && #[trigger] self.0.holds(j, *k) && *p == self@[j].prefix,
    {
        match self.0.get(k) {
            Some((p, _)) => Some(p),
            None => None,
        }
    }

    /// The longest prefix of the set that covers `k`.
    pub fn lookup<Q>(&self, k: &Q) -> (r: &P) where
        Q: IpPrefix<Addr = P::Addr>,
        P: IpPrefixCovering<Q>,

        requires
            self.wf(),
        ensures
            exists|l: int| self.0.is_lpm(l, *k) && *r == (#[trigger] self.0.leaves@[l]).prefix,
    {
        self.0.lookup(k).0
    }

    /// The prefixes of the set, the root first, each once.
    pub fn iter(&self) -> (r: Vec<&P>)
        ensures
            r@.len() == self@.len(),
            forall|j: int| 0 <= j < r@.len() ==> *(#[trigger] r@[j]) == self@[j].prefix,
    {
        let leaves = self.0.iter();
        let mut out: Vec<&P> = Vec::new();
        let n = leaves.len();
        let mut j: usize = 0;
        while j < n
            invariant
                0 <= j <= n,
                n == leaves@.len(),
                n == self@.len(),
                out@.len() == j,
                forall|i: int| 0 <= i < n ==> *(#[trigger] leaves@[i]) == self@[i],
                forall|i: int| 0 <= i < j ==> *(#[trigger] out@[i]) == self@[i].prefix,
            decreases n - j,
        {
            out.push(leaves[j].prefix());
            j += 1;
        }
        out
    }

    /// Puts each prefix of `items` into the set, in turn.
    pub fn extend(&mut self, items: Vec<P>)
        requires
            old(self).wf(),
            old(self)@.len() + items@.len() < INDEX_MAX,
        ensures
            final(self).wf(),
            final(self)@ == added_all(old(self)@, items@, items@.len() as int),
    {
        let ghost all = items@;
        let ghost total = all.len() as int;
        let mut items = items;
        let mut rest: Vec<P> = Vec::new();
        while items.len() > 0
            invariant
                items@.len() + rest@.len() == total,
                forall|t: int| 0 <= t < rest@.len() ==> #[trigger] rest@[t] == all[total - 1 - t],
                forall|t: int| 0 <= t < items@.len() ==> #[trigger] items@[t] == all[t],
            decreases items@.len(),
        {
            let k = items.pop().unwrap();
            rest.push(k);
        }
        while rest.len() > 0
            invariant
                self.wf(),
                rest@.len() <= total,
                forall|t: int| 0 <= t < rest@.len() ==> #[trigger] rest@[t] == all[total - 1 - t],
                self@ == added_all(old(self)@, all, total - rest@.len()),
                self@.len() <= old(self)@.len() + total - rest@.len(),
                old(self)@.len() + total < INDEX_MAX,
            decreases rest@.len(),
        {
            let ghost i = total - rest@.len();
            let ghost pre = *self;
            let k = rest.pop().unwrap();
            assert(k == all[i]);
            let put = self.insert(k);
            proof {
                if put {
                    assert forall|j: int| !held_at(pre@, j, k) by {
                        if held_at(pre@, j, k) {
                            assert(pre.0.holds(j, k));
                        }
                    }
                } else {
                    let j = choose|j: int| 0 <= j < pre@.len() && #[trigger] pre.0.holds(j, k);
                    assert(held_at(pre@, j, k));
                }
            }
        }
    }
}

impl<P: IpPrefix> LCTrieSet<P> {
    /// The invariant of the set.
    pub open spec fn wf(&self) -> bool {
        self.0.wf()
    }

    /// The number of prefixes, the root included: at least one.
    pub fn len(&self) -> (r: usize)
        requires
            self.wf(),
        ensures
            r == self@.len(),
            r >= 1,
    {
        self.0.len()
    }

    /// Whether the set holds a prefix that denotes the same range as `k`.
    pub fn contains<Q>(&self, k: &Q) -> (r: bool) where
        Q: IpPrefix<Addr = P::Addr>,
        P: IpPrefixCovering<Q>,

        requires
            self.wf(),
        ensures
            r <==> exists|j: int| 0 <= j < self@.len() && #[trigger] self.0.holds(j, *k),
    {
        self.get(k).is_some()
    }

    /// The prefix of the set that denotes the same range as `k`, if the set holds one.
    pub fn get<Q>(&self, k: &Q) -> (r: Option<&P>) where
        Q: IpPrefix<Addr = P::Addr>,
        P: IpPrefixCovering<Q>,

        requires
            self.wf(),
        ensures
            r.is_some() <==> exists|j: int| 0 <= j < self@.len() && #[trigger] self.0.holds(j, *k),
            r matches Some(p) ==> exists|j: int|
                0 <= j < self@.len() && #[trigger] self.0.holds(j, *k) && *p == self@[j].prefix,
    {
        let l = self.0.inner_lookup(k);
        let p = self.0.leaves.at(l).prefix();
        proof {
            assert forall|j: int|
                0 <= j < self@.len() && #[trigger] self.0.holds(j, *k) implies self.0.holds(
                l.idx(),
                *k,
            ) by {
                assert(self.0.covers(j, *k));
            }
        }
        if k.len() == p.len() {
            assert(self.0.holds(l.idx(), *k));
            Some(p)
        } else {
            None
        }
    }

    /// The longest prefix of the set that covers `k`.
    pub fn lookup<Q>(&self, k: &Q) -> (r: &P) where
        Q: IpPrefix<Addr = P::Addr>,
        P: IpPrefixCovering<Q>,

        requires
            self.wf(),
        ensures
            exists|l: int| self.0.is_lpm(l, *k) && *r == (#[trigger] self.0.leaves@[l]).prefix,
    {
        self.0.lookup(k).0
    }

    /// The prefixes of the set, the root first, each once.
    pub fn iter(&self) -> (r: Vec<&P>)
        ensures
            r@.len() == self@.len(),
            forall|j: int| 0 <= j < r@.len() ==> *(#[trigger] r@[j]) == self@[j].prefix,
    {
        let leaves = self.0.iter();
        let mut out: Vec<&P> = Vec::new();
        let n = leaves.len();
        let mut j: usize = 0;
        while j < n
            invariant
                0 <= j <= n,
                n == leaves@.len(),
                n == self@.len(),
                out@.len() == j,
                forall|i: int| 0 <= i < n ==> *(#[trigger] leaves@[i]) == self@[i],
                forall|i: int| 0 <= i < j ==> *(#[trigger] out@[i]) == self@[i].prefix,
            decreases n - j,
        {
            out.push(leaves[j].prefix());
            j += 1;
        }
        out
    }
}

} // verus!
