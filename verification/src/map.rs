//! Maps from IP prefixes to values, with lookup by longest prefix match.
use vstd::prelude::*;
use crate::prefix::cover::IpPrefixCovering;
use crate::prefix::{IpPrefix, IpRootPrefix};
use crate::set::{held_at, LCTrieSet, RTrieSet};
use crate::trie::common::{Leaf, INDEX_MAX};
use crate::trie::lctrie::LevelCompressedTrie;
use crate::trie::patricia::RadixTrie;

verus! {

/// The leaves once `v` has been stored for `k`: where a leaf of `leaves`
/// denotes the same range, that leaf has the value `v`; else the leaf of `k`
/// and `v` comes after those of `leaves`.
pub open spec fn stored<K: IpPrefix, V>(leaves: Seq<Leaf<K, V>>, k: K, v: V) -> Seq<Leaf<K, V>> {
    if exists|j: int| held_at(leaves, j, k) {
        let j = choose|j: int| held_at(leaves, j, k);
        leaves.update(j, Leaf { prefix: leaves[j].prefix, value: v })
    } else {
        leaves.push(Leaf { prefix: k, value: v })
    }
}

/// The leaves once the first `n` entries of `items` have been stored, in turn.
pub open spec fn stored_all<K: IpPrefix, V>(
    leaves: Seq<Leaf<K, V>>,
    items: Seq<(K, V)>,
    n: int,
) -> Seq<Leaf<K, V>>
    decreases n,
{
    if n <= 0 {
        leaves
    } else {
        stored(stored_all(leaves, items, n - 1), items[n - 1].0, items[n - 1].1)
    }
}

/// A map from prefixes to values, as a radix trie.  The root prefix is always
/// in the map.
pub struct RTrieMap<K: IpPrefix, V>(pub RadixTrie<K, V>);

/// A map from prefixes to values, as a level-compressed trie: it cannot be
/// changed but for its values, and is looked up faster.
pub struct LCTrieMap<K: IpPrefix, V>(pub LevelCompressedTrie<K, V>);

impl<K: IpPrefix, V> View for RTrieMap<K, V> {
    type V = Seq<Leaf<K, V>>;

    /// The entries of the map, the root first.
    open spec fn view(&self) -> Seq<Leaf<K, V>> {
        self.0.leaves@
    }
}

impl<K: IpPrefix, V> View for LCTrieMap<K, V> {
    type V = Seq<Leaf<K, V>>;

    /// The entries of the map, the root first.
    open spec fn view(&self) -> Seq<Leaf<K, V>> {
        self.0.leaves@
    }
}

impl<K: IpRootPrefix, V: Default> RTrieMap<K, V> {
    /// A map that holds the root prefix only, with the default value.
    pub fn new() -> (r: Self)
        ensures
            r.wf(),
            r@.len() == 1,
            r@[0].prefix.spec_len() == 0,
    {
        Self::with_root(V::default())
    }

    /// A map that holds the root prefix only, with the default value, with
    /// room for `capacity` entries.
    pub fn with_capacity(capacity: usize) -> (r: Self)
        ensures
            r.wf(),
            r@.len() == 1,
            r@[0].prefix.spec_len() == 0,
    {
        Self::with_root_and_capacity(V::default(), capacity)
    }
}

impl<K: IpRootPrefix, V> RTrieMap<K, V> {
    /// A map that holds the root prefix only, with the value `root`.
    pub fn with_root(root: V) -> (r: Self)
        ensures
            r.wf(),
            r@.len() == 1,
            r@[0].value == root,
            r@[0].prefix.spec_len() == 0,
    {
        Self::with_root_and_capacity(root, 1000)
    }

    /// A map that holds the root prefix only, with the value `root`, with
    /// room for `capacity` entries.
    pub fn with_root_and_capacity(root: V, capacity: usize) -> (r: Self)
        ensures
            r.wf(),
            r@.len() == 1,
            r@[0].value == root,
            r@[0].prefix.spec_len() == 0,
    {
        Self(RadixTrie::new(root, capacity))
    }
}

impl<K: IpPrefix, V> RTrieMap<K, V> {
    /// The invariant of the map.
    pub open spec fn wf(&self) -> bool {
        self.0.wf()
    }

    /// The number of entries, the root included: at least one.
    pub fn len(&self) -> (r: usize)
        requires
            self.wf(),
        ensures
            r == self@.len(),
            r >= 1,
    {
        self.0.len()
    }

    /// The map as a level-compressed trie, with the same entries.
    pub fn compress(self) -> (r: LCTrieMap<K, V>)
        requires
            self.wf(),
            5 * self.0.branching.len() <= INDEX_MAX,
        ensures
            r.wf(),
            r@ == self@,
            r.0.tree@ == self.0.branching,
    {
        LCTrieMap(LevelCompressedTrie::new(self.0))
    }

    /// Gives back the memory that the map does not use.
    pub fn shrink_to_fit(&mut self)
        requires
            old(self).wf(),
        ensures
            final(self).wf(),
            final(self)@ == old(self)@,
    {
        self.0.shrink_to_fit()
    }

    /// Stores `v` for `k`.  Where the map holds a prefix of the same range,
    /// that prefix stays and the former value is returned.
    pub fn insert(&mut self, k: K, v: V) -> (r: Option<V>)
        requires
            old(self).wf(),
            old(self)@.len() < INDEX_MAX,
        ensures
            final(self).wf(),
            r.is_some() <==> exists|j: int| 0 <= j < old(self)@.len() && #[trigger] old(self).0.holds(j, k),
            r matches Some(w) ==> exists|j: int|
                0 <= j < old(self)@.len() && #[trigger] old(self).0.holds(j, k) && w == old(
                    self,
                )@[j].value && final(self)@ == old(self)@.update(
                    j,
                    Leaf { prefix: old(self)@[j].prefix, value: v },
                ),
            r.is_none() ==> final(self)@ == old(self)@.push(Leaf { prefix: k, value: v }),
    {
        self.0.insert(k, v)
    }

    /// The value of the prefix that denotes the same range as `k`, if the map holds one.
    pub fn get<Q>(&self, k: &Q) -> (r: Option<&V>) where
        Q: IpPrefix<Addr = K::Addr>,
        K: IpPrefixCovering<Q>,

        requires
            self.wf(),
        ensures
            r.is_some() <==> exists|j: int| 0 <= j < self@.len() && #[trigger] self.0.holds(j, *k),
            r matches Some(v) ==> exists|j: int|
                0 <= j < self@.len() && #[trigger] self.0.holds(j, *k) && *v == self@[j].value,
    {
        match self.0.get(k) {
            Some((_, v)) => Some(v),
            None => None,
        }
    }

    /// The value, which can be changed, of the prefix that denotes the same
    /// range as `k`, if the map holds one.
    pub fn get_mut<Q>(&mut self, k: &Q) -> (r: Option<&mut V>) where
        Q: IpPrefix<Addr = K::Addr>,
        K: IpPrefixCovering<Q>,

        requires
            old(self).wf(),
        ensures
            r.is_some() <==> exists|j: int|
                0 <= j < old(self)@.len() && #[trigger] old(self).0.holds(j, *k),
            r matches Some(v) ==> exists|j: int|
                0 <= j < old(self)@.len() && #[trigger] old(self).0.holds(j, *k) && *v == old(
                    self,
                )@[j].value && final(self)@ == old(self)@.update(
                    j,
                    Leaf { prefix: old(self)@[j].prefix, value: *final(v) },
                ),
            r.is_none() ==> final(self)@ == old(self)@,
            final(self).0.branching == old(self).0.branching,
    {
        match self.0.get_mut(k) {
            Some((_, v)) => Some(v),
            None => None,
        }
    }

    /// Takes away the prefix that denotes the same range as `k`, if the map
    /// holds one, and returns its value.  The last entry takes the place of
    /// the entry that is taken away.  The root prefix cannot be taken away.
    pub fn remove<Q>(&mut self, k: &Q) -> (r: Option<V>) where
        Q: IpPrefix<Addr = K::Addr>,
        K: IpPrefixCovering<Q>,

        requires
            old(self).wf(),
            k.spec_len() != 0,
        ensures
            final(self).wf(),
            r.is_some() <==> exists|j: int|
                0 <= j < old(self)@.len() && #[trigger] old(self).0.holds(j, *k),
            r matches Some(w) ==> exists|j: int|
                0 < j < old(self)@.len() && #[trigger] old(self).0.holds(j, *k) && w == old(
                    self,
                )@[j].value && final(self)@ == old(self)@.update(j, old(self)@.last()).drop_last(),
            r.is_none() ==> final(self)@ == old(self)@,
    {
        self.0.remove(k)
    }

    /// The longest prefix of the map that covers `k`, and its value.
    pub fn lookup<Q>(&self, k: &Q) -> (r: (&K, &V)) where
        Q: IpPrefix<Addr = K::Addr>,
        K: IpPrefixCovering<Q>,

        requires
            self.wf(),
        ensures
            exists|l: int|
                self.0.is_lpm(l, *k) && *r.0 == (#[trigger] self.0.leaves@[l]).prefix && *r.1
                    == self@[l].value,
    {
        self.0.lookup(k)
    }

    /// The longest prefix of the map that covers `k`, and its value, which
    /// can be changed.
    pub fn lookup_mut<Q>(&mut self, k: &Q) -> (r: (&K, &mut V)) where
        Q: IpPrefix<Addr = K::Addr>,
        K: IpPrefixCovering<Q>,

        requires
            old(self).wf(),
        ensures
            exists|l: int|
                old(self).0.is_lpm(l, *k) && *r.0 == (#[trigger] old(self).0.leaves@[l]).prefix && *r.1
                    == old(self)@[l].value && final(self)@ == old(self)@.update(
                    l,
                    Leaf { prefix: old(self)@[l].prefix, value: *final(r.1) },
                ),
            final(self).0.branching == old(self).0.branching,
    {
        self.0.lookup_mut(k)
    }

    /// The entries of the map, the root first, each once.
    pub fn iter(&self) -> (r: Vec<(&K, &V)>)
        ensures
            r@.len() == self@.len(),
            forall|j: int|
                0 <= j < r@.len() ==> *(#[trigger] r@[j]).0 == self@[j].prefix && *r@[j].1
                    == self@[j].value,
    {
        let leaves = self.0.iter();
        let mut out: Vec<(&K, &V)> = Vec::new();
        let n = leaves.len();
        let mut j: usize = 0;
        while j < n
            invariant
                0 <= j <= n,
                n == leaves@.len(),
                n == self@.len(),
                out@.len() == j,
                forall|i: int| 0 <= i < n ==> *(#[trigger] leaves@[i]) == self@[i],
                forall|i: int|
                    0 <= i < j ==> *(#[trigger] out@[i]).0 == self@[i].prefix && *out@[i].1
                        == self@[i].value,
            decreases n - j,
        {
            out.push(leaves[j].get());
            j += 1;
        }
        out
    }

    /// Gives each entry the value that `f` returns for its prefix and its
    /// value.  The prefixes stay as they are.
    pub fn iter_mut<F: Fn(&K, &V) -> V>(&mut self, f: &F)
        requires
            old(self).wf(),
            forall|j: int|
                0 <= j < old(self)@.len() ==> f.requires(
                    (&(#[trigger] old(self)@[j]).prefix, &old(self)@[j].value),
                ),
        ensures
            final(self).wf(),
            final(self).0.branching == old(self).0.branching,
            final(self)@.len() == old(self)@.len(),
            forall|j: int|
                0 <= j < old(self)@.len() ==> (#[trigger] final(self)@[j]).prefix == old(
                    self,
                )@[j].prefix && f.ensures(
                    (&old(self)@[j].prefix, &old(self)@[j].value),
                    final(self)@[j].value,
                ),
    {
        proof {
            assert forall|j: int| 0 <= j < self.0.leaves@.len() implies f.requires(
                (&(#[trigger] self.0.leaves@[j]).prefix, &self.0.leaves@[j].value),
            ) by {
                assert(self@[j] == self.0.leaves@[j]);
            }
        }
        self.0.iter_mut(f);
        proof {
            assert forall|j: int| 0 <= j < old(self)@.len() implies (#[trigger] self@[j]).prefix
                == old(self)@[j].prefix && f.ensures(
                (&old(self)@[j].prefix, &old(self)@[j].value),
                self@[j].value,
            ) by {
                assert(self@[j] == self.0.leaves@[j]);
            }
        }
    }

    /// The prefixes of the map, as a set laid out in the same way.
    pub fn prefixes(&self) -> (r: RTrieSet<K>)
        requires
            self.wf(),
        ensures
            r.wf(),
            r@.len() == self@.len(),
            forall|j: int| 0 <= j < self@.len() ==> (#[trigger] r@[j]).prefix == self@[j].prefix,
    {
        RTrieSet(self.0.map(|_v: &V| -> (r: ()) { () }))
    }

    /// Stores each value of `items` for its prefix, in turn.
    pub fn extend(&mut self, items: Vec<(K, V)>)
        requires
            old(self).wf(),
            old(self)@.len() + items@.len() < INDEX_MAX,
        ensures
            final(self).wf(),
            final(self)@ == stored_all(old(self)@, items@, items@.len() as int),
    {
        let ghost all = items@;
        let ghost total = all.len() as int;
        let mut items = items;
        let mut rest: Vec<(K, V)> = Vec::new();
        while items.len() > 0
            invariant
                items@.len() + rest@.len() == total,
                forall|t: int| 0 <= t < rest@.len() ==> #[trigger] rest@[t] == all[total - 1 - t],
                forall|t: int| 0 <= t < items@.len() ==> #[trigger] items@[t] == all[t],
            decreases items@.len(),
        {
            let item = items.pop().unwrap();
            rest.push(item);
        }
        while rest.len() > 0
            invariant
                self.wf(),
                rest@.len() <= total,
                forall|t: int| 0 <= t < rest@.len() ==> #[trigger] rest@[t] == all[total - 1 - t],
                self@ == stored_all(old(self)@, all, total - rest@.len()),
                self@.len() <= old(self)@.len() + total - rest@.len(),
                old(self)@.len() + total < INDEX_MAX,
            decreases rest@.len(),
        {
            let ghost i = total - rest@.len();
            let ghost pre = *self;
            let (k, v) = rest.pop().unwrap();
            assert((k, v) == all[i]);
            let former = self.insert(k, v);
            proof {
                if former.is_none() {
                    assert forall|j: int| !held_at(pre@, j, k) by {
                        if held_at(pre@, j, k) {
                            assert(pre.0.holds(j, k));
                        }
                    }
                } else {
                    let j = choose|j: int|
                        0 <= j < pre@.len() && #[trigger] pre.0.holds(j, k) && self@
                            == pre@.update(j, Leaf { prefix: pre@[j].prefix, value: v });
                    assert(held_at(pre@, j, k));
                    let j2 = choose|j: int| held_at(pre@, j, k);
                    assert(pre.0.holds(j2, k));
                    pre.0.lemma_holder_unique(k, j, j2);
                }
            }
        }
    }
}

impl<K: IpPrefix, V> LCTrieMap<K, V> {
    /// The invariant of the map.
    pub open spec fn wf(&self) -> bool {
        self.0.wf()
    }

    /// The number of entries, the root included: at least one.
    pub fn len(&self) -> (r: usize)
        requires
            self.wf(),
        ensures
            r == self@.len(),
            r >= 1,
    {
        self.0.len()
    }

    /// The value of the prefix that denotes the same range as `k`, if the map holds one.
    pub fn get<Q>(&self, k: &Q) -> (r: Option<&V>) where
        Q: IpPrefix<Addr = K::Addr>,
        K: IpPrefixCovering<Q>,

        requires
            self.wf(),
        ensures
            r.is_some() <==> exists|j: int| 0 <= j < self@.len() && #[trigger] self.0.holds(j, *k),
            r matches Some(v) ==> exists|j: int|
                0 <= j < self@.len() && #[trigger] self.0.holds(j, *k) && *v == self@[j].value,
    {
        self.0.get(k)
    }

    /// The value, which can be changed, of the prefix that denotes the same
    /// range as `k`, if the map holds one.
    pub fn get_mut<Q>(&mut self, k: &Q) -> (r: Option<&mut V>) where
        Q: IpPrefix<Addr = K::Addr>,
        K: IpPrefixCovering<Q>,

        requires
            old(self).wf(),
        ensures
            r.is_some() <==> exists|j: int|
                0 <= j < old(self)@.len() && #[trigger] old(self).0.holds(j, *k),
            r matches Some(v) ==> exists|j: int|
                0 <= j < old(self)@.len() && #[trigger] old(self).0.holds(j, *k) && *v == old(
                    self,
                )@[j].value && final(self)@ == old(self)@.update(
                    j,
                    Leaf { prefix: old(self)@[j].prefix, value: *final(v) },
                ),
            r.is_none() ==> final(self)@ == old(self)@,
            final(self).0.branching == old(self).0.branching,
    {
        self.0.get_mut(k)
    }

    /// The longest prefix of the map that covers `k`, and its value.
    pub fn lookup<Q>(&self, k: &Q) -> (r: (&K, &V)) where
        Q: IpPrefix<Addr = K::Addr>,
        K: IpPrefixCovering<Q>,

        requires
            self.wf(),
        ensures
            exists|l: int|
                self.0.is_lpm(l, *k) && *r.0 == (#[trigger] self.0.leaves@[l]).prefix && *r.1
                    == self@[l].value,
    {
        self.0.lookup(k)
    }

    /// The longest prefix of the map that covers `k`, and its value, which
    /// can be changed.
    pub fn lookup_mut<Q>(&mut self, k: &Q) -> (r: (&K, &mut V)) where
        Q: IpPrefix<Addr = K::Addr>,
        K: IpPrefixCovering<Q>,

        requires
            old(self).wf(),
        ensures
            exists|l: int|
                old(self).0.is_lpm(l, *k) && *r.0 == (#[trigger] old(self).0.leaves@[l]).prefix
                    && *r.1 == old(self)@[l].value && final(self)@ == old(self)@.update(
                    l,
                    Leaf { prefix: old(self)@[l].prefix, value: *final(r.1) },
                ),
            final(self).0.branching == old(self).0.branching,
    {
        self.0.lookup_mut(k)
    }

    /// The entries of the map, the root first, each once.
    pub fn iter(&self) -> (r: Vec<(&K, &V)>)
        ensures
            r@.len() == self@.len(),
            forall|j: int|
                0 <= j < r@.len() ==> *(#[trigger] r@[j]).0 == self@[j].prefix && *r@[j].1
                    == self@[j].value,
    {
        let leaves = self.0.iter();
        let mut out: Vec<(&K, &V)> = Vec::new();
        let n = leaves.len();
        let mut j: usize = 0;
        while j < n
            invariant
                0 <= j <= n,
                n == leaves@.len(),
                n == self@.len(),
                out@.len() == j,
                forall|i: int| 0 <= i < n ==> *(#[trigger] leaves@[i]) == self@[i],
                forall|i: int|
                    0 <= i < j ==> *(#[trigger] out@[i]).0 == self@[i].prefix && *out@[i].1
                        == self@[i].value,
            decreases n - j,
        {
            out.push(leaves[j].get());
            j += 1;
        }
        out
    }

    /// Gives each entry the value that `f` returns for its prefix and its
    /// value.  The prefixes stay as they are.
    pub fn iter_mut<F: Fn(&K, &V) -> V>(&mut self, f: &F)
        requires
            old(self).wf(),
            forall|j: int|
                0 <= j < old(self)@.len() ==> f.requires(
                    (&(#[trigger] old(self)@[j]).prefix, &old(self)@[j].value),
                ),
        ensures
            final(self).wf(),
            final(self).0.branching == old(self).0.branching,
            final(self)@.len() == old(self)@.len(),
            forall|j: int|
                0 <= j < old(self)@.len() ==> (#[trigger] final(self)@[j]).prefix == old(
                    self,
                )@[j].prefix && f.ensures(
                    (&old(self)@[j].prefix, &old(self)@[j].value),
                    final(self)@[j].value,
                ),
    {
        proof {
            assert forall|j: int| 0 <= j < self.0.leaves@.len() implies f.requires(
                (&(#[trigger] self.0.leaves@[j]).prefix, &self.0.leaves@[j].value),
            ) by {
                assert(self@[j] == self.0.leaves@[j]);
            }
        }
        self.0.iter_mut(f);
        proof {
            assert forall|j: int| 0 <= j < old(self)@.len() implies (#[trigger] self@[j]).prefix
                == old(self)@[j].prefix && f.ensures(
                (&old(self)@[j].prefix, &old(self)@[j].value),
                self@[j].value,
            ) by {
                assert(self@[j] == self.0.leaves@[j]);
            }
        }
    }

    /// The prefixes of the map, as a set laid out in the same way.
    pub fn prefixes(&self) -> (r: LCTrieSet<K>)
        requires
            self.wf(),
        ensures
            r.wf(),
            r@.len() == self@.len(),
            forall|j: int| 0 <= j < self@.len() ==> (#[trigger] r@[j]).prefix == self@[j].prefix,
    {
        LCTrieSet(self.0.map(|_v: &V| -> (r: ()) { () }))
    }
}

} // verus!
