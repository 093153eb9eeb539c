//! Longest-prefix-match tries over IP prefixes: a radix trie that can be
//! changed, and a level-compressed trie built from it for faster lookups.
pub mod map;
pub mod prefix;
pub mod set;
pub mod trie;

use vstd::prelude::*;
use crate::map::{LCTrieMap, RTrieMap};
use crate::prefix::ipstd::{Ipv4Net, Ipv4Prefix, Ipv6Net, Ipv6Prefix};
use crate::prefix::shorten::IpPrefixShortening;
use crate::prefix::slot::BitSlot;
use crate::prefix::IpPrefix;
use crate::set::{LCTrieSet, RTrieSet};
use crate::trie::common::{Leaf, LeafIndex, TrieLeaves, INDEX_MAX};

verus! {

/// A radix trie set of IPv4 prefixes.
pub type Ipv4RTrieSet = RTrieSet<Ipv4Prefix>;

/// A radix trie set of IPv6 prefixes.
pub type Ipv6RTrieSet = RTrieSet<Ipv6Prefix>;

/// A level-compressed trie set of IPv4 prefixes.
pub type Ipv4LCTrieSet = LCTrieSet<Ipv4Prefix>;

/// A level-compressed trie set of IPv6 prefixes.
pub type Ipv6LCTrieSet = LCTrieSet<Ipv6Prefix>;

/// A radix trie map of IPv4 prefixes.
pub type Ipv4RTrieMap<V> = RTrieMap<Ipv4Prefix, V>;

/// A radix trie map of IPv6 prefixes.
pub type Ipv6RTrieMap<V> = RTrieMap<Ipv6Prefix, V>;

/// A level-compressed trie map of IPv4 prefixes.
pub type Ipv4LCTrieMap<V> = LCTrieMap<Ipv4Prefix, V>;

/// A level-compressed trie map of IPv6 prefixes.
pub type Ipv6LCTrieMap<V> = LCTrieMap<Ipv6Prefix, V>;

/// A network of either family.
#[derive(Copy, Clone, Eq, PartialEq, Hash, Debug, Structural)]
pub enum IpNet {
    V4(Ipv4Net),
    V6(Ipv6Net),
}

impl IpNet {
    /// This is the IPv4 network with the bits and the length of `p`.
    pub open spec fn is_v4(&self, p: Ipv4Prefix) -> bool {
        *self matches IpNet::V4(n) && n.spec_len() == p.spec_len() && n.spec_bitslot()
            == p.spec_bitslot()
    }

    /// This is the IPv6 network with the bits and the length of `p`.
    pub open spec fn is_v6(&self, p: Ipv6Prefix) -> bool {
        *self matches IpNet::V6(n) && n.spec_len() == p.spec_len() && n.spec_bitslot()
            == p.spec_bitslot()
    }

    /// Shortens the network to `maxlen` bits, and clears the bits of the
    /// address after its former length; a network that is not longer than
    /// `maxlen` is left as it is.
    pub fn shorten(&mut self, maxlen: u8)
        ensures
            match *old(self) {
                IpNet::V4(n) => *final(self) matches IpNet::V4(m) && (maxlen >= n.spec_len()
                    ==> m == n) && (maxlen < n.spec_len() ==> m.spec_len() == maxlen && forall|
                    i: int,
                |
                    m.spec_bitslot().bit(i) == (i <= n.spec_len() && n.spec_bitslot().bit(i))),
                IpNet::V6(n) => *final(self) matches IpNet::V6(m) && (maxlen >= n.spec_len()
                    ==> m == n) && (maxlen < n.spec_len() ==> m.spec_len() == maxlen && forall|
                    i: int,
                |
                    m.spec_bitslot().bit(i) == (i <= n.spec_len() && n.spec_bitslot().bit(i))),
            },
    {
        let shorter = match *self {
            IpNet::V4(n) => {
                let mut m = n;
                m.shorten(maxlen);
                IpNet::V4(m)
            },
            IpNet::V6(n) => {
                let mut m = n;
                m.shorten(maxlen);
                IpNet::V6(m)
            },
        };
        *self = shorter;
    }
}

/// The function `f` can be called on each IPv4 leaf of `leaves`, the
/// prefix taken as a network.
pub open spec fn callable_v4<V, F: Fn(&IpNet, &V) -> V>(
    leaves: Seq<Leaf<Ipv4Prefix, V>>,
    f: &F,
) -> bool {
    forall|j: int, n: IpNet|
        0 <= j < leaves.len() && n.is_v4(leaves[j].prefix) ==> #[trigger] f.requires(
            (&n, &leaves[j].value),
        )
}

/// The leaves `after` have the prefixes of `before`, and each the value
/// that `f` returned for that prefix, as a network, and the value of `before`.
pub open spec fn changed_v4<V, F: Fn(&IpNet, &V) -> V>(
    before: Seq<Leaf<Ipv4Prefix, V>>,
    after: Seq<Leaf<Ipv4Prefix, V>>,
    f: &F,
) -> bool {
    &&& after.len() == before.len()
    &&& forall|j: int|
        0 <= j < before.len() ==> (#[trigger] after[j]).prefix == before[j].prefix && exists|
            n: IpNet,
        |
            n.is_v4(before[j].prefix) && #[trigger] f.ensures(
                (&n, &before[j].value),
                after[j].value,
            )
}

/// Gives each leaf the value that `f` returns for its prefix, as an IPv4
/// network, and its value.
fn update_v4<V, F: Fn(&IpNet, &V) -> V>(leaves: &mut TrieLeaves<Leaf<Ipv4Prefix, V>>, f: &F)
    requires
        old(leaves)@.len() <= INDEX_MAX,
        callable_v4(old(leaves)@, f),
    ensures
        changed_v4(old(leaves)@, final(leaves)@, f),
{
    let count = leaves.len();
    let mut j: usize = 0;
    while j < count
        invariant
            0 <= j <= count,
            count == leaves@.len(),
            count == old(leaves)@.len(),
            count <= INDEX_MAX,
            callable_v4(old(leaves)@, f),
            forall|i: int| j <= i < count ==> #[trigger] leaves@[i] == old(leaves)@[i],
            changed_v4(old(leaves)@.take(j as int), leaves@.take(j as int), f),
        decreases count - j,
    {
        let at = LeafIndex::from_index(j);
        let leaf = leaves.at(at);
        let k = leaf.prefix;
        let net = IpNet::V4(Ipv4Net::from(k));
        let w = f(&net, &leaf.value);
        let ghost before = leaves@;
        leaves.replace_at(at, Leaf::new(k, w));
        proof {
            let a = old(leaves)@.take(j + 1);
            let b = leaves@.take(j + 1);
            assert forall|i: int| 0 <= i < a.len() implies (#[trigger] b[i]).prefix
                == a[i].prefix && exists|n: IpNet|
                n.is_v4(a[i].prefix) && #[trigger] f.ensures((&n, &a[i].value), b[i].value) by {
                if i < j {
                    let a0 = old(leaves)@.take(j as int);
                    let b0 = before.take(j as int);
                    assert(b0[i].prefix == a0[i].prefix);
                    let n = choose|n: IpNet|
                        n.is_v4(a0[i].prefix) && #[trigger] f.ensures(
                            (&n, &a0[i].value),
                            b0[i].value,
                        );
                    assert(f.ensures((&n, &a[i].value), b[i].value));
                } else {
                    assert(net.is_v4(a[i].prefix));
                    assert(f.ensures((&net, &a[i].value), b[i].value));
                }
            }
            assert(a.len() == b.len());
            assert(changed_v4(a, b, f));
        }
        j += 1;
    }
    proof {
        assert(old(leaves)@.take(count as int) == old(leaves)@);
        assert(leaves@.take(count as int) == leaves@);
    }
}

/// The function `f` can be called on each IPv6 leaf of `leaves`, the
/// prefix taken as a network.
pub open spec fn callable_v6<V, F: Fn(&IpNet, &V) -> V>(
    leaves: Seq<Leaf<Ipv6Prefix, V>>,
    f: &F,
) -> bool {
    forall|j: int, n: IpNet|
        0 <= j < leaves.len() && n.is_v6(leaves[j].prefix) ==> #[trigger] f.requires(
            (&n, &leaves[j].value),
        )
}

/// The leaves `after` have the prefixes of `before`, and each the value
/// that `f` returned for that prefix, as a network, and the value of `before`.
pub open spec fn changed_v6<V, F: Fn(&IpNet, &V) -> V>(
    before: Seq<Leaf<Ipv6Prefix, V>>,
    after: Seq<Leaf<Ipv6Prefix, V>>,
    f: &F,
) -> bool {
    &&& after.len() == before.len()
    &&& forall|j: int|
        0 <= j < before.len() ==> (#[trigger] after[j]).prefix == before[j].prefix && exists|
            n: IpNet,
        |
            n.is_v6(before[j].prefix) && #[trigger] f.ensures(
                (&n, &before[j].value),
                after[j].value,
            )
}

/// Gives each leaf the value that `f` returns for its prefix, as an IPv6
/// network, and its value.
fn update_v6<V, F: Fn(&IpNet, &V) -> V>(leaves: &mut TrieLeaves<Leaf<Ipv6Prefix, V>>, f: &F)
    requires
        old(leaves)@.len() <= INDEX_MAX,
        callable_v6(old(leaves)@, f),
    ensures
        changed_v6(old(leaves)@, final(leaves)@, f),
{
    let count = leaves.len();
    let mut j: usize = 0;
    while j < count
        invariant
            0 <= j <= count,
            count == leaves@.len(),
            count == old(leaves)@.len(),
            count <= INDEX_MAX,
            callable_v6(old(leaves)@, f),
            forall|i: int| j <= i < count ==> #[trigger] leaves@[i] == old(leaves)@[i],
            changed_v6(old(leaves)@.take(j as int), leaves@.take(j as int), f),
        decreases count - j,
    {
        let at = LeafIndex::from_index(j);
        let leaf = leaves.at(at);
        let k = leaf.prefix;
        let net = IpNet::V6(Ipv6Net::from(k));
        let w = f(&net, &leaf.value);
        let ghost before = leaves@;
        leaves.replace_at(at, Leaf::new(k, w));
        proof {
            let a = old(leaves)@.take(j + 1);
            let b = leaves@.take(j + 1);
            assert forall|i: int| 0 <= i < a.len() implies (#[trigger] b[i]).prefix
                == a[i].prefix && exists|n: IpNet|
                n.is_v6(a[i].prefix) && #[trigger] f.ensures((&n, &a[i].value), b[i].value) by {
                if i < j {
                    let a0 = old(leaves)@.take(j as int);
                    let b0 = before.take(j as int);
                    assert(b0[i].prefix == a0[i].prefix);
                    let n = choose|n: IpNet|
                        n.is_v6(a0[i].prefix) && #[trigger] f.ensures(
                            (&n, &a0[i].value),
                            b0[i].value,
                        );
                    assert(f.ensures((&n, &a[i].value), b[i].value));
                } else {
                    assert(net.is_v6(a[i].prefix));
                    assert(f.ensures((&net, &a[i].value), b[i].value));
                }
            }
            assert(a.len() == b.len());
            assert(changed_v6(a, b, f));
        }
        j += 1;
    }
    proof {
        assert(old(leaves)@.take(count as int) == old(leaves)@);
        assert(leaves@.take(count as int) == leaves@);
    }
}

/// A radix trie set that holds IPv4 and IPv6 prefixes.
pub struct IpRTrieSet {
    pub ipv4: Ipv4RTrieSet,
    pub ipv6: Ipv6RTrieSet,
}

/// A level-compressed trie set that holds IPv4 and IPv6 prefixes.
pub struct IpLCTrieSet {
    pub ipv4: Ipv4LCTrieSet,
    pub ipv6: Ipv6LCTrieSet,
}

/// A radix trie map that holds IPv4 and IPv6 prefixes.
pub struct IpRTrieMap<V> {
    pub ipv4: Ipv4RTrieMap<V>,
    pub ipv6: Ipv6RTrieMap<V>,
}

/// A level-compressed trie map that holds IPv4 and IPv6 prefixes.
pub struct IpLCTrieMap<V> {
    pub ipv4: Ipv4LCTrieMap<V>,
    pub ipv6: Ipv6LCTrieMap<V>,
}

impl IpRTrieSet {
    /// The invariant of the set: that of both families.
    pub open spec fn wf(&self) -> bool {
        self.ipv4.wf() && self.ipv6.wf()
    }

    /// A set that holds the two root prefixes only.
    pub fn new() -> (r: Self)
        ensures
            r.wf(),
            r.ipv4@.len() == 1,
            r.ipv6@.len() == 1,
            r.ipv4@[0].prefix.spec_len() == 0,
            r.ipv6@[0].prefix.spec_len() == 0,
    {
        Self { ipv4: Ipv4RTrieSet::new(), ipv6: Ipv6RTrieSet::new() }
    }

    /// The set as level-compressed tries, with the same prefixes.
    pub fn compress(self) -> (r: IpLCTrieSet)
        requires
            self.wf(),
            5 * self.ipv4.0.branching.len() <= INDEX_MAX,
            5 * self.ipv6.0.branching.len() <= INDEX_MAX,
        ensures
            r.wf(),
            r.ipv4@ == self.ipv4@,
            r.ipv6@ == self.ipv6@,
    {
        IpLCTrieSet { ipv4: self.ipv4.compress(), ipv6: self.ipv6.compress() }
    }

    /// Gives back the memory that the set does not use.
    pub fn shrink_to_fit(&mut self)
        requires
            old(self).wf(),
        ensures
            final(self).wf(),
            final(self).ipv4@ == old(self).ipv4@,
            final(self).ipv6@ == old(self).ipv6@,
    {
        self.ipv4.shrink_to_fit();
        self.ipv6.shrink_to_fit();
    }

    /// The number of prefixes of both families, the two roots included; the
    /// greatest number where the sum does not fit.
    pub fn len(&self) -> (r: usize)
        requires
            self.wf(),
        ensures
            r == if self.ipv4@.len() + self.ipv6@.len() > usize::MAX {
                usize::MAX as int
            } else {
                (self.ipv4@.len() + self.ipv6@.len()) as int
            },
            r >= 2,
    {
        self.ipv4.len().saturating_add(self.ipv6.len())
    }

    /// Whether the set holds a prefix that denotes the same range as `ipnet`.
    pub fn contains(&self, ipnet: &IpNet) -> (r: bool)
        requires
            self.wf(),
        ensures
            r <==> match *ipnet {
                IpNet::V4(net) => exists|j: int|
                    0 <= j < self.ipv4@.len() && #[trigger] self.ipv4.0.holds(j, net),
                IpNet::V6(net) => exists|j: int|
                    0 <= j < self.ipv6@.len() && #[trigger] self.ipv6.0.holds(j, net),
            },
    {
        match ipnet {
            IpNet::V4(net) => self.ipv4.contains(net),
            IpNet::V6(net) => self.ipv6.contains(net),
        }
    }

    /// The prefix of the set that denotes the same range as `ipnet`, if the
    /// set holds one, as a network.
    pub fn get(&self, ipnet: &IpNet) -> (r: Option<IpNet>)
        requires
            self.wf(),
        ensures
            r.is_some() <==> match *ipnet {
                IpNet::V4(net) => exists|j: int|
                    0 <= j < self.ipv4@.len() && #[trigger] self.ipv4.0.holds(j, net),
                IpNet::V6(net) => exists|j: int|
                    0 <= j < self.ipv6@.len() && #[trigger] self.ipv6.0.holds(j, net),
            },
            r matches Some(IpNet::V4(found)) ==> *ipnet is V4 && exists|j: int|
                0 <= j < self.ipv4@.len() && #[trigger] self.ipv4.0.holds(j, ipnet->V4_0)
                    && found.spec_len() == self.ipv4@[j].prefix.spec_len() && found.spec_bitslot()
                    == self.ipv4@[j].prefix.spec_bitslot(),
            r matches Some(IpNet::V6(found)) ==> *ipnet is V6 && exists|j: int|
                0 <= j < self.ipv6@.len() && #[trigger] self.ipv6.0.holds(j, ipnet->V6_0)
                    && found.spec_len() == self.ipv6@[j].prefix.spec_len() && found.spec_bitslot()
                    == self.ipv6@[j].prefix.spec_bitslot(),
    {
        match ipnet {
            IpNet::V4(net) => match self.ipv4.get(net) {
                Some(p) => Some(IpNet::V4(Ipv4Net::from(*p))),
                None => None,
            },
            IpNet::V6(net) => match self.ipv6.get(net) {
                Some(p) => Some(IpNet::V6(Ipv6Net::from(*p))),
                None => None,
            },
        }
    }

    /// The longest prefix of the set that covers `ipnet`, as a network.
    pub fn lookup(&self, ipnet: &IpNet) -> (r: IpNet)
        requires
            self.wf(),
        ensures
            match *ipnet {
                IpNet::V4(net) => r is V4 && exists|l: int|
                    self.ipv4.0.is_lpm(l, net) && (r->V4_0).spec_len() == (
                    #[trigger] self.ipv4.0.leaves@[l]).prefix.spec_len() && (
                    r->V4_0).spec_bitslot() == self.ipv4.0.leaves@[l].prefix.spec_bitslot(),
                IpNet::V6(net) => r is V6 && exists|l: int|
                    self.ipv6.0.is_lpm(l, net) && (r->V6_0).spec_len() == (
                    #[trigger] self.ipv6.0.leaves@[l]).prefix.spec_len() && (
                    r->V6_0).spec_bitslot() == self.ipv6.0.leaves@[l].prefix.spec_bitslot(),
            },
    {
        match ipnet {
            IpNet::V4(net) => IpNet::V4(Ipv4Net::from(*self.ipv4.lookup(net))),
            IpNet::V6(net) => IpNet::V6(Ipv6Net::from(*self.ipv6.lookup(net))),
        }
    }

    /// Adds the prefix of `ipnet`, unless the set holds a prefix of the same
    /// range, which then stays.  Returns whether the prefix was added.
    pub fn insert(&mut self, ipnet: IpNet) -> (r: bool)
        requires
            old(self).wf(),
            old(self).ipv4@.len() < INDEX_MAX,
            old(self).ipv6@.len() < INDEX_MAX,
        ensures
            final(self).wf(),
            match ipnet {
                IpNet::V4(net) => {
                    let p = Ipv4Prefix::spec_from_net(net);
                    &&& final(self).ipv6@ == old(self).ipv6@
                    &&& r <==> !exists|j: int|
                        0 <= j < old(self).ipv4@.len() && #[trigger] old(self).ipv4.0.holds(j, p)
                    &&& r ==> final(self).ipv4@ == old(self).ipv4@.push(
                        (Leaf { prefix: p, value: () }),
                    )
                    &&& !r ==> final(self).ipv4@ == old(self).ipv4@
                },
                IpNet::V6(net) => {
                    let p = Ipv6Prefix::spec_from_net(net);
                    &&& final(self).ipv4@ == old(self).ipv4@
                    &&& r <==> !exists|j: int|
                        0 <= j < old(self).ipv6@.len() && #[trigger] old(self).ipv6.0.holds(j, p)
                    &&& r ==> final(self).ipv6@ == old(self).ipv6@.push(
                        (Leaf { prefix: p, value: () }),
                    )
                    &&& !r ==> final(self).ipv6@ == old(self).ipv6@
                },
            },
    {
        match ipnet {
            IpNet::V4(net) => self.ipv4.insert(Ipv4Prefix::from(net)),
            IpNet::V6(net) => self.ipv6.insert(Ipv6Prefix::from(net)),
        }
    }

    /// Takes away the prefix that denotes the same range as `ipnet`, if the
    /// set holds one; the last prefix of that family takes its place.
    /// Returns whether a prefix was taken away.  A root prefix cannot be
    /// taken away.
    pub fn remove(&mut self, ipnet: &IpNet) -> (r: bool)
        requires
            old(self).wf(),
            match *ipnet {
                IpNet::V4(net) => net.spec_len() != 0,
                IpNet::V6(net) => net.spec_len() != 0,
            },
        ensures
            final(self).wf(),
            match *ipnet {
                IpNet::V4(net) => {
                    &&& final(self).ipv6@ == old(self).ipv6@
                    &&& r <==> exists|j: int|
                        0 <= j < old(self).ipv4@.len() && #[trigger] old(self).ipv4.0.holds(j, net)
                    &&& r ==> exists|j: int|
                        0 < j < old(self).ipv4@.len() && #[trigger] old(self).ipv4.0.holds(j, net)
                            && final(self).ipv4@ == old(self).ipv4@.update(
                            j,
                            old(self).ipv4@.last(),
                        ).drop_last()
                    &&& !r ==> final(self).ipv4@ == old(self).ipv4@
                },
                IpNet::V6(net) => {
                    &&& final(self).ipv4@ == old(self).ipv4@
                    &&& r <==> exists|j: int|
                        0 <= j < old(self).ipv6@.len() && #[trigger] old(self).ipv6.0.holds(j, net)
                    &&& r ==> exists|j: int|
                        0 < j < old(self).ipv6@.len() && #[trigger] old(self).ipv6.0.holds(j, net)
                            && final(self).ipv6@ == old(self).ipv6@.update(
                            j,
                            old(self).ipv6@.last(),
                        ).drop_last()
                    &&& !r ==> final(self).ipv6@ == old(self).ipv6@
                },
            },
    {
        match ipnet {
            IpNet::V4(net) => self.ipv4.remove(net),
            IpNet::V6(net) => self.ipv6.remove(net),
        }
    }

    /// Puts the prefix of `ipnet` into the set.  Where the set holds a prefix
    /// of the same range, the new prefix takes its place and the former one
    /// is returned, as a network; else the prefix is added.
    pub fn replace(&mut self, ipnet: IpNet) -> (r: Option<IpNet>)
        requires
            old(self).wf(),
            old(self).ipv4@.len() < INDEX_MAX,
            old(self).ipv6@.len() < INDEX_MAX,
        ensures
            final(self).wf(),
            match ipnet {
                IpNet::V4(net) => {
                    let p = Ipv4Prefix::spec_from_net(net);
                    &&& final(self).ipv6@ == old(self).ipv6@
                    &&& r.is_some() <==> exists|j: int|
                        0 <= j < old(self).ipv4@.len() && #[trigger] old(self).ipv4.0.holds(j, p)
                    &&& r matches Some(w) ==> exists|j: int|
                        0 <= j < old(self).ipv4@.len() && #[trigger] old(self).ipv4.0.holds(j, p)
                            && w.is_v4(old(self).ipv4@[j].prefix) && final(self).ipv4@ == old(
                            self,
                        ).ipv4@.update(j, (Leaf { prefix: p, value: () }))
                    &&& r.is_none() ==> final(self).ipv4@ == old(self).ipv4@.push(
                        (Leaf { prefix: p, value: () }),
                    )
                },
                IpNet::V6(net) => {
                    let p = Ipv6Prefix::spec_from_net(net);
                    &&& final(self).ipv4@ == old(self).ipv4@
                    &&& r.is_some() <==> exists|j: int|
                        0 <= j < old(self).ipv6@.len() && #[trigger] old(self).ipv6.0.holds(j, p)
                    &&& r matches Some(w) ==> exists|j: int|
                        0 <= j < old(self).ipv6@.len() && #[trigger] old(self).ipv6.0.holds(j, p)
                            && w.is_v6(old(self).ipv6@[j].prefix) && final(self).ipv6@ == old(
                            self,
                        ).ipv6@.update(j, (Leaf { prefix: p, value: () }))
                    &&& r.is_none() ==> final(self).ipv6@ == old(self).ipv6@.push(
                        (Leaf { prefix: p, value: () }),
                    )
                },
            },
    {
        match ipnet {
            IpNet::V4(net) => match self.ipv4.replace(Ipv4Prefix::from(net)) {
                Some(p) => Some(IpNet::V4(Ipv4Net::from(p))),
                None => None,
            },
            IpNet::V6(net) => match self.ipv6.replace(Ipv6Prefix::from(net)) {
                Some(p) => Some(IpNet::V6(Ipv6Net::from(p))),
                None => None,
            },
        }
    }

    /// The prefixes of the set as networks: those of IPv4, then those of IPv6.
    pub fn iter(&self) -> (r: Vec<IpNet>)
        requires
            self.wf(),
        ensures
            r@.len() == self.ipv4@.len() + self.ipv6@.len(),
            forall|i: int|
                0 <= i < self.ipv4@.len() ==> (#[trigger] r@[i]).is_v4(self.ipv4@[i].prefix),
            forall|j: int|
                0 <= j < self.ipv6@.len() ==> (#[trigger] r@[self.ipv4@.len() + j]).is_v6(
                    self.ipv6@[j].prefix,
                ),
    {
        let mut out: Vec<IpNet> = Vec::new();
        let v4 = self.ipv4.iter();
        let mut i: usize = 0;
        while i < v4.len()
            invariant
                0 <= i <= v4@.len(),
                out@.len() == i,
                v4@.len() == self.ipv4@.len(),
                forall|n: int| 0 <= n < v4@.len() ==> *(#[trigger] v4@[n]) == self.ipv4@[n].prefix,
                forall|n: int| 0 <= n < i ==> (#[trigger] out@[n]).is_v4(self.ipv4@[n].prefix),
            decreases v4@.len() - i,
        {
            out.push(IpNet::V4(Ipv4Net::from(*v4[i])));
            i += 1;
        }
        let v6 = self.ipv6.iter();
        let mut j: usize = 0;
        while j < v6.len()
            invariant
                0 <= j <= v6@.len(),
                out@.len() == v4@.len() + j,
                v4@.len() == self.ipv4@.len(),
                v6@.len() == self.ipv6@.len(),
                forall|n: int| 0 <= n < v6@.len() ==> *(#[trigger] v6@[n]) == self.ipv6@[n].prefix,
                forall|n: int|
                    0 <= n < v4@.len() ==> (#[trigger] out@[n]).is_v4(self.ipv4@[n].prefix),
                forall|n: int|
                    0 <= n < j ==> (#[trigger] out@[v4@.len() + n]).is_v6(self.ipv6@[n].prefix),
            decreases v6@.len() - j,
        {
            out.push(IpNet::V6(Ipv6Net::from(*v6[j])));
            j += 1;
        }
        out
    }
}

impl IpLCTrieSet {
    /// The invariant of the set: that of both families.
    pub open spec fn wf(&self) -> bool {
        self.ipv4.wf() && self.ipv6.wf()
    }

    /// The number of prefixes of both families, the two roots included; the
    /// greatest number where the sum does not fit.
    pub fn len(&self) -> (r: usize)
        requires
            self.wf(),
        ensures
            r == if self.ipv4@.len() + self.ipv6@.len() > usize::MAX {
                usize::MAX as int
            } else {
                (self.ipv4@.len() + self.ipv6@.len()) as int
            },
            r >= 2,
    {
        self.ipv4.len().saturating_add(self.ipv6.len())
    }

    /// Whether the set holds a prefix that denotes the same range as `ipnet`.
    pub fn contains(&self, ipnet: &IpNet) -> (r: bool)
        requires
            self.wf(),
        ensures
            r <==> match *ipnet {
                IpNet::V4(net) => exists|j: int|
                    0 <= j < self.ipv4@.len() && #[trigger] self.ipv4.0.holds(j, net),
                IpNet::V6(net) => exists|j: int|
                    0 <= j < self.ipv6@.len() && #[trigger] self.ipv6.0.holds(j, net),
            },
    {
        match ipnet {
            IpNet::V4(net) => self.ipv4.contains(net),
            IpNet::V6(net) => self.ipv6.contains(net),
        }
    }

    /// The prefix of the set that denotes the same range as `ipnet`, if the
    /// set holds one, as a network.
    pub fn get(&self, ipnet: &IpNet) -> (r: Option<IpNet>)
        requires
            self.wf(),
        ensures
            r.is_some() <==> match *ipnet {
                IpNet::V4(net) => exists|j: int|
                    0 <= j < self.ipv4@.len() && #[trigger] self.ipv4.0.holds(j, net),
                IpNet::V6(net) => exists|j: int|
                    0 <= j < self.ipv6@.len() && #[trigger] self.ipv6.0.holds(j, net),
            },
            r matches Some(IpNet::V4(found)) ==> *ipnet is V4 && exists|j: int|
                0 <= j < self.ipv4@.len() && #[trigger] self.ipv4.0.holds(j, ipnet->V4_0)
                    && found.spec_len() == self.ipv4@[j].prefix.spec_len() && found.spec_bitslot()
                    == self.ipv4@[j].prefix.spec_bitslot(),
            r matches Some(IpNet::V6(found)) ==> *ipnet is V6 && exists|j: int|
                0 <= j < self.ipv6@.len() && #[trigger] self.ipv6.0.holds(j, ipnet->V6_0)
                    && found.spec_len() == self.ipv6@[j].prefix.spec_len() && found.spec_bitslot()
                    == self.ipv6@[j].prefix.spec_bitslot(),
    {
        match ipnet {
            IpNet::V4(net) => match self.ipv4.get(net) {
                Some(p) => Some(IpNet::V4(Ipv4Net::from(*p))),
                None => None,
            },
            IpNet::V6(net) => match self.ipv6.get(net) {
                Some(p) => Some(IpNet::V6(Ipv6Net::from(*p))),
                None => None,
            },
        }
    }

    /// The longest prefix of the set that covers `ipnet`, as a network.
    pub fn lookup(&self, ipnet: &IpNet) -> (r: IpNet)
        requires
            self.wf(),
        ensures
            match *ipnet {
                IpNet::V4(net) => r is V4 && exists|l: int|
                    self.ipv4.0.is_lpm(l, net) && (r->V4_0).spec_len() == (
                    #[trigger] self.ipv4.0.leaves@[l]).prefix.spec_len() && (
                    r->V4_0).spec_bitslot() == self.ipv4.0.leaves@[l].prefix.spec_bitslot(),
                IpNet::V6(net) => r is V6 && exists|l: int|
                    self.ipv6.0.is_lpm(l, net) && (r->V6_0).spec_len() == (
                    #[trigger] self.ipv6.0.leaves@[l]).prefix.spec_len() && (
                    r->V6_0).spec_bitslot() == self.ipv6.0.leaves@[l].prefix.spec_bitslot(),
            },
    {
        match ipnet {
            IpNet::V4(net) => IpNet::V4(Ipv4Net::from(*self.ipv4.lookup(net))),
            IpNet::V6(net) => IpNet::V6(Ipv6Net::from(*self.ipv6.lookup(net))),
        }
    }

    /// The prefixes of the set as networks: those of IPv4, then those of IPv6.
    pub fn iter(&self) -> (r: Vec<IpNet>)
        requires
            self.wf(),
        ensures
            r@.len() == self.ipv4@.len() + self.ipv6@.len(),
            forall|i: int|
                0 <= i < self.ipv4@.len() ==> (#[trigger] r@[i]).is_v4(self.ipv4@[i].prefix),
            forall|j: int|
                0 <= j < self.ipv6@.len() ==> (#[trigger] r@[self.ipv4@.len() + j]).is_v6(
                    self.ipv6@[j].prefix,
                ),
    {
        let mut out: Vec<IpNet> = Vec::new();
        let v4 = self.ipv4.iter();
        let mut i: usize = 0;
        while i < v4.len()
            invariant
                0 <= i <= v4@.len(),
                out@.len() == i,
                v4@.len() == self.ipv4@.len(),
                forall|n: int| 0 <= n < v4@.len() ==> *(#[trigger] v4@[n]) == self.ipv4@[n].prefix,
                forall|n: int| 0 <= n < i ==> (#[trigger] out@[n]).is_v4(self.ipv4@[n].prefix),
            decreases v4@.len() - i,
        {
            out.push(IpNet::V4(Ipv4Net::from(*v4[i])));
            i += 1;
        }
        let v6 = self.ipv6.iter();
        let mut j: usize = 0;
        while j < v6.len()
            invariant
                0 <= j <= v6@.len(),
                out@.len() == v4@.len() + j,
                v4@.len() == self.ipv4@.len(),
                v6@.len() == self.ipv6@.len(),
                forall|n: int| 0 <= n < v6@.len() ==> *(#[trigger] v6@[n]) == self.ipv6@[n].prefix,
                forall|n: int|
                    0 <= n < v4@.len() ==> (#[trigger] out@[n]).is_v4(self.ipv4@[n].prefix),
                forall|n: int|
                    0 <= n < j ==> (#[trigger] out@[v4@.len() + n]).is_v6(self.ipv6@[n].prefix),
            decreases v6@.len() - j,
        {
            out.push(IpNet::V6(Ipv6Net::from(*v6[j])));
            j += 1;
        }
        out
    }
}

impl<V: Default> IpRTrieMap<V> {
    /// A map that holds the two root prefixes only, with the default value.
    pub fn new() -> (r: Self)
        ensures
            r.wf(),
            r.ipv4@.len() == 1,
            r.ipv6@.len() == 1,
            r.ipv4@[0].prefix.spec_len() == 0,
            r.ipv6@[0].prefix.spec_len() == 0,
    {
        Self { ipv4: Ipv4RTrieMap::new(), ipv6: Ipv6RTrieMap::new() }
    }
}

impl<V> IpRTrieMap<V> {
    /// The invariant of the map: that of both families.
    pub open spec fn wf(&self) -> bool {
        self.ipv4.wf() && self.ipv6.wf()
    }

    /// A map that holds the two root prefixes only, with these values.
    pub fn with_roots(ipv4: V, ipv6: V) -> (r: Self)
        ensures
            r.wf(),
            r.ipv4@.len() == 1,
            r.ipv6@.len() == 1,
            r.ipv4@[0].value == ipv4,
            r.ipv6@[0].value == ipv6,
            r.ipv4@[0].prefix.spec_len() == 0,
            r.ipv6@[0].prefix.spec_len() == 0,
    {
        Self { ipv4: RTrieMap::with_root(ipv4), ipv6: RTrieMap::with_root(ipv6) }
    }

    /// The number of entries of both families, the two roots included; the
    /// greatest number where the sum does not fit.
    pub fn len(&self) -> (r: usize)
        requires
            self.wf(),
        ensures
            r == if self.ipv4@.len() + self.ipv6@.len() > usize::MAX {
                usize::MAX as int
            } else {
                (self.ipv4@.len() + self.ipv6@.len()) as int
            },
            r >= 2,
    {
        self.ipv4.len().saturating_add(self.ipv6.len())
    }

    /// The map as level-compressed tries, with the same entries.
    pub fn compress(self) -> (r: IpLCTrieMap<V>)
        requires
            self.wf(),
            5 * self.ipv4.0.branching.len() <= INDEX_MAX,
            5 * self.ipv6.0.branching.len() <= INDEX_MAX,
        ensures
            r.wf(),
            r.ipv4@ == self.ipv4@,
            r.ipv6@ == self.ipv6@,
    {
        IpLCTrieMap { ipv4: self.ipv4.compress(), ipv6: self.ipv6.compress() }
    }

    /// Gives back the memory that the map does not use.
    pub fn shrink_to_fit(&mut self)
        requires
            old(self).wf(),
        ensures
            final(self).wf(),
            final(self).ipv4@ == old(self).ipv4@,
            final(self).ipv6@ == old(self).ipv6@,
    {
        self.ipv4.shrink_to_fit();
        self.ipv6.shrink_to_fit();
    }

    /// The value of the prefix that denotes the same range as `ipnet`, if the
    /// map holds one.
    pub fn get(&self, ipnet: &IpNet) -> (r: Option<&V>)
        requires
            self.wf(),
        ensures
            match *ipnet {
                IpNet::V4(net) => (r.is_some() <==> exists|j: int|
                    0 <= j < self.ipv4@.len() && #[trigger] self.ipv4.0.holds(j, net)) && (
                r matches Some(v) ==> exists|j: int|
                    0 <= j < self.ipv4@.len() && #[trigger] self.ipv4.0.holds(j, net) && *v
                        == self.ipv4@[j].value),
                IpNet::V6(net) => (r.is_some() <==> exists|j: int|
                    0 <= j < self.ipv6@.len() && #[trigger] self.ipv6.0.holds(j, net)) && (
                r matches Some(v) ==> exists|j: int|
                    0 <= j < self.ipv6@.len() && #[trigger] self.ipv6.0.holds(j, net) && *v
                        == self.ipv6@[j].value),
            },
    {
        match ipnet {
            IpNet::V4(net) => self.ipv4.get(net),
            IpNet::V6(net) => self.ipv6.get(net),
        }
    }

    /// The longest prefix of the map that covers `ipnet`, as a network, and its value.
    pub fn lookup(&self, ipnet: &IpNet) -> (r: (IpNet, &V))
        requires
            self.wf(),
        ensures
            match *ipnet {
                IpNet::V4(net) => r.0 is V4 && exists|l: int|
                    self.ipv4.0.is_lpm(l, net) && (r.0->V4_0).spec_len() == (
                    #[trigger] self.ipv4.0.leaves@[l]).prefix.spec_len() && (
                    r.0->V4_0).spec_bitslot() == self.ipv4.0.leaves@[l].prefix.spec_bitslot()
                        && *r.1 == self.ipv4.0.leaves@[l].value,
                IpNet::V6(net) => r.0 is V6 && exists|l: int|
                    self.ipv6.0.is_lpm(l, net) && (r.0->V6_0).spec_len() == (
                    #[trigger] self.ipv6.0.leaves@[l]).prefix.spec_len() && (
                    r.0->V6_0).spec_bitslot() == self.ipv6.0.leaves@[l].prefix.spec_bitslot()
                        && *r.1 == self.ipv6.0.leaves@[l].value,
            },
    {
        match ipnet {
            IpNet::V4(net) => {
                let (k, v) = self.ipv4.lookup(net);
                (IpNet::V4(Ipv4Net::from(*k)), v)
            },
            IpNet::V6(net) => {
                let (k, v) = self.ipv6.lookup(net);
                (IpNet::V6(Ipv6Net::from(*k)), v)
            },
        }
    }

    /// Stores `v` for the prefix of `ipnet`.  Where the map holds a prefix of
    /// the same range, that prefix stays, `v` takes the place of its value,
    /// and the former value is returned; else the prefix is added.
    pub fn insert(&mut self, ipnet: IpNet, v: V) -> (r: Option<V>)
        requires
            old(self).wf(),
            old(self).ipv4@.len() < INDEX_MAX,
            old(self).ipv6@.len() < INDEX_MAX,
        ensures
            final(self).wf(),
            match ipnet {
                IpNet::V4(net) => {
                    let p = Ipv4Prefix::spec_from_net(net);
                    &&& final(self).ipv6@ == old(self).ipv6@
                    &&& r.is_some() <==> exists|j: int|
                        0 <= j < old(self).ipv4@.len() && #[trigger] old(self).ipv4.0.holds(j, p)
                    &&& r matches Some(w) ==> exists|j: int|
                        0 <= j < old(self).ipv4@.len() && #[trigger] old(self).ipv4.0.holds(j, p)
                            && w == old(self).ipv4@[j].value && final(self).ipv4@ == old(
                            self,
                        ).ipv4@.update(j, (Leaf { prefix: old(self).ipv4@[j].prefix, value: v }))
                    &&& r.is_none() ==> final(self).ipv4@ == old(self).ipv4@.push(
                        (Leaf { prefix: p, value: v }),
                    )
                },
                IpNet::V6(net) => {
                    let p = Ipv6Prefix::spec_from_net(net);
                    &&& final(self).ipv4@ == old(self).ipv4@
                    &&& r.is_some() <==> exists|j: int|
                        0 <= j < old(self).ipv6@.len() && #[trigger] old(self).ipv6.0.holds(j, p)
                    &&& r matches Some(w) ==> exists|j: int|
                        0 <= j < old(self).ipv6@.len() && #[trigger] old(self).ipv6.0.holds(j, p)
                            && w == old(self).ipv6@[j].value && final(self).ipv6@ == old(
                            self,
                        ).ipv6@.update(j, (Leaf { prefix: old(self).ipv6@[j].prefix, value: v }))
                    &&& r.is_none() ==> final(self).ipv6@ == old(self).ipv6@.push(
                        (Leaf { prefix: p, value: v }),
                    )
                },
            },
    {
        match ipnet {
            IpNet::V4(net) => self.ipv4.insert(Ipv4Prefix::from(net), v),
            IpNet::V6(net) => self.ipv6.insert(Ipv6Prefix::from(net), v),
        }
    }

    /// Takes away the prefix that denotes the same range as `ipnet`, if the
    /// map holds one, and returns its value; the last entry of that family
    /// takes its place.  A root prefix cannot be taken away.
    pub fn remove(&mut self, ipnet: &IpNet) -> (r: Option<V>)
        requires
            old(self).wf(),
            match *ipnet {
                IpNet::V4(net) => net.spec_len() != 0,
                IpNet::V6(net) => net.spec_len() != 0,
            },
        ensures
            final(self).wf(),
            match *ipnet {
                IpNet::V4(net) => {
                    &&& final(self).ipv6@ == old(self).ipv6@
                    &&& r.is_some() <==> exists|j: int|
                        0 <= j < old(self).ipv4@.len() && #[trigger] old(self).ipv4.0.holds(j, net)
                    &&& r matches Some(w) ==> exists|j: int|
                        0 < j < old(self).ipv4@.len() && #[trigger] old(self).ipv4.0.holds(j, net)
                            && w == old(self).ipv4@[j].value && final(self).ipv4@ == old(
                            self,
                        ).ipv4@.update(j, old(self).ipv4@.last()).drop_last()
                    &&& r.is_none() ==> final(self).ipv4@ == old(self).ipv4@
                },
                IpNet::V6(net) => {
                    &&& final(self).ipv4@ == old(self).ipv4@
                    &&& r.is_some() <==> exists|j: int|
                        0 <= j < old(self).ipv6@.len() && #[trigger] old(self).ipv6.0.holds(j, net)
                    &&& r matches Some(w) ==> exists|j: int|
                        0 < j < old(self).ipv6@.len() && #[trigger] old(self).ipv6.0.holds(j, net)
                            && w == old(self).ipv6@[j].value && final(self).ipv6@ == old(
                            self,
                        ).ipv6@.update(j, old(self).ipv6@.last()).drop_last()
                    &&& r.is_none() ==> final(self).ipv6@ == old(self).ipv6@
                },
            },
    {
        match ipnet {
            IpNet::V4(net) => self.ipv4.remove(net),
            IpNet::V6(net) => self.ipv6.remove(net),
        }
    }

    /// The entries of the map, the prefixes as networks: those of IPv4,
    /// then those of IPv6.
    pub fn iter(&self) -> (r: Vec<(IpNet, &V)>)
        requires
            self.wf(),
        ensures
            r@.len() == self.ipv4@.len() + self.ipv6@.len(),
            forall|i: int|
                0 <= i < self.ipv4@.len() ==> (#[trigger] r@[i]).0.is_v4(self.ipv4@[i].prefix)
                    && *r@[i].1 == self.ipv4@[i].value,
            forall|j: int|
                0 <= j < self.ipv6@.len() ==> (#[trigger] r@[self.ipv4@.len() + j]).0.is_v6(
                    self.ipv6@[j].prefix,
                ) && *r@[self.ipv4@.len() + j].1 == self.ipv6@[j].value,
    {
        let mut out: Vec<(IpNet, &V)> = Vec::new();
        let v4 = self.ipv4.iter();
        let mut i: usize = 0;
        while i < v4.len()
            invariant
                0 <= i <= v4@.len(),
                out@.len() == i,
                v4@.len() == self.ipv4@.len(),
                forall|n: int|
                    0 <= n < v4@.len() ==> *(#[trigger] v4@[n]).0 == self.ipv4@[n].prefix
                        && *v4@[n].1 == self.ipv4@[n].value,
                forall|n: int|
                    0 <= n < i ==> (#[trigger] out@[n]).0.is_v4(self.ipv4@[n].prefix) && *out@[n].1
                        == self.ipv4@[n].value,
            decreases v4@.len() - i,
        {
            let (k, v) = v4[i];
            out.push((IpNet::V4(Ipv4Net::from(*k)), v));
            i += 1;
        }
        let v6 = self.ipv6.iter();
        let mut j: usize = 0;
        while j < v6.len()
            invariant
                0 <= j <= v6@.len(),
                out@.len() == v4@.len() + j,
                v4@.len() == self.ipv4@.len(),
                v6@.len() == self.ipv6@.len(),
                forall|n: int|
                    0 <= n < v6@.len() ==> *(#[trigger] v6@[n]).0 == self.ipv6@[n].prefix
                        && *v6@[n].1 == self.ipv6@[n].value,
                forall|n: int|
                    0 <= n < v4@.len() ==> (#[trigger] out@[n]).0.is_v4(self.ipv4@[n].prefix)
                        && *out@[n].1 == self.ipv4@[n].value,
                forall|n: int|
                    0 <= n < j ==> (#[trigger] out@[v4@.len() + n]).0.is_v6(self.ipv6@[n].prefix)
                        && *out@[v4@.len() + n].1 == self.ipv6@[n].value,
            decreases v6@.len() - j,
        {
            let (k, v) = v6[j];
            out.push((IpNet::V6(Ipv6Net::from(*k)), v));
            j += 1;
        }
        out
    }

    /// The prefixes of the map, as a set.
    pub fn prefixes(&self) -> (r: IpRTrieSet)
        requires
            self.wf(),
        ensures
            r.wf(),
            r.ipv4@.len() == self.ipv4@.len(),
            r.ipv6@.len() == self.ipv6@.len(),
            forall|j: int|
                0 <= j < self.ipv4@.len() ==> (#[trigger] r.ipv4@[j]).prefix
                    == self.ipv4@[j].prefix,
            forall|j: int|
                0 <= j < self.ipv6@.len() ==> (#[trigger] r.ipv6@[j]).prefix
                    == self.ipv6@[j].prefix,
    {
        IpRTrieSet { ipv4: self.ipv4.prefixes(), ipv6: self.ipv6.prefixes() }
    }

    /// The value of the prefix that denotes the same range as `ipnet`, if
    /// the map holds one; the value can be changed.
    pub fn get_mut(&mut self, ipnet: &IpNet) -> (r: Option<&mut V>)
        requires
            old(self).wf(),
        ensures
            final(self).ipv4.0.branching == old(self).ipv4.0.branching,
            final(self).ipv6.0.branching == old(self).ipv6.0.branching,
            match *ipnet {
                IpNet::V4(net) => {
                    &&& final(self).ipv6@ == old(self).ipv6@
                    &&& r.is_some() <==> exists|j: int|
                        0 <= j < old(self).ipv4@.len() && #[trigger] old(self).ipv4.0.holds(j, net)
                    &&& r matches Some(v) ==> exists|j: int|
                        0 <= j < old(self).ipv4@.len() && #[trigger] old(self).ipv4.0.holds(j, net)
                            && *v == old(self).ipv4@[j].value && final(self).ipv4@ == old(
                            self,
                        ).ipv4@.update(
                            j,
                            (Leaf { prefix: old(self).ipv4@[j].prefix, value: *final(v) }),
                        )
                    &&& r.is_none() ==> final(self).ipv4@ == old(self).ipv4@
                },
                IpNet::V6(net) => {
                    &&& final(self).ipv4@ == old(self).ipv4@
                    &&& r.is_some() <==> exists|j: int|
                        0 <= j < old(self).ipv6@.len() && #[trigger] old(self).ipv6.0.holds(j, net)
                    &&& r matches Some(v) ==> exists|j: int|
                        0 <= j < old(self).ipv6@.len() && #[trigger] old(self).ipv6.0.holds(j, net)
                            && *v == old(self).ipv6@[j].value && final(self).ipv6@ == old(
                            self,
                        ).ipv6@.update(
                            j,
                            (Leaf { prefix: old(self).ipv6@[j].prefix, value: *final(v) }),
                        )
                    &&& r.is_none() ==> final(self).ipv6@ == old(self).ipv6@
                },
            },
    {
        match ipnet {
            IpNet::V4(net) => self.ipv4.get_mut(net),
            IpNet::V6(net) => self.ipv6.get_mut(net),
        }
    }

    /// The longest prefix of the map that covers `ipnet`, as a network, and
    /// its value, which can be changed.
    pub fn lookup_mut(&mut self, ipnet: &IpNet) -> (r: (IpNet, &mut V))
        requires
            old(self).wf(),
        ensures
            final(self).ipv4.0.branching == old(self).ipv4.0.branching,
            final(self).ipv6.0.branching == old(self).ipv6.0.branching,
            match *ipnet {
                IpNet::V4(net) => final(self).ipv6@ == old(self).ipv6@ && exists|l: int|
                    old(self).ipv4.0.is_lpm(l, net) && r.0.is_v4(
                        (#[trigger] old(self).ipv4.0.leaves@[l]).prefix,
                    ) && *r.1 == old(self).ipv4@[l].value && final(self).ipv4@ == old(
                        self,
                    ).ipv4@.update(
                        l,
                        (Leaf { prefix: old(self).ipv4@[l].prefix, value: *final(r.1) }),
                    ),
                IpNet::V6(net) => final(self).ipv4@ == old(self).ipv4@ && exists|l: int|
                    old(self).ipv6.0.is_lpm(l, net) && r.0.is_v6(
                        (#[trigger] old(self).ipv6.0.leaves@[l]).prefix,
                    ) && *r.1 == old(self).ipv6@[l].value && final(self).ipv6@ == old(
                        self,
                    ).ipv6@.update(
                        l,
                        (Leaf { prefix: old(self).ipv6@[l].prefix, value: *final(r.1) }),
                    ),
            },
    {
        match ipnet {
            IpNet::V4(net) => {
                let (k, v) = self.ipv4.lookup_mut(net);
                (IpNet::V4(Ipv4Net::from(*k)), v)
            },
            IpNet::V6(net) => {
                let (k, v) = self.ipv6.lookup_mut(net);
                (IpNet::V6(Ipv6Net::from(*k)), v)
            },
        }
    }

    /// Gives each entry the value that `f` returns for its prefix, as a
    /// network, and its value: first those of IPv4, then those of IPv6.
    /// The prefixes stay as they are.
    pub fn iter_mut<F: Fn(&IpNet, &V) -> V>(&mut self, f: &F)
        requires
            old(self).wf(),
            callable_v4(old(self).ipv4@, f),
            callable_v6(old(self).ipv6@, f),
        ensures
            final(self).wf(),
            changed_v4(old(self).ipv4@, final(self).ipv4@, f),
            changed_v6(old(self).ipv6@, final(self).ipv6@, f),
    {
        update_v4(&mut self.ipv4.0.leaves, f);
        update_v6(&mut self.ipv6.0.leaves, f);
        proof {
            old(self).ipv4.0.lemma_values_free(&self.ipv4.0);
            old(self).ipv6.0.lemma_values_free(&self.ipv6.0);
        }
    }
}

impl<V> IpLCTrieMap<V> {
    /// The invariant of the map: that of both families.
    pub open spec fn wf(&self) -> bool {
        self.ipv4.wf() && self.ipv6.wf()
    }

    /// The number of entries of both families, the two roots included; the
    /// greatest number where the sum does not fit.
    pub fn len(&self) -> (r: usize)
        requires
            self.wf(),
        ensures
            r == if self.ipv4@.len() + self.ipv6@.len() > usize::MAX {
                usize::MAX as int
            } else {
                (self.ipv4@.len() + self.ipv6@.len()) as int
            },
            r >= 2,
    {
        self.ipv4.len().saturating_add(self.ipv6.len())
    }

    /// The value of the prefix that denotes the same range as `ipnet`, if the
    /// map holds one.
    pub fn get(&self, ipnet: &IpNet) -> (r: Option<&V>)
        requires
            self.wf(),
        ensures
            match *ipnet {
                IpNet::V4(net) => (r.is_some() <==> exists|j: int|
                    0 <= j < self.ipv4@.len() && #[trigger] self.ipv4.0.holds(j, net)) && (
                r matches Some(v) ==> exists|j: int|
                    0 <= j < self.ipv4@.len() && #[trigger] self.ipv4.0.holds(j, net) && *v
                        == self.ipv4@[j].value),
                IpNet::V6(net) => (r.is_some() <==> exists|j: int|
                    0 <= j < self.ipv6@.len() && #[trigger] self.ipv6.0.holds(j, net)) && (
                r matches Some(v) ==> exists|j: int|
                    0 <= j < self.ipv6@.len() && #[trigger] self.ipv6.0.holds(j, net) && *v
                        == self.ipv6@[j].value),
            },
    {
        match ipnet {
            IpNet::V4(net) => self.ipv4.get(net),
            IpNet::V6(net) => self.ipv6.get(net),
        }
    }

    /// The longest prefix of the map that covers `ipnet`, as a network, and its value.
    pub fn lookup(&self, ipnet: &IpNet) -> (r: (IpNet, &V))
        requires
            self.wf(),
        ensures
            match *ipnet {
                IpNet::V4(net) => r.0 is V4 && exists|l: int|
                    self.ipv4.0.is_lpm(l, net) && (r.0->V4_0).spec_len() == (
                    #[trigger] self.ipv4.0.leaves@[l]).prefix.spec_len() && (
                    r.0->V4_0).spec_bitslot() == self.ipv4.0.leaves@[l].prefix.spec_bitslot()
                        && *r.1 == self.ipv4.0.leaves@[l].value,
                IpNet::V6(net) => r.0 is V6 && exists|l: int|
                    self.ipv6.0.is_lpm(l, net) && (r.0->V6_0).spec_len() == (
                    #[trigger] self.ipv6.0.leaves@[l]).prefix.spec_len() && (
                    r.0->V6_0).spec_bitslot() == self.ipv6.0.leaves@[l].prefix.spec_bitslot()
                        && *r.1 == self.ipv6.0.leaves@[l].value,
            },
    {
        match ipnet {
            IpNet::V4(net) => {
                let (k, v) = self.ipv4.lookup(net);
                (IpNet::V4(Ipv4Net::from(*k)), v)
            },
            IpNet::V6(net) => {
                let (k, v) = self.ipv6.lookup(net);
                (IpNet::V6(Ipv6Net::from(*k)), v)
            },
        }
    }

    /// The entries of the map, the prefixes as networks: those of IPv4,
    /// then those of IPv6.
    pub fn iter(&self) -> (r: Vec<(IpNet, &V)>)
        requires
            self.wf(),
        ensures
            r@.len() == self.ipv4@.len() + self.ipv6@.len(),
            forall|i: int|
                0 <= i < self.ipv4@.len() ==> (#[trigger] r@[i]).0.is_v4(self.ipv4@[i].prefix)
                    && *r@[i].1 == self.ipv4@[i].value,
            forall|j: int|
                0 <= j < self.ipv6@.len() ==> (#[trigger] r@[self.ipv4@.len() + j]).0.is_v6(
                    self.ipv6@[j].prefix,
                ) && *r@[self.ipv4@.len() + j].1 == self.ipv6@[j].value,
    {
        let mut out: Vec<(IpNet, &V)> = Vec::new();
        let v4 = self.ipv4.iter();
        let mut i: usize = 0;
        while i < v4.len()
            invariant
                0 <= i <= v4@.len(),
                out@.len() == i,
                v4@.len() == self.ipv4@.len(),
                forall|n: int|
                    0 <= n < v4@.len() ==> *(#[trigger] v4@[n]).0 == self.ipv4@[n].prefix
                        && *v4@[n].1 == self.ipv4@[n].value,
                forall|n: int|
                    0 <= n < i ==> (#[trigger] out@[n]).0.is_v4(self.ipv4@[n].prefix) && *out@[n].1
                        == self.ipv4@[n].value,
            decreases v4@.len() - i,
        {
            let (k, v) = v4[i];
            out.push((IpNet::V4(Ipv4Net::from(*k)), v));
            i += 1;
        }
        let v6 = self.ipv6.iter();
        let mut j: usize = 0;
        while j < v6.len()
            invariant
                0 <= j <= v6@.len(),
                out@.len() == v4@.len() + j,
                v4@.len() == self.ipv4@.len(),
                v6@.len() == self.ipv6@.len(),
                forall|n: int|
                    0 <= n < v6@.len() ==> *(#[trigger] v6@[n]).0 == self.ipv6@[n].prefix
                        && *v6@[n].1 == self.ipv6@[n].value,
                forall|n: int|
                    0 <= n < v4@.len() ==> (#[trigger] out@[n]).0.is_v4(self.ipv4@[n].prefix)
                        && *out@[n].1 == self.ipv4@[n].value,
                forall|n: int|
                    0 <= n < j ==> (#[trigger] out@[v4@.len() + n]).0.is_v6(self.ipv6@[n].prefix)
                        && *out@[v4@.len() + n].1 == self.ipv6@[n].value,
            decreases v6@.len() - j,
        {
            let (k, v) = v6[j];
            out.push((IpNet::V6(Ipv6Net::from(*k)), v));
            j += 1;
        }
        out
    }

    /// The prefixes of the map, as a set.
    pub fn prefixes(&self) -> (r: IpLCTrieSet)
        requires
            self.wf(),
        ensures
            r.wf(),
            r.ipv4@.len() == self.ipv4@.len(),
            r.ipv6@.len() == self.ipv6@.len(),
            forall|j: int|
                0 <= j < self.ipv4@.len() ==> (#[trigger] r.ipv4@[j]).prefix
                    == self.ipv4@[j].prefix,
            forall|j: int|
                0 <= j < self.ipv6@.len() ==> (#[trigger] r.ipv6@[j]).prefix
                    == self.ipv6@[j].prefix,
    {
        IpLCTrieSet { ipv4: self.ipv4.prefixes(), ipv6: self.ipv6.prefixes() }
    }

    /// The value of the prefix that denotes the same range as `ipnet`, if
    /// the map holds one; the value can be changed.
    pub fn get_mut(&mut self, ipnet: &IpNet) -> (r: Option<&mut V>)
        requires
            old(self).wf(),
        ensures
            final(self).ipv4.0.branching == old(self).ipv4.0.branching,
            final(self).ipv6.0.branching == old(self).ipv6.0.branching,
            match *ipnet {
                IpNet::V4(net) => {
                    &&& final(self).ipv6@ == old(self).ipv6@
                    &&& r.is_some() <==> exists|j: int|
                        0 <= j < old(self).ipv4@.len() && #[trigger] old(self).ipv4.0.holds(j, net)
                    &&& r matches Some(v) ==> exists|j: int|
                        0 <= j < old(self).ipv4@.len() && #[trigger] old(self).ipv4.0.holds(j, net)
                            && *v == old(self).ipv4@[j].value && final(self).ipv4@ == old(
                            self,
                        ).ipv4@.update(
                            j,
                            (Leaf { prefix: old(self).ipv4@[j].prefix, value: *final(v) }),
                        )
                    &&& r.is_none() ==> final(self).ipv4@ == old(self).ipv4@
                },
                IpNet::V6(net) => {
                    &&& final(self).ipv4@ == old(self).ipv4@
                    &&& r.is_some() <==> exists|j: int|
                        0 <= j < old(self).ipv6@.len() && #[trigger] old(self).ipv6.0.holds(j, net)
                    &&& r matches Some(v) ==> exists|j: int|
                        0 <= j < old(self).ipv6@.len() && #[trigger] old(self).ipv6.0.holds(j, net)
                            && *v == old(self).ipv6@[j].value && final(self).ipv6@ == old(
                            self,
                        ).ipv6@.update(
                            j,
                            (Leaf { prefix: old(self).ipv6@[j].prefix, value: *final(v) }),
                        )
                    &&& r.is_none() ==> final(self).ipv6@ == old(self).ipv6@
                },
            },
    {
        match ipnet {
            IpNet::V4(net) => self.ipv4.get_mut(net),
            IpNet::V6(net) => self.ipv6.get_mut(net),
        }
    }

    /// The longest prefix of the map that covers `ipnet`, as a network, and
    /// its value, which can be changed.
    pub fn lookup_mut(&mut self, ipnet: &IpNet) -> (r: (IpNet, &mut V))
        requires
            old(self).wf(),
        ensures
            final(self).ipv4.0.branching == old(self).ipv4.0.branching,
            final(self).ipv6.0.branching == old(self).ipv6.0.branching,
            match *ipnet {
                IpNet::V4(net) => final(self).ipv6@ == old(self).ipv6@ && exists|l: int|
                    old(self).ipv4.0.is_lpm(l, net) && r.0.is_v4(
                        (#[trigger] old(self).ipv4.0.leaves@[l]).prefix,
                    ) && *r.1 == old(self).ipv4@[l].value && final(self).ipv4@ == old(
                        self,
                    ).ipv4@.update(
                        l,
                        (Leaf { prefix: old(self).ipv4@[l].prefix, value: *final(r.1) }),
                    ),
                IpNet::V6(net) => final(self).ipv4@ == old(self).ipv4@ && exists|l: int|
                    old(self).ipv6.0.is_lpm(l, net) && r.0.is_v6(
                        (#[trigger] old(self).ipv6.0.leaves@[l]).prefix,
                    ) && *r.1 == old(self).ipv6@[l].value && final(self).ipv6@ == old(
                        self,
                    ).ipv6@.update(
                        l,
                        (Leaf { prefix: old(self).ipv6@[l].prefix, value: *final(r.1) }),
                    ),
            },
    {
        match ipnet {
            IpNet::V4(net) => {
                let (k, v) = self.ipv4.lookup_mut(net);
                (IpNet::V4(Ipv4Net::from(*k)), v)
            },
            IpNet::V6(net) => {
                let (k, v) = self.ipv6.lookup_mut(net);
                (IpNet::V6(Ipv6Net::from(*k)), v)
            },
        }
    }

    /// Gives each entry the value that `f` returns for its prefix, as a
    /// network, and its value: first those of IPv4, then those of IPv6.
    /// The prefixes stay as they are.
    pub fn iter_mut<F: Fn(&IpNet, &V) -> V>(&mut self, f: &F)
        requires
            old(self).wf(),
            callable_v4(old(self).ipv4@, f),
            callable_v6(old(self).ipv6@, f),
        ensures
            final(self).wf(),
            changed_v4(old(self).ipv4@, final(self).ipv4@, f),
            changed_v6(old(self).ipv6@, final(self).ipv6@, f),
    {
        update_v4(&mut self.ipv4.0.leaves, f);
        update_v6(&mut self.ipv6.0.leaves, f);
        proof {
            old(self).ipv4.0.lemma_values_free(&self.ipv4.0);
            old(self).ipv6.0.lemma_values_free(&self.ipv6.0);
        }
    }
}

} // verus!
