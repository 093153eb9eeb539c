//! Coverage of one prefix by another.
use vstd::prelude::*;
use crate::prefix::slot::{BitSlot, upper_half, widen};
use crate::prefix::ipstd::{Ipv4Addr, Ipv4Net, Ipv4Prefix, Ipv6Addr, Ipv6Net, Ipv6Prefix};
use crate::prefix::routing::Ipv6NetRouting;
use crate::prefix::network::Ipv6NetPrefix;
use crate::prefix::IpPrefix;

verus! {

/// How a prefix stands to another: not covering it, covering it strictly, or
/// denoting the same range.
#[derive(Copy, Clone, PartialEq, Eq, Debug, Structural)]
pub enum IpPrefixCoverage {
    NoCover,
    WiderRange,
    SameRange,
}

impl IpPrefixCoverage {
    pub fn is_wider(&self) -> (r: bool)
        ensures
            r == (*self == IpPrefixCoverage::WiderRange),
    {
        *self == IpPrefixCoverage::WiderRange
    }

    pub fn is_same(&self) -> (r: bool)
        ensures
            r == (*self == IpPrefixCoverage::SameRange),
    {
        *self == IpPrefixCoverage::SameRange
    }

    pub fn is_covering(&self) -> (r: bool)
        ensures
            r == (*self != IpPrefixCoverage::NoCover),
    {
        *self != IpPrefixCoverage::NoCover
    }
}

/// The first `n` bits of `a` and of `b` are the same.
pub open spec fn agree<A: BitSlot, B: BitSlot>(a: A, b: B, n: int) -> bool {
    forall|i: int| #![trigger a.bit(i)] #![trigger b.bit(i)] 1 <= i <= n ==> a.bit(i) == b.bit(i)
}

/// The coverage of `q` by `p`: `p` covers `q` when `q` has the first
/// `p.len` bits of `p`, strictly when `p` is shorter.
pub open spec fn coverage<P: IpPrefix, Q: IpPrefix>(p: P, q: Q) -> IpPrefixCoverage {
    if !agree(p.spec_bitslot(), q.spec_bitslot(), p.spec_len() as int) {
        IpPrefixCoverage::NoCover
    } else if p.spec_len() < q.spec_len() {
        IpPrefixCoverage::WiderRange
    } else if p.spec_len() == q.spec_len() {
        IpPrefixCoverage::SameRange
    } else {
        IpPrefixCoverage::NoCover
    }
}

/// Coverage of a range that is given by its slot and its length.
pub fn covering_slot<P: IpPrefix>(p: &P, qs: P::Slot, ql: u8) -> (r: IpPrefixCoverage)
    ensures
        r == (if !agree(p.spec_bitslot(), qs, p.spec_len() as int) {
            IpPrefixCoverage::NoCover
        } else if p.spec_len() < ql {
            IpPrefixCoverage::WiderRange
        } else if p.spec_len() == ql {
            IpPrefixCoverage::SameRange
        } else {
            IpPrefixCoverage::NoCover
        }),
{
    let m = p.bitmask();
    let masked = qs.bitand(m);
    let t = p.bitslot_trunc();
    let pl = p.len();
    proof {
        if masked == t {
            assert forall|i: int| 1 <= i <= p.spec_len() implies p.spec_bitslot().bit(i) == qs.bit(
                i,
            ) by {
                assert(masked.bit(i) == t.bit(i));
            }
        } else {
            if agree(p.spec_bitslot(), qs, p.spec_len() as int) {
                assert forall|i: int| 1 <= i <= P::Slot::width() implies masked.bit(i) == t.bit(
                    i,
                ) by {}
                P::Slot::lemma_bits_decide(masked, t);
            }
        }
    }
    if !masked.same(&t) {
        IpPrefixCoverage::NoCover
    } else if pl < ql {
        IpPrefixCoverage::WiderRange
    } else if pl == ql {
        IpPrefixCoverage::SameRange
    } else {
        IpPrefixCoverage::NoCover
    }
}

/// Coverage between two prefixes that share a slot type.
pub fn covering_same_slot<P: IpPrefix, Q: IpPrefix<Slot = P::Slot>>(p: &P, q: &Q) -> (r:
    IpPrefixCoverage)
    ensures
        r == coverage(*p, *q),
{
    covering_slot(p, q.bitslot(), q.len())
}

/// Coverage of a prefix of type `P` by the implementing prefix.
pub trait IpPrefixCovering<P: IpPrefix>: IpPrefix {
    fn covering(&self, other: &P) -> (r: IpPrefixCoverage)
        ensures
            r == coverage(*self, *other),
    ;

    fn covers(&self, other: &P) -> (r: bool)
        ensures
            r == (coverage(*self, *other) != IpPrefixCoverage::NoCover),
    {
        self.covering(other).is_covering()
    }

    fn covers_striclty(&self, other: &P) -> (r: bool)
        ensures
            r == (coverage(*self, *other) == IpPrefixCoverage::WiderRange),
    {
        self.covering(other).is_wider()
    }

    fn covers_equally(&self, other: &P) -> (r: bool)
        ensures
            r == (coverage(*self, *other) == IpPrefixCoverage::SameRange),
    {
        self.covering(other).is_same()
    }
}

impl<P: IpPrefix> IpPrefixCovering<P> for P {
    fn covering(&self, other: &P) -> (r: IpPrefixCoverage) {
        covering_same_slot(self, other)
    }
}

impl IpPrefixCovering<Ipv4Net> for Ipv4Prefix {
    fn covering(&self, other: &Ipv4Net) -> (r: IpPrefixCoverage) {
        covering_same_slot(self, other)
    }
}

impl IpPrefixCovering<Ipv4Addr> for Ipv4Prefix {
    fn covering(&self, other: &Ipv4Addr) -> (r: IpPrefixCoverage) {
        covering_same_slot(self, other)
    }
}

impl IpPrefixCovering<Ipv4Prefix> for Ipv4Net {
    fn covering(&self, other: &Ipv4Prefix) -> (r: IpPrefixCoverage) {
        covering_same_slot(self, other)
    }
}

impl IpPrefixCovering<Ipv4Addr> for Ipv4Net {
    fn covering(&self, other: &Ipv4Addr) -> (r: IpPrefixCoverage) {
        covering_same_slot(self, other)
    }
}

impl IpPrefixCovering<Ipv6Net> for Ipv6Prefix {
    fn covering(&self, other: &Ipv6Net) -> (r: IpPrefixCoverage) {
        covering_same_slot(self, other)
    }
}

impl IpPrefixCovering<Ipv6Addr> for Ipv6Prefix {
    fn covering(&self, other: &Ipv6Addr) -> (r: IpPrefixCoverage) {
        covering_same_slot(self, other)
    }
}

impl IpPrefixCovering<Ipv6Prefix> for Ipv6Net {
    fn covering(&self, other: &Ipv6Prefix) -> (r: IpPrefixCoverage) {
        covering_same_slot(self, other)
    }
}

impl IpPrefixCovering<Ipv6Addr> for Ipv6Net {
    fn covering(&self, other: &Ipv6Addr) -> (r: IpPrefixCoverage) {
        covering_same_slot(self, other)
    }
}

impl IpPrefixCovering<Ipv6NetPrefix> for Ipv6NetRouting {
    fn covering(&self, other: &Ipv6NetPrefix) -> (r: IpPrefixCoverage) {
        covering_same_slot(self, other)
    }
}

impl IpPrefixCovering<Ipv6NetRouting> for Ipv6NetPrefix {
    fn covering(&self, other: &Ipv6NetRouting) -> (r: IpPrefixCoverage) {
        covering_same_slot(self, other)
    }
}

impl IpPrefixCovering<Ipv6Prefix> for Ipv6NetRouting {
    /// The upper half of the wide slot of `other` is compared.
    fn covering(&self, other: &Ipv6Prefix) -> (r: IpPrefixCoverage) {
        let l = self.len();
        proof {
            self.lemma_valid();
        }
        covering_slot(self, upper_half(other.bitslot()), other.len())
    }
}

impl IpPrefixCovering<Ipv6Net> for Ipv6NetRouting {
    /// The upper half of the wide slot of `other` is compared.
    fn covering(&self, other: &Ipv6Net) -> (r: IpPrefixCoverage) {
        let l = self.len();
        proof {
            self.lemma_valid();
        }
        covering_slot(self, upper_half(other.bitslot()), other.len())
    }
}

impl IpPrefixCovering<Ipv6Addr> for Ipv6NetRouting {
    /// The upper half of the wide slot of `other` is compared.
    fn covering(&self, other: &Ipv6Addr) -> (r: IpPrefixCoverage) {
        let l = self.len();
        proof {
            self.lemma_valid();
        }
        covering_slot(self, upper_half(other.bitslot()), other.len())
    }
}

impl IpPrefixCovering<Ipv6Prefix> for Ipv6NetPrefix {
    /// The upper half of the wide slot of `other` is compared.
    fn covering(&self, other: &Ipv6Prefix) -> (r: IpPrefixCoverage) {
        let l = self.len();
        proof {
            self.lemma_valid();
        }
        covering_slot(self, upper_half(other.bitslot()), other.len())
    }
}

impl IpPrefixCovering<Ipv6Net> for Ipv6NetPrefix {
    /// The upper half of the wide slot of `other` is compared.
    fn covering(&self, other: &Ipv6Net) -> (r: IpPrefixCoverage) {
        let l = self.len();
        proof {
            self.lemma_valid();
        }
        covering_slot(self, upper_half(other.bitslot()), other.len())
    }
}

impl IpPrefixCovering<Ipv6Addr> for Ipv6NetPrefix {
    /// The upper half of the wide slot of `other` is compared.
    fn covering(&self, other: &Ipv6Addr) -> (r: IpPrefixCoverage) {
        let l = self.len();
        proof {
            self.lemma_valid();
        }
        covering_slot(self, upper_half(other.bitslot()), other.len())
    }
}

impl IpPrefixCovering<Ipv6NetRouting> for Ipv6Prefix {
    /// The narrow slot of `other` is read as the upper half of a wide one.
    fn covering(&self, other: &Ipv6NetRouting) -> (r: IpPrefixCoverage) {
        covering_slot(self, widen(other.bitslot()), other.len())
    }
}

impl IpPrefixCovering<Ipv6NetPrefix> for Ipv6Prefix {
    /// The narrow slot of `other` is read as the upper half of a wide one.
    fn covering(&self, other: &Ipv6NetPrefix) -> (r: IpPrefixCoverage) {
        covering_slot(self, widen(other.bitslot()), other.len())
    }
}

impl IpPrefixCovering<Ipv6NetRouting> for Ipv6Net {
    /// The narrow slot of `other` is read as the upper half of a wide one.
    fn covering(&self, other: &Ipv6NetRouting) -> (r: IpPrefixCoverage) {
        covering_slot(self, widen(other.bitslot()), other.len())
    }
}

impl IpPrefixCovering<Ipv6NetPrefix> for Ipv6Net {
    /// The narrow slot of `other` is read as the upper half of a wide one.
    fn covering(&self, other: &Ipv6NetPrefix) -> (r: IpPrefixCoverage) {
        covering_slot(self, widen(other.bitslot()), other.len())
    }
}

} // verus!
