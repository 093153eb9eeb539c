//! IPv6 prefixes that keep their length in the last byte of their slot.
use vstd::prelude::*;
use vstd::std_specs::convert::{FromSpecImpl, TryFromSpecImpl};
use crate::prefix::slot::{
    BitSlot, lemma_tail64, lemma_widen128, lemma_word128, lemma_word64, mask128, mask64, upper_half,
    widen,
};
use crate::prefix::ipstd::{Ipv6Addr, Ipv6Prefix};
use crate::prefix::text::{format_ipv6_net, ipv6_net_parsed, ipv6_net_text, parse_ipv6_net};
use crate::prefix::shorten::IpPrefixShortening;
use crate::prefix::{IpPrefix, IpPrefixError, IpRootPrefix};
use std::str::FromStr;

verus! {

/// An IPv6 prefix of at most 56 bits, held in 64 bits with its length in the last byte.
///
/// ```text
/// |------------ 56 bits ---------------|--8 bits--|
///            ip prefix slot                length
/// ```
#[derive(Copy, Clone, Default, Eq, PartialEq, Hash, Debug, Structural)]
pub struct Ipv6Prefix56 {
    pub(crate) slot: u64,
}

impl Ipv6Prefix56 {
    #[verifier::type_invariant]
    pub closed spec fn inv(&self) -> bool {
        (self.slot as u8) <= 56
    }

    /// The slot: the bits of the prefix, then the length in the last byte.
    pub closed spec fn spec_slot(&self) -> u64 {
        self.slot
    }

    /// The bits of the address of the network: those of the prefix, zeros after them.
    pub open spec fn spec_network_bits(&self) -> u128 {
        ((self.spec_slot() & mask64(self.spec_len())) as u128) << 64
    }

    /// The prefix of length `len` of the address with these bits.
    pub closed spec fn spec_of_bits(bits: u64, len: u8) -> Self {
        Self { slot: (bits & mask64(len)) | (len as u64) }
    }

    /// The prefix of length `len` of these bits, which are the first 64 of an address.
    pub(crate) fn of_bits(bits: u64, len: u8) -> (r: Self)
        requires
            len <= 56,
        ensures
            r == Self::spec_of_bits(bits, len),
            r.valid(),
            r.spec_len() == len,
            forall|i: int| 1 <= i <= len ==> r.spec_bitslot().bit(i) == bits.bit(i),
            forall|i: int| len < i <= 56 ==> !r.spec_bitslot().bit(i),
    {
        let m = u64::bitmask(len);
        let y = bits.bitand(m);
        let slot: u64 = y | (len as u64);
        proof {
            lemma_tail64(bits, len, 0);
            assert forall|i: int| 1 <= i <= 56 implies slot.bit(i) == y.bit(i) by {
                lemma_tail64(y, len, (64 - i) as u64);
            }
        }
        Self { slot }
    }

    /// The prefix of length `len` of `addr`; a length above 56 is an error.
    pub fn new(addr: Ipv6Addr, len: u8) -> (r: Result<Self, IpPrefixError>)
        ensures
            len > 56 ==> r == Err::<Self, IpPrefixError>(IpPrefixError::PrefixLenError),
            len <= 56 ==> r.is_ok() && r.unwrap().valid() && r.unwrap().spec_len() == len && (
            forall|i: int|
                1 <= i <= len ==> r.unwrap().spec_bitslot().bit(i) == addr.spec_bits().bit(i)) && (
            forall|i: int| len < i <= 56 ==> !r.unwrap().spec_bitslot().bit(i)),
    {
        if len > 56 {
            Err(IpPrefixError::PrefixLenError)
        } else {
            Ok(Self::of_bits(upper_half(addr.to_bits()), len))
        }
    }

    /// The prefix held by a slot whose last byte is a length of at most 56;
    /// another last byte is an error.
    pub fn from_slot(slot: u64) -> (r: Result<Self, IpPrefixError>)
        ensures
            (slot as u8) > 56 ==> r == Err::<Self, IpPrefixError>(IpPrefixError::PrefixLenError),
            (slot as u8) <= 56 ==> r.is_ok() && r.unwrap().spec_slot() == slot
                && r.unwrap().valid(),
    {
        if slot as u8 <= 56 {
            Ok(Self { slot })
        } else {
            Err(IpPrefixError::PrefixLenError)
        }
    }

    /// The slot: the bits of the prefix, then the length in the last byte.
    pub fn into_slot(self) -> (r: u64)
        ensures
            r == self.spec_slot(),
    {
        self.slot
    }

    /// Reads a prefix written as an address, `/` and a length of at most 56.
    pub fn parse(text: &str) -> (r: Result<Self, IpPrefixError>)
        ensures
            ipv6_net_parsed(text@).is_none() ==> r == Err::<Self, IpPrefixError>(
                IpPrefixError::AddrParseError,
            ),
            ipv6_net_parsed(text@) matches Some(p) ==> (if p.1 > 56 {
                r == Err::<Self, IpPrefixError>(IpPrefixError::PrefixLenError)
            } else {
                r.is_ok() && r.unwrap().valid() && r.unwrap().spec_len() == p.1 && forall|i: int|
                    1 <= i <= p.1 ==> r.unwrap().spec_bitslot().bit(i) == p.0.bit(i)
            }),
    {
        match parse_ipv6_net(text) {
            Ok((addr, len)) => Self::new(Ipv6Addr::from_bits(addr), len),
            Err(e) => Err(IpPrefixError::from(e)),
        }
    }

    /// Writes the prefix as an address, `/` and a length.
    pub fn to_string(&self) -> (r: String)
        ensures
            r@ == ipv6_net_text(self.spec_network_bits(), self.spec_len()),
    {
        let l = self.len();
        proof {
            self.lemma_valid();
        }
        format_ipv6_net(self.network().to_bits(), l)
    }
}

impl FromStr for Ipv6Prefix56 {
    type Err = IpPrefixError;

    /// Reads the text as `parse` does.
    fn from_str(s: &str) -> (r: Result<Self, IpPrefixError>)
        ensures
            ipv6_net_parsed(s@).is_none() ==> r == Err::<Self, IpPrefixError>(
                IpPrefixError::AddrParseError,
            ),
            ipv6_net_parsed(s@) matches Some(p) ==> (if p.1 > 56 {
                r == Err::<Self, IpPrefixError>(IpPrefixError::PrefixLenError)
            } else {
                r.is_ok() && r.unwrap().valid() && r.unwrap().spec_len() == p.1 && forall|i: int|
                    1 <= i <= p.1 ==> r.unwrap().spec_bitslot().bit(i) == p.0.bit(i)
            }),
    {
        Self::parse(s)
    }
}

impl IpPrefix for Ipv6Prefix56 {
    type Slot = u64;

    type Addr = Ipv6Addr;

    closed spec fn spec_bitslot(&self) -> u64 {
        self.slot
    }

    closed spec fn spec_len(&self) -> u8 {
        self.slot as u8
    }

    open spec fn spec_max_len() -> u8 {
        56
    }

    closed spec fn valid(&self) -> bool {
        self.inv()
    }

    proof fn lemma_valid(&self) {
    }

    fn bitslot(&self) -> (r: u64) {
        self.slot
    }

    fn bitslot_trunc(&self) -> (r: u64)
        ensures
            r == self.spec_slot() & mask64(self.spec_len()),
    {
        proof {
            use_type_invariant(self);
        }
        let m = u64::bitmask(self.slot as u8);
        self.slot.bitand(m)
    }

    fn len(&self) -> (r: u8) {
        proof {
            use_type_invariant(self);
        }
        self.slot as u8
    }

    fn bitmask(&self) -> (r: u64) {
        proof {
            use_type_invariant(self);
        }
        u64::bitmask(self.slot as u8)
    }

    fn max_len() -> (r: u8) {
        56
    }

    /// The address of the network: the bits of the prefix, zeros after them.
    fn network(&self) -> (r: Ipv6Addr)
        ensures
            r.spec_bits() == self.spec_network_bits(),
            forall|i: int|
                r.spec_bits().bit(i) == (i <= self.spec_len() && self.spec_bitslot().bit(i)),
    {
        let t = self.bitslot_trunc();
        Ipv6Addr::from_bits(widen(t))
    }
}

impl IpRootPrefix for Ipv6Prefix56 {
    fn root() -> (r: Self)
        ensures
            r.spec_slot() == 0,
    {
        Self { slot: 0 }
    }
}

impl IpPrefixShortening for Ipv6Prefix56 {
    fn shorten(&mut self, maxlen: u8)
        ensures
            final(self).valid(),
            maxlen < old(self).spec_len() ==> forall|i: int|
                maxlen < i <= 56 ==> !final(self).spec_bitslot().bit(i),
    {
        let l = self.len();
        proof {
            self.lemma_valid();
        }
        if maxlen < l {
            let p = Self::of_bits(self.slot, maxlen);
            self.slot = p.slot;
        }
    }
}

impl From<Ipv6Prefix56> for Ipv6Prefix {
    /// The 128-bit prefix with the bits and the length of the prefix.
    fn from(value: Ipv6Prefix56) -> (r: Self)
        ensures
            r.valid(),
            r.spec_len() == value.spec_len(),
            forall|i: int|
                r.spec_bitslot().bit(i) == (i <= value.spec_len() && value.spec_bitslot().bit(i)),
    {
        let l = value.len();
        let n = value.network();
        proof {
            value.lemma_valid();
        }
        let r = Ipv6Prefix::of_bits(n.to_bits(), l);
        proof {
            assert forall|i: int|
                r.spec_bitslot().bit(i) == (i <= value.spec_len() && value.spec_bitslot().bit(
                    i,
                )) by {
                assert(n.spec_bits().bit(i) == (i <= value.spec_len() && value.spec_bitslot().bit(i)));
            }
        }
        r
    }
}

impl FromSpecImpl<Ipv6Prefix56> for Ipv6Prefix {
    open spec fn obeys_from_spec() -> bool {
        false
    }

    open spec fn from_spec(value: Ipv6Prefix56) -> Self {
        arbitrary()
    }
}

impl TryFrom<Ipv6Prefix> for Ipv6Prefix56 {
    type Error = IpPrefixError;

    /// The prefix of a 128-bit prefix of at most 56 bits; a longer one is an error.
    fn try_from(value: Ipv6Prefix) -> (r: Result<Self, IpPrefixError>)
        ensures
            value.spec_len() > 56 ==> r == Err::<Self, IpPrefixError>(
                IpPrefixError::PrefixLenError,
            ),
            value.spec_len() <= 56 ==> r.is_ok() && r.unwrap().spec_len() == value.spec_len()
                && forall|i: int|
                1 <= i <= value.spec_len() ==> r.unwrap().spec_bitslot().bit(i)
                    == value.spec_bitslot().bit(i),
    {
        Self::new(value.network(), value.len())
    }
}

impl TryFromSpecImpl<Ipv6Prefix> for Ipv6Prefix56 {
    open spec fn obeys_try_from_spec() -> bool {
        false
    }

    open spec fn try_from_spec(value: Ipv6Prefix) -> Result<Self, IpPrefixError> {
        arbitrary()
    }
}

/// An IPv6 prefix of at most 120 bits, held in 128 bits with its length in the last byte.
///
/// ```text
/// |------------ 120 bits ---------------|--8 bits--|
///            ip prefix slot                length
/// ```
#[derive(Copy, Clone, Default, Eq, PartialEq, Hash, Debug, Structural)]
pub struct Ipv6Prefix120 {
    pub(crate) slot: u128,
}

impl Ipv6Prefix120 {
    #[verifier::type_invariant]
    pub closed spec fn inv(&self) -> bool {
        (self.slot as u8) <= 120
    }

    /// The slot: the bits of the prefix, then the length in the last byte.
    pub closed spec fn spec_slot(&self) -> u128 {
        self.slot
    }

    /// The bits of the address of the network: those of the prefix, zeros after them.
    pub open spec fn spec_network_bits(&self) -> u128 {
        self.spec_slot() & mask128(self.spec_len())
    }

    /// The prefix of length `len` of the address with these bits.
    pub closed spec fn spec_of_bits(bits: u128, len: u8) -> Self {
        Self { slot: (bits & mask128(len)) | (len as u128) }
    }

    /// The prefix of length `len` of these bits, which are the first 128 of an address.
    pub(crate) fn of_bits(bits: u128, len: u8) -> (r: Self)
        requires
            len <= 120,
        ensures
            r == Self::spec_of_bits(bits, len),
            r.valid(),
            r.spec_len() == len,
            forall|i: int| 1 <= i <= len ==> r.spec_bitslot().bit(i) == bits.bit(i),
            forall|i: int| len < i <= 120 ==> !r.spec_bitslot().bit(i),
    {
        let m = u128::bitmask(len);
        let y = bits.bitand(m);
        let slot: u128 = y | (len as u128);
        proof {
            lemma_widen128(0, bits, len, 0, 0);
            assert forall|i: int| 1 <= i <= 120 implies slot.bit(i) == y.bit(i) by {
                lemma_widen128(0, y, len, (128 - i) as u128, 0);
            }
        }
        Self { slot }
    }

    /// The prefix of length `len` of `addr`; a length above 120 is an error.
    pub fn new(addr: Ipv6Addr, len: u8) -> (r: Result<Self, IpPrefixError>)
        ensures
            len > 120 ==> r == Err::<Self, IpPrefixError>(IpPrefixError::PrefixLenError),
            len <= 120 ==> r.is_ok() && r.unwrap().valid() && r.unwrap().spec_len() == len && (
            forall|i: int|
                1 <= i <= len ==> r.unwrap().spec_bitslot().bit(i) == addr.spec_bits().bit(i)) && (
            forall|i: int| len < i <= 120 ==> !r.unwrap().spec_bitslot().bit(i)),
    {
        if len > 120 {
            Err(IpPrefixError::PrefixLenError)
        } else {
            Ok(Self::of_bits(addr.to_bits(), len))
        }
    }

    /// The prefix held by a slot whose last byte is a length of at most 120;
    /// another last byte is an error.
    pub fn from_slot(slot: u128) -> (r: Result<Self, IpPrefixError>)
        ensures
            (slot as u8) > 120 ==> r == Err::<Self, IpPrefixError>(IpPrefixError::PrefixLenError),
            (slot as u8) <= 120 ==> r.is_ok() && r.unwrap().spec_slot() == slot
                && r.unwrap().valid(),
    {
        if slot as u8 <= 120 {
            Ok(Self { slot })
        } else {
            Err(IpPrefixError::PrefixLenError)
        }
    }

    /// The slot: the bits of the prefix, then the length in the last byte.
    pub fn into_slot(self) -> (r: u128)
        ensures
            r == self.spec_slot(),
    {
        self.slot
    }

    /// Reads a prefix written as an address, `/` and a length of at most 120.
    pub fn parse(text: &str) -> (r: Result<Self, IpPrefixError>)
        ensures
            ipv6_net_parsed(text@).is_none() ==> r == Err::<Self, IpPrefixError>(
                IpPrefixError::AddrParseError,
            ),
            ipv6_net_parsed(text@) matches Some(p) ==> (if p.1 > 120 {
                r == Err::<Self, IpPrefixError>(IpPrefixError::PrefixLenError)
            } else {
                r.is_ok() && r.unwrap().valid() && r.unwrap().spec_len() == p.1 && forall|i: int|
                    1 <= i <= p.1 ==> r.unwrap().spec_bitslot().bit(i) == p.0.bit(i)
            }),
    {
        match parse_ipv6_net(text) {
            Ok((addr, len)) => Self::new(Ipv6Addr::from_bits(addr), len),
            Err(e) => Err(IpPrefixError::from(e)),
        }
    }

    /// Writes the prefix as an address, `/` and a length.
    pub fn to_string(&self) -> (r: String)
        ensures
            r@ == ipv6_net_text(self.spec_network_bits(), self.spec_len()),
    {
        let l = self.len();
        proof {
            self.lemma_valid();
        }
        format_ipv6_net(self.network().to_bits(), l)
    }
}

impl FromStr for Ipv6Prefix120 {
    type Err = IpPrefixError;

    /// Reads the text as `parse` does.
    fn from_str(s: &str) -> (r: Result<Self, IpPrefixError>)
        ensures
            ipv6_net_parsed(s@).is_none() ==> r == Err::<Self, IpPrefixError>(
                IpPrefixError::AddrParseError,
            ),
            ipv6_net_parsed(s@) matches Some(p) ==> (if p.1 > 120 {
                r == Err::<Self, IpPrefixError>(IpPrefixError::PrefixLenError)
            } else {
                r.is_ok() && r.unwrap().valid() && r.unwrap().spec_len() == p.1 && forall|i: int|
                    1 <= i <= p.1 ==> r.unwrap().spec_bitslot().bit(i) == p.0.bit(i)
            }),
    {
        Self::parse(s)
    }
}

impl IpPrefix for Ipv6Prefix120 {
    type Slot = u128;

    type Addr = Ipv6Addr;

    closed spec fn spec_bitslot(&self) -> u128 {
        self.slot
    }

    closed spec fn spec_len(&self) -> u8 {
        self.slot as u8
    }

    open spec fn spec_max_len() -> u8 {
        120
    }

    closed spec fn valid(&self) -> bool {
        self.inv()
    }

    proof fn lemma_valid(&self) {
    }

    fn bitslot(&self) -> (r: u128) {
        self.slot
    }

    fn bitslot_trunc(&self) -> (r: u128)
        ensures
            r == self.spec_slot() & mask128(self.spec_len()),
    {
        proof {
            use_type_invariant(self);
        }
        let m = u128::bitmask(self.slot as u8);
        self.slot.bitand(m)
    }

    fn len(&self) -> (r: u8) {
        proof {
            use_type_invariant(self);
        }
        self.slot as u8
    }

    fn bitmask(&self) -> (r: u128) {
        proof {
            use_type_invariant(self);
        }
        u128::bitmask(self.slot as u8)
    }

    fn max_len() -> (r: u8) {
        120
    }

    /// The address of the network: the bits of the prefix, zeros after them.
    fn network(&self) -> (r: Ipv6Addr)
        ensures
            r.spec_bits() == self.spec_network_bits(),
            forall|i: int|
                r.spec_bits().bit(i) == (i <= self.spec_len() && self.spec_bitslot().bit(i)),
    {
        let t = self.bitslot_trunc();
        Ipv6Addr::from_bits(t)
    }
}

impl IpRootPrefix for Ipv6Prefix120 {
    fn root() -> (r: Self)
        ensures
            r.spec_slot() == 0,
    {
        Self { slot: 0 }
    }
}

impl IpPrefixShortening for Ipv6Prefix120 {
    fn shorten(&mut self, maxlen: u8)
        ensures
            final(self).valid(),
            maxlen < old(self).spec_len() ==> forall|i: int|
                maxlen < i <= 120 ==> !final(self).spec_bitslot().bit(i),
    {
        let l = self.len();
        proof {
            self.lemma_valid();
        }
        if maxlen < l {
            let p = Self::of_bits(self.slot, maxlen);
            self.slot = p.slot;
        }
    }
}

impl From<Ipv6Prefix120> for Ipv6Prefix {
    /// The 128-bit prefix with the bits and the length of the prefix.
    fn from(value: Ipv6Prefix120) -> (r: Self)
        ensures
            r.valid(),
            r.spec_len() == value.spec_len(),
            forall|i: int|
                r.spec_bitslot().bit(i) == (i <= value.spec_len() && value.spec_bitslot().bit(i)),
    {
        let l = value.len();
        let n = value.network();
        proof {
            value.lemma_valid();
        }
        let r = Ipv6Prefix::of_bits(n.to_bits(), l);
        proof {
            assert forall|i: int|
                r.spec_bitslot().bit(i) == (i <= value.spec_len() && value.spec_bitslot().bit(
                    i,
                )) by {
                assert(n.spec_bits().bit(i) == (i <= value.spec_len() && value.spec_bitslot().bit(i)));
            }
        }
        r
    }
}

impl FromSpecImpl<Ipv6Prefix120> for Ipv6Prefix {
    open spec fn obeys_from_spec() -> bool {
        false
    }

    open spec fn from_spec(value: Ipv6Prefix120) -> Self {
        arbitrary()
    }
}

impl TryFrom<Ipv6Prefix> for Ipv6Prefix120 {
    type Error = IpPrefixError;

    /// The prefix of a 128-bit prefix of at most 120 bits; a longer one is an error.
    fn try_from(value: Ipv6Prefix) -> (r: Result<Self, IpPrefixError>)
        ensures
            value.spec_len() > 120 ==> r == Err::<Self, IpPrefixError>(
                IpPrefixError::PrefixLenError,
            ),
            value.spec_len() <= 120 ==> r.is_ok() && r.unwrap().spec_len() == value.spec_len()
                && forall|i: int|
                1 <= i <= value.spec_len() ==> r.unwrap().spec_bitslot().bit(i)
                    == value.spec_bitslot().bit(i),
    {
        Self::new(value.network(), value.len())
    }
}

impl TryFromSpecImpl<Ipv6Prefix> for Ipv6Prefix120 {
    open spec fn obeys_try_from_spec() -> bool {
        false
    }

    open spec fn try_from_spec(value: Ipv6Prefix) -> Result<Self, IpPrefixError> {
        arbitrary()
    }
}

impl From<Ipv6Prefix56> for Ipv6Prefix120 {
    /// The same prefix in 128 bits.
    fn from(value: Ipv6Prefix56) -> (r: Self)
        ensures
            r.valid(),
            r.spec_len() == value.spec_len(),
            forall|i: int|
                1 <= i <= value.spec_len() ==> r.spec_bitslot().bit(i) == value.spec_bitslot().bit(
                    i,
                ),
    {
        let l = value.len();
        proof {
            value.lemma_valid();
        }
        Ipv6Prefix120::of_bits(value.network().to_bits(), l)
    }
}

impl FromSpecImpl<Ipv6Prefix56> for Ipv6Prefix120 {
    open spec fn obeys_from_spec() -> bool {
        false
    }

    open spec fn from_spec(value: Ipv6Prefix56) -> Self {
        arbitrary()
    }
}

impl TryFrom<Ipv6Prefix120> for Ipv6Prefix56 {
    type Error = IpPrefixError;

    /// The same prefix in 64 bits, where it has at most 56 bits; a longer one is an error.
    fn try_from(value: Ipv6Prefix120) -> (r: Result<Self, IpPrefixError>)
        ensures
            value.spec_len() > 56 ==> r == Err::<Self, IpPrefixError>(
                IpPrefixError::PrefixLenError,
            ),
            value.spec_len() <= 56 ==> r.is_ok() && r.unwrap().spec_len() == value.spec_len()
                && forall|i: int|
                1 <= i <= value.spec_len() ==> r.unwrap().spec_bitslot().bit(i)
                    == value.spec_bitslot().bit(i),
    {
        Self::new(value.network(), value.len())
    }
}

impl TryFromSpecImpl<Ipv6Prefix120> for Ipv6Prefix56 {
    open spec fn obeys_try_from_spec() -> bool {
        false
    }

    open spec fn try_from_spec(value: Ipv6Prefix120) -> Result<Self, IpPrefixError> {
        arbitrary()
    }
}

} // verus!
