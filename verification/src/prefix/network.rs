//! IPv6 network prefixes: at most 64 bits, in a 64-bit slot.
use vstd::prelude::*;
use vstd::std_specs::convert::{FromSpecImpl, TryFromSpecImpl};
use crate::prefix::slot::{BitSlot, mask64, upper64, upper_half, widen};
use crate::prefix::ipstd::{Ipv6Addr, Ipv6Net, Ipv6Prefix};
use crate::prefix::private::{is_private_v6_upper, private_v6_upper};
use crate::prefix::text::{format_ipv6_net, ipv6_net_parsed, ipv6_net_text, parse_ipv6_net, prefix_len_error};
use crate::prefix::shorten::IpPrefixShortening;
use crate::prefix::{IpPrefix, IpPrefixError, IpPrivatePrefix, IpRootPrefix};
use std::str::FromStr;

verus! {

/// An IPv6 prefix of at most 64 bits, held in a 64-bit slot beside its length.
///
/// ```text
/// |------------ 64 bits ----------------|--8 bits--|
///            ip prefix slot                length
/// ```
#[derive(Clone, Copy, PartialEq, Eq, Default, Hash, Debug, Structural)]
pub struct Ipv6NetPrefix {
    pub(crate) slot: u64,
    pub(crate) len: u8,
}

impl Ipv6NetPrefix {
    #[verifier::type_invariant]
    pub closed spec fn inv(&self) -> bool {
        self.len <= 64 && forall|i: int| self.len < i ==> !self.slot.bit(i)
    }

    /// The prefix of length `len` of the upper half of these address bits.
    pub closed spec fn spec_of_bits(bits: u128, len: u8) -> Self {
        Self { slot: upper64(bits) & mask64(len), len }
    }

    /// The prefix of length `len` of the address with these bits.
    pub(crate) fn of_bits(bits: u128, len: u8) -> (r: Self)
        requires
            len <= 64,
        ensures
            r == Self::spec_of_bits(bits, len),
            r.valid(),
            r.spec_len() == len,
            forall|i: int| r.spec_bitslot().bit(i) == (i <= len && bits.bit(i)),
    {
        let m = u64::bitmask(len);
        let s = upper_half(bits).bitand(m);
        Self { slot: s, len }
    }

    /// The prefix of length `len` of `ip`; a length above 64 is an error.
    pub fn new(ip: Ipv6Addr, len: u8) -> (r: Result<Self, ipnet::PrefixLenError>)
        ensures
            r.is_err() == (len > 64),
            r matches Ok(p) ==> p == Self::spec_of_bits(ip.spec_bits(), len) && p.valid()
                && p.spec_len() == len && forall|i: int|
                p.spec_bitslot().bit(i) == (i <= len && ip.spec_bits().bit(i)),
    {
        if len > 64 {
            Err(prefix_len_error())
        } else {
            Ok(Self::of_bits(ip.to_bits(), len))
        }
    }

    /// The prefix of length `len` of `ip`, for a length that is at most 64.
    pub fn new_assert(ip: Ipv6Addr, len: u8) -> (r: Self)
        requires
            len <= 64,
        ensures
            r == Self::spec_of_bits(ip.spec_bits(), len),
            r.valid(),
            r.spec_len() == len,
            forall|i: int| r.spec_bitslot().bit(i) == (i <= len && ip.spec_bits().bit(i)),
    {
        Self::of_bits(ip.to_bits(), len)
    }

    /// Reads a prefix written as an address, `/` and a length of at most 64.
    pub fn parse(text: &str) -> (r: Result<Self, IpPrefixError>)
        ensures
            ipv6_net_parsed(text@).is_none() ==> r == Err::<Self, IpPrefixError>(
                IpPrefixError::AddrParseError,
            ),
            ipv6_net_parsed(text@) matches Some(p) ==> (if p.1 > 64 {
                r == Err::<Self, IpPrefixError>(IpPrefixError::PrefixLenError)
            } else {
                r == Ok::<Self, IpPrefixError>(Self::spec_of_bits(p.0, p.1))
            }),
    {
        match parse_ipv6_net(text) {
            Ok((addr, len)) => match Self::new(Ipv6Addr::from_bits(addr), len) {
                Ok(p) => Ok(p),
                Err(e) => Err(IpPrefixError::from(e)),
            },
            Err(e) => Err(IpPrefixError::from(e)),
        }
    }

    /// Writes the prefix as an address, `/` and a length.
    pub fn to_string(&self) -> (r: String)
        ensures
            r@ == ipv6_net_text((self.spec_bitslot() as u128) << 64, self.spec_len()),
    {
        proof {
            use_type_invariant(self);
        }
        format_ipv6_net(widen(self.slot), self.len)
    }
}

impl FromStr for Ipv6NetPrefix {
    type Err = IpPrefixError;

    /// Reads the text as `parse` does.
    fn from_str(s: &str) -> (r: Result<Self, IpPrefixError>)
        ensures
            ipv6_net_parsed(s@).is_none() ==> r == Err::<Self, IpPrefixError>(
                IpPrefixError::AddrParseError,
            ),
            ipv6_net_parsed(s@) matches Some(p) ==> (if p.1 > 64 {
                r == Err::<Self, IpPrefixError>(IpPrefixError::PrefixLenError)
            } else {
                r == Ok::<Self, IpPrefixError>(Self::spec_of_bits(p.0, p.1))
            }),
    {
        Self::parse(s)
    }
}

impl IpPrefix for Ipv6NetPrefix {
    type Slot = u64;

    type Addr = Ipv6Addr;

    closed spec fn spec_bitslot(&self) -> u64 {
        self.slot
    }

    closed spec fn spec_len(&self) -> u8 {
        self.len
    }

    open spec fn spec_max_len() -> u8 {
        64
    }

    closed spec fn valid(&self) -> bool {
        self.inv()
    }

    proof fn lemma_valid(&self) {
    }

    fn bitslot(&self) -> (r: u64) {
        self.slot
    }

    fn bitslot_trunc(&self) -> (r: u64) {
        proof {
            use_type_invariant(self);
        }
        let m = u64::bitmask(self.len);
        self.slot.bitand(m)
    }

    fn len(&self) -> (r: u8) {
        proof {
            use_type_invariant(self);
        }
        self.len
    }

    fn bitmask(&self) -> (r: u64) {
        proof {
            use_type_invariant(self);
        }
        u64::bitmask(self.len)
    }

    fn max_len() -> (r: u8) {
        64
    }

    /// The address of the network: the slot as the upper half, zeros below.
    fn network(&self) -> (r: Ipv6Addr)
        ensures
            r.spec_bits() == (self.spec_bitslot() as u128) << 64,
            forall|i: int| r.spec_bits().bit(i) == self.spec_bitslot().bit(i),
    {
        Ipv6Addr::from_bits(widen(self.slot))
    }
}

impl IpPrivatePrefix for Ipv6NetPrefix {
    open spec fn spec_is_private(&self) -> bool {
        private_v6_upper(self.spec_bitslot(), self.spec_len())
    }

    fn is_private(&self) -> (r: bool) {
        is_private_v6_upper(self.slot, self.len)
    }
}

impl IpRootPrefix for Ipv6NetPrefix {
    fn root() -> (r: Self)
        ensures
            r == Self::spec_of_bits(0, 0),
    {
        Self::new_assert(Ipv6Addr::from_bits(0), 0)
    }
}

impl IpPrefixShortening for Ipv6NetPrefix {
    fn shorten(&mut self, maxlen: u8)
        ensures
            final(self).valid(),
            maxlen < old(self).spec_len() ==> forall|i: int|
                final(self).spec_bitslot().bit(i) == (i <= maxlen && old(self).spec_bitslot().bit(
                    i,
                )),
    {
        proof {
            use_type_invariant(&*self);
        }
        if maxlen < self.len {
            let m = u64::bitmask(maxlen);
            let a = self.slot.bitand(m);
            self.slot = a;
            self.len = maxlen;
        }
    }
}

impl From<Ipv6NetPrefix> for Ipv6Net {
    /// The network with the address and the length of the prefix.
    fn from(value: Ipv6NetPrefix) -> (r: Self)
        ensures
            r.valid(),
            r.spec_len() == value.spec_len(),
            forall|i: int| r.spec_bitslot().bit(i) == value.spec_bitslot().bit(i),
    {
        let n = Ipv6Net::new(value.network(), value.len());
        proof {
            value.lemma_valid();
        }
        n.unwrap()
    }
}

impl FromSpecImpl<Ipv6NetPrefix> for Ipv6Net {
    open spec fn obeys_from_spec() -> bool {
        false
    }

    open spec fn from_spec(value: Ipv6NetPrefix) -> Self {
        arbitrary()
    }
}

impl From<Ipv6NetPrefix> for Ipv6Prefix {
    /// The 128-bit prefix with the bits and the length of the prefix.
    fn from(value: Ipv6NetPrefix) -> (r: Self)
        ensures
            r.valid(),
            r.spec_len() == value.spec_len(),
            forall|i: int| r.spec_bitslot().bit(i) == value.spec_bitslot().bit(i),
    {
        let l = value.len();
        proof {
            use_type_invariant(&value);
        }
        Ipv6Prefix::of_bits(widen(value.slot), l)
    }
}

impl FromSpecImpl<Ipv6NetPrefix> for Ipv6Prefix {
    open spec fn obeys_from_spec() -> bool {
        false
    }

    open spec fn from_spec(value: Ipv6NetPrefix) -> Self {
        arbitrary()
    }
}

impl TryFrom<Ipv6Net> for Ipv6NetPrefix {
    type Error = IpPrefixError;

    /// The prefix of a network of at most 64 bits; a longer one is an error.
    fn try_from(value: Ipv6Net) -> (r: Result<Self, IpPrefixError>) {
        match Self::new(value.addr(), value.prefix_len()) {
            Ok(p) => Ok(p),
            Err(e) => Err(IpPrefixError::from(e)),
        }
    }
}

impl TryFromSpecImpl<Ipv6Net> for Ipv6NetPrefix {
    open spec fn obeys_try_from_spec() -> bool {
        true
    }

    open spec fn try_from_spec(value: Ipv6Net) -> Result<Self, IpPrefixError> {
        if value.spec_len() > 64 {
            Err(IpPrefixError::PrefixLenError)
        } else {
            Ok(Self::spec_of_bits(value.spec_bitslot(), value.spec_len()))
        }
    }
}

impl TryFrom<Ipv6Prefix> for Ipv6NetPrefix {
    type Error = IpPrefixError;

    /// The prefix of a 128-bit prefix of at most 64 bits; a longer one is an error.
    fn try_from(value: Ipv6Prefix) -> (r: Result<Self, IpPrefixError>) {
        match Self::new(value.network(), value.len()) {
            Ok(p) => Ok(p),
            Err(e) => Err(IpPrefixError::from(e)),
        }
    }
}

impl TryFromSpecImpl<Ipv6Prefix> for Ipv6NetPrefix {
    open spec fn obeys_try_from_spec() -> bool {
        true
    }

    open spec fn try_from_spec(value: Ipv6Prefix) -> Result<Self, IpPrefixError> {
        if value.spec_len() > 64 {
            Err(IpPrefixError::PrefixLenError)
        } else {
            Ok(Self::spec_of_bits(value.spec_bitslot(), value.spec_len()))
        }
    }
}

} // verus!
