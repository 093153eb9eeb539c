//! IPv6 network addresses: prefixes of exactly 64 bits.
use vstd::prelude::*;
use vstd::std_specs::convert::{FromSpecImpl, TryFromSpecImpl};
use crate::prefix::slot::{BitSlot, upper64, upper_half, widen};
use crate::prefix::ipstd::{Ipv6Addr, Ipv6Net, Ipv6Prefix};
use crate::prefix::text::{format_ipv6_net, ipv6_net_parsed, ipv6_net_text, parse_ipv6_net};
use crate::prefix::{IpPrefix, IpPrefixError};
use std::str::FromStr;

verus! {

/// An IPv6 prefix of exactly 64 bits: the network part of a unicast address.
///
/// ```text
/// |------------ 64 bits ---------------|
///            ip prefix slot
/// ```
#[derive(Copy, Clone, Eq, PartialEq, Hash, Debug, Structural)]
pub struct Ipv6NetAddr {
    pub addr: u64,
}

impl Ipv6NetAddr {
    /// The upper half of an address.
    pub fn new(addr: Ipv6Addr) -> (r: Self)
        ensures
            r.addr == upper64(addr.spec_bits()),
            forall|i: int| r.addr.bit(i) == (i <= 64 && addr.spec_bits().bit(i)),
    {
        Self { addr: upper_half(addr.to_bits()) }
    }

    pub fn into_slot(self) -> (r: u64)
        ensures
            r == self.addr,
    {
        self.addr
    }

    pub fn from_slot(addr: u64) -> (r: Self)
        ensures
            r.addr == addr,
    {
        Self { addr }
    }

    /// The network address of a prefix given by its bits and length, which must be 64.
    pub fn of_net(bits: u128, len: u8) -> (r: Result<Self, IpPrefixError>)
        ensures
            len != 64 ==> r == Err::<Self, IpPrefixError>(IpPrefixError::PrefixLenError),
            len == 64 ==> r == Ok::<Self, IpPrefixError>(Ipv6NetAddr { addr: upper64(bits) }),
    {
        if len == 64 {
            Ok(Self { addr: upper_half(bits) })
        } else {
            Err(IpPrefixError::PrefixLenError)
        }
    }

    /// Reads a network address written as an address, `/` and the length 64.
    pub fn parse(text: &str) -> (r: Result<Self, IpPrefixError>)
        ensures
            ipv6_net_parsed(text@).is_none() ==> r == Err::<Self, IpPrefixError>(
                IpPrefixError::AddrParseError,
            ),
            ipv6_net_parsed(text@) matches Some(p) ==> (if p.1 != 64 {
                r == Err::<Self, IpPrefixError>(IpPrefixError::PrefixLenError)
            } else {
                r == Ok::<Self, IpPrefixError>(Ipv6NetAddr { addr: upper64(p.0) })
            }),
    {
        match parse_ipv6_net(text) {
            Ok((addr, len)) => Self::of_net(addr, len),
            Err(e) => Err(IpPrefixError::from(e)),
        }
    }

    /// Writes the network address as an address, `/` and the length 64.
    pub fn to_string(&self) -> (r: String)
        ensures
            r@ == ipv6_net_text((self.addr as u128) << 64, 64),
    {
        format_ipv6_net(widen(self.addr), 64)
    }
}

impl FromStr for Ipv6NetAddr {
    type Err = IpPrefixError;

    /// Reads the text as `parse` does.
    fn from_str(s: &str) -> (r: Result<Self, IpPrefixError>)
        ensures
            ipv6_net_parsed(s@).is_none() ==> r == Err::<Self, IpPrefixError>(
                IpPrefixError::AddrParseError,
            ),
            ipv6_net_parsed(s@) matches Some(p) ==> (if p.1 != 64 {
                r == Err::<Self, IpPrefixError>(IpPrefixError::PrefixLenError)
            } else {
                r == Ok::<Self, IpPrefixError>(Ipv6NetAddr { addr: upper64(p.0) })
            }),
    {
        Self::parse(s)
    }
}

impl IpPrefix for Ipv6NetAddr {
    type Slot = u64;

    type Addr = Ipv6Addr;

    open spec fn spec_bitslot(&self) -> u64 {
        self.addr
    }

    open spec fn spec_len(&self) -> u8 {
        64
    }

    open spec fn spec_max_len() -> u8 {
        64
    }

    open spec fn valid(&self) -> bool {
        true
    }

    proof fn lemma_valid(&self) {
    }

    fn bitslot(&self) -> (r: u64) {
        self.addr
    }

    fn bitslot_trunc(&self) -> (r: u64) {
        proof {
            assert forall|i: int| self.addr.bit(i) implies i <= 64 by {}
        }
        self.addr
    }

    fn len(&self) -> (r: u8) {
        64
    }

    fn bitmask(&self) -> (r: u64) {
        u64::bitmask(64)
    }

    fn max_len() -> (r: u8) {
        64
    }

    /// The address whose upper half is the slot and whose lower half is zero.
    fn network(&self) -> (r: Ipv6Addr)
        ensures
            r.spec_bits() == (self.addr as u128) << 64,
            forall|i: int| r.spec_bits().bit(i) == self.addr.bit(i),
    {
        Ipv6Addr::from_bits(widen(self.addr))
    }
}

impl From<u64> for Ipv6NetAddr {
    fn from(addr: u64) -> (r: Self) {
        Self { addr }
    }
}

impl FromSpecImpl<u64> for Ipv6NetAddr {
    open spec fn obeys_from_spec() -> bool {
        true
    }

    open spec fn from_spec(addr: u64) -> Self {
        Ipv6NetAddr { addr }
    }
}

impl From<Ipv6NetAddr> for Ipv6Prefix {
    /// The 128-bit prefix of length 64 with the bits of the network address.
    fn from(value: Ipv6NetAddr) -> (r: Self)
        ensures
            r.valid(),
            r.spec_len() == 64,
            forall|i: int| r.spec_bitslot().bit(i) == value.addr.bit(i),
    {
        proof {
            assert forall|i: int| value.addr.bit(i) implies i <= 64 by {}
        }
        Ipv6Prefix::of_bits(widen(value.addr), 64)
    }
}

impl FromSpecImpl<Ipv6NetAddr> for Ipv6Prefix {
    open spec fn obeys_from_spec() -> bool {
        false
    }

    open spec fn from_spec(value: Ipv6NetAddr) -> Self {
        arbitrary()
    }
}

impl TryFrom<Ipv6Net> for Ipv6NetAddr {
    type Error = IpPrefixError;

    /// The network address of a network of length 64; another length is an error.
    fn try_from(value: Ipv6Net) -> (r: Result<Self, IpPrefixError>) {
        Self::of_net(value.bitslot(), value.len())
    }
}

impl TryFromSpecImpl<Ipv6Net> for Ipv6NetAddr {
    open spec fn obeys_try_from_spec() -> bool {
        true
    }

    open spec fn try_from_spec(value: Ipv6Net) -> Result<Self, IpPrefixError> {
        if value.spec_len() != 64 {
            Err(IpPrefixError::PrefixLenError)
        } else {
            Ok(Ipv6NetAddr { addr: upper64(value.spec_bitslot()) })
        }
    }
}

impl TryFrom<Ipv6Prefix> for Ipv6NetAddr {
    type Error = IpPrefixError;

    /// The network address of a prefix of length 64; another length is an error.
    fn try_from(value: Ipv6Prefix) -> (r: Result<Self, IpPrefixError>) {
        Self::of_net(value.bitslot(), value.len())
    }
}

impl TryFromSpecImpl<Ipv6Prefix> for Ipv6NetAddr {
    open spec fn obeys_try_from_spec() -> bool {
        true
    }

    open spec fn try_from_spec(value: Ipv6Prefix) -> Result<Self, IpPrefixError> {
        if value.spec_len() != 64 {
            Err(IpPrefixError::PrefixLenError)
        } else {
            Ok(Ipv6NetAddr { addr: upper64(value.spec_bitslot()) })
        }
    }
}

} // verus!
