//! Standard prefixes: addresses, networks that keep their host bits, and
//! prefixes whose bits after the length are cleared.
use vstd::prelude::*;
use vstd::std_specs::convert::FromSpecImpl;
use crate::prefix::slot::{BitSlot, lemma_word32, lemma_word128, mask32, mask128};
use crate::prefix::private::{is_private_v4, is_private_v6, private_v4, private_v6};
use crate::prefix::text::{
    format_ipv4_net, format_ipv6_net, ipv4_net_parsed, ipv4_net_text, ipv6_net_parsed,
    ipv6_net_text, parse_ipv4_net, parse_ipv6_net,
};
use crate::prefix::shorten::IpPrefixShortening;
use crate::prefix::{IpPrefix, IpPrefixError, IpPrivatePrefix, IpRootPrefix};
use std::str::FromStr;

verus! {

/// No bit of the zero word is set.
pub proof fn lemma_zero32()
    ensures
        forall|i: int| !(#[trigger] 0u32.bit(i)),
{
    assert forall|i: int| !(#[trigger] 0u32.bit(i)) by {
        if 1 <= i <= 32 {
            lemma_word32(0, 0, (32 - i) as u32, 0, 0);
        }
    }
}

/// No bit of the zero word is set.
pub proof fn lemma_zero128()
    ensures
        forall|i: int| !(#[trigger] 0u128.bit(i)),
{
    assert forall|i: int| !(#[trigger] 0u128.bit(i)) by {
        if 1 <= i <= 128 {
            lemma_word128(0, 0, (128 - i) as u128, 0, 0);
        }
    }
}

/// An IPv4 address, held as its 32 bits.
#[derive(Copy, Clone, Default, Eq, PartialEq, Hash, Debug, Structural)]
pub struct Ipv4Addr {
    pub bits: u32,
}

impl Ipv4Addr {
    /// The address with these bits.
    pub fn from_bits(bits: u32) -> (r: Self)
        ensures
            r.spec_bits() == bits,
    {
        Self { bits }
    }

    /// The bits of the address.
    pub fn to_bits(&self) -> (r: u32)
        ensures
            r == self.spec_bits(),
    {
        self.bits
    }

    /// The bits of the address.
    pub open spec fn spec_bits(&self) -> u32 {
        self.bits
    }
}

impl From<u32> for Ipv4Addr {
    fn from(bits: u32) -> (r: Self) {
        Self { bits }
    }
}

impl FromSpecImpl<u32> for Ipv4Addr {
    open spec fn obeys_from_spec() -> bool {
        true
    }

    open spec fn from_spec(bits: u32) -> Self {
        Self { bits }
    }
}

impl IpPrivatePrefix for Ipv4Addr {
    open spec fn spec_is_private(&self) -> bool {
        private_v4(self.spec_bits(), 32)
    }

    fn is_private(&self) -> (r: bool) {
        is_private_v4(self.bits, 32)
    }
}

impl IpPrefix for Ipv4Addr {
    type Slot = u32;

    type Addr = Ipv4Addr;

    open spec fn spec_bitslot(&self) -> u32 {
        self.bits
    }

    open spec fn spec_len(&self) -> u8 {
        32
    }

    open spec fn spec_max_len() -> u8 {
        32
    }

    open spec fn valid(&self) -> bool {
        true
    }

    proof fn lemma_valid(&self) {
    }

    fn bitslot(&self) -> (r: u32) {
        self.bits
    }

    fn bitslot_trunc(&self) -> (r: u32) {
        proof {
            assert forall|i: int| self.bits.bit(i) implies i <= 32 by {}
        }
        self.bits
    }

    fn len(&self) -> (r: u8) {
        32
    }

    fn bitmask(&self) -> (r: u32) {
        u32::bitmask(32)
    }

    fn max_len() -> (r: u8) {
        32
    }

    fn network(&self) -> (r: Ipv4Addr)
        ensures
            r == *self,
    {
        *self
    }
}

/// An IPv4 network: an address, host bits included, and a prefix length.
#[derive(Copy, Clone, Default, Eq, PartialEq, Hash, Debug, Structural)]
pub struct Ipv4Net {
    pub(crate) addr: u32,
    pub(crate) len: u8,
}

impl Ipv4Net {
    #[verifier::type_invariant]
    pub closed spec fn inv(&self) -> bool {
        self.len <= 32
    }

    /// The network of this address and prefix length; the host bits are kept.
    pub fn new(addr: Ipv4Addr, len: u8) -> (r: Result<Self, IpPrefixError>)
        ensures
            len > 32 ==> r == Err::<Self, IpPrefixError>(IpPrefixError::PrefixLenError),
            len <= 32 ==> r.is_ok() && r.unwrap().valid() && r.unwrap().spec_len() == len
                && r.unwrap().spec_bitslot() == addr.spec_bits(),
    {
        if len > 32 {
            Err(IpPrefixError::PrefixLenError)
        } else {
            Ok(Self { addr: addr.bits, len })
        }
    }

    /// The address, host bits included.
    pub fn addr(&self) -> (r: Ipv4Addr)
        ensures
            r.spec_bits() == self.spec_bitslot(),
    {
        Ipv4Addr { bits: self.addr }
    }

    /// The prefix length.
    pub fn prefix_len(&self) -> (r: u8)
        ensures
            r == self.spec_len(),
            r <= 32,
    {
        proof {
            use_type_invariant(self);
        }
        self.len
    }

    /// The same network with its host bits cleared.
    pub fn trunc(&self) -> (r: Self)
        ensures
            r.valid(),
            r.spec_len() == self.spec_len(),
            forall|i: int|
                r.spec_bitslot().bit(i) == (i <= self.spec_len() && self.spec_bitslot().bit(i)),
    {
        let a = self.bitslot_trunc();
        proof {
            use_type_invariant(self);
        }
        Self { addr: a, len: self.len }
    }

    /// Reads a network written as an address, `/` and a length.
    pub fn parse(text: &str) -> (r: Result<Self, IpPrefixError>)
        ensures
            ipv4_net_parsed(text@).is_none() ==> r == Err::<Self, IpPrefixError>(
                IpPrefixError::AddrParseError,
            ),
            ipv4_net_parsed(text@) matches Some(p) ==> r.is_ok() && r.unwrap().valid()
                && r.unwrap().spec_bitslot() == p.0 && r.unwrap().spec_len() == p.1,
    {
        match parse_ipv4_net(text) {
            Ok((addr, len)) => Ok(Self { addr, len }),
            Err(e) => Err(IpPrefixError::from(e)),
        }
    }

    /// Writes the network as an address, `/` and a length.
    pub fn to_string(&self) -> (r: String)
        ensures
            r@ == ipv4_net_text(self.spec_bitslot(), self.spec_len()),
    {
        proof {
            use_type_invariant(self);
        }
        format_ipv4_net(self.addr, self.len)
    }
}

impl FromStr for Ipv4Net {
    type Err = IpPrefixError;

    /// Reads the text as `parse` does.
    fn from_str(s: &str) -> (r: Result<Self, IpPrefixError>)
        ensures
            ipv4_net_parsed(s@).is_none() ==> r == Err::<Self, IpPrefixError>(
                IpPrefixError::AddrParseError,
            ),
            ipv4_net_parsed(s@) matches Some(p) ==> r.is_ok() && r.unwrap().valid()
                && r.unwrap().spec_bitslot() == p.0 && r.unwrap().spec_len() == p.1,
    {
        Self::parse(s)
    }
}

impl IpPrivatePrefix for Ipv4Net {
    open spec fn spec_is_private(&self) -> bool {
        private_v4(self.spec_bitslot(), self.spec_len())
    }

    fn is_private(&self) -> (r: bool) {
        is_private_v4(self.addr, self.len)
    }
}

impl IpPrefix for Ipv4Net {
    type Slot = u32;

    type Addr = Ipv4Addr;

    closed spec fn spec_bitslot(&self) -> u32 {
        self.addr
    }

    closed spec fn spec_len(&self) -> u8 {
        self.len
    }

    open spec fn spec_max_len() -> u8 {
        32
    }

    closed spec fn valid(&self) -> bool {
        self.inv()
    }

    proof fn lemma_valid(&self) {
    }

    fn bitslot(&self) -> (r: u32) {
        self.addr
    }

    fn bitslot_trunc(&self) -> (r: u32) {
        proof {
            use_type_invariant(self);
        }
        let m = u32::bitmask(self.len);
        self.addr.bitand(m)
    }

    fn len(&self) -> (r: u8) {
        proof {
            use_type_invariant(self);
        }
        self.len
    }

    fn bitmask(&self) -> (r: u32) {
        proof {
            use_type_invariant(self);
        }
        u32::bitmask(self.len)
    }

    fn max_len() -> (r: u8) {
        32
    }

    /// The address of the network: the bits after the length are cleared.
    fn network(&self) -> (r: Ipv4Addr)
        ensures
            forall|i: int|
                r.spec_bits().bit(i) == (i <= self.spec_len() && self.spec_bitslot().bit(i)),
    {
        Ipv4Addr { bits: self.bitslot_trunc() }
    }
}

impl IpRootPrefix for Ipv4Net {
    fn root() -> (r: Self)
        ensures
            r.spec_bitslot() == 0,
    {
        Self { addr: 0, len: 0 }
    }
}

impl IpPrefixShortening for Ipv4Net {
    /// The bits of the address after the former length are cleared.
    fn shorten(&mut self, maxlen: u8)
        ensures
            maxlen < old(self).spec_len() ==> forall|i: int|
                final(self).spec_bitslot().bit(i) == (i <= old(self).spec_len() && old(
                    self,
                ).spec_bitslot().bit(i)),
    {
        proof {
            use_type_invariant(&*self);
        }
        if maxlen < self.len {
            let a = self.bitslot_trunc();
            self.addr = a;
            self.len = maxlen;
        }
    }
}

/// An IPv4 prefix whose bits after the length are all zero.
#[derive(Copy, Clone, Default, Eq, PartialEq, Hash, Debug, Structural)]
pub struct Ipv4Prefix {
    pub(crate) addr: u32,
    pub(crate) len: u8,
}

impl Ipv4Prefix {
    #[verifier::type_invariant]
    pub closed spec fn inv(&self) -> bool {
        self.len <= 32 && forall|i: int| self.len < i ==> !self.addr.bit(i)
    }

    /// The prefix of length `len` of `addr`: the bits after `len` are cleared.
    /// A length above 32 is an error.
    pub fn new(addr: Ipv4Addr, len: u8) -> (r: Result<Self, IpPrefixError>)
        ensures
            len > 32 ==> r == Err::<Self, IpPrefixError>(IpPrefixError::PrefixLenError),
            len <= 32 ==> r.is_ok() && r.unwrap().valid() && r.unwrap().spec_len() == len
                && forall|i: int|
                r.unwrap().spec_bitslot().bit(i) == (i <= len && addr.spec_bits().bit(i)),
    {
        if len > 32 {
            Err(IpPrefixError::PrefixLenError)
        } else {
            Ok(Self::of_bits(addr.bits, len))
        }
    }

    /// The prefix of length `len` of the address with these bits.
    pub(crate) fn of_bits(bits: u32, len: u8) -> (r: Self)
        requires
            len <= 32,
        ensures
            r == Self::spec_of_bits(bits, len),
            r.valid(),
            r.spec_len() == len,
            forall|i: int| r.spec_bitslot().bit(i) == (i <= len && bits.bit(i)),
    {
        let m = u32::bitmask(len);
        let a = bits.bitand(m);
        Self { addr: a, len }
    }

    /// The prefix of length `len` of the address with these bits.
    pub closed spec fn spec_of_bits(bits: u32, len: u8) -> Self {
        Self { addr: bits & mask32(len), len }
    }

    /// The prefix of a network: its host bits are cleared.
    pub closed spec fn spec_from_net(value: Ipv4Net) -> Self {
        Self::spec_of_bits(value.addr, value.len)
    }

    /// Reads a prefix written as an address, `/` and a length; host bits are cleared.
    pub fn parse(text: &str) -> (r: Result<Self, IpPrefixError>)
        ensures
            ipv4_net_parsed(text@).is_none() ==> r == Err::<Self, IpPrefixError>(
                IpPrefixError::AddrParseError,
            ),
            ipv4_net_parsed(text@) matches Some(p) ==> r.is_ok() && r.unwrap().valid()
                && r.unwrap().spec_len() == p.1 && forall|i: int|
                r.unwrap().spec_bitslot().bit(i) == (i <= p.1 && p.0.bit(i)),
    {
        match parse_ipv4_net(text) {
            Ok((addr, len)) => Ok(Self::of_bits(addr, len)),
            Err(e) => Err(IpPrefixError::from(e)),
        }
    }

    /// Writes the prefix as an address, `/` and a length.
    pub fn to_string(&self) -> (r: String)
        ensures
            r@ == ipv4_net_text(self.spec_bitslot(), self.spec_len()),
    {
        proof {
            use_type_invariant(self);
        }
        format_ipv4_net(self.addr, self.len)
    }
}

impl FromStr for Ipv4Prefix {
    type Err = IpPrefixError;

    /// Reads the text as `parse` does.
    fn from_str(s: &str) -> (r: Result<Self, IpPrefixError>)
        ensures
            ipv4_net_parsed(s@).is_none() ==> r == Err::<Self, IpPrefixError>(
                IpPrefixError::AddrParseError,
            ),
            ipv4_net_parsed(s@) matches Some(p) ==> r.is_ok() && r.unwrap().valid()
                && r.unwrap().spec_len() == p.1 && forall|i: int|
                r.unwrap().spec_bitslot().bit(i) == (i <= p.1 && p.0.bit(i)),
    {
        Self::parse(s)
    }
}

impl From<Ipv4Net> for Ipv4Prefix {
    /// The prefix of a network: its host bits are cleared.
    fn from(value: Ipv4Net) -> (r: Self)
        ensures
            r == Self::spec_from_net(value),
            r.valid(),
            r.spec_len() == value.spec_len(),
            forall|i: int|
                r.spec_bitslot().bit(i) == (i <= value.spec_len() && value.spec_bitslot().bit(i)),
    {
        proof {
            use_type_invariant(&value);
        }
        Self::of_bits(value.addr, value.len)
    }
}

impl FromSpecImpl<Ipv4Net> for Ipv4Prefix {
    open spec fn obeys_from_spec() -> bool {
        true
    }

    open spec fn from_spec(value: Ipv4Net) -> Self {
        Self::spec_from_net(value)
    }
}

impl From<Ipv4Prefix> for Ipv4Net {
    /// The network with the bits and the length of a prefix.
    fn from(value: Ipv4Prefix) -> (r: Self)
        ensures
            r.valid(),
            r.spec_len() == value.spec_len(),
            r.spec_bitslot() == value.spec_bitslot(),
    {
        proof {
            use_type_invariant(&value);
        }
        Self { addr: value.addr, len: value.len }
    }
}

impl FromSpecImpl<Ipv4Prefix> for Ipv4Net {
    open spec fn obeys_from_spec() -> bool {
        true
    }

    closed spec fn from_spec(value: Ipv4Prefix) -> Self {
        Self { addr: value.addr, len: value.len }
    }
}

impl From<Ipv4Addr> for Ipv4Prefix {
    /// An address as a prefix of full length.
    fn from(value: Ipv4Addr) -> (r: Self)
        ensures
            r.valid(),
            r.spec_len() == 32,
            r.spec_bitslot() == value.spec_bits(),
    {
        proof {
            assert forall|i: int| value.bits.bit(i) implies i <= 32 by {}
        }
        Self { addr: value.bits, len: 32 }
    }
}

impl FromSpecImpl<Ipv4Addr> for Ipv4Prefix {
    open spec fn obeys_from_spec() -> bool {
        true
    }

    closed spec fn from_spec(value: Ipv4Addr) -> Self {
        Self { addr: value.bits, len: 32 }
    }
}

impl IpPrivatePrefix for Ipv4Prefix {
    open spec fn spec_is_private(&self) -> bool {
        private_v4(self.spec_bitslot(), self.spec_len())
    }

    fn is_private(&self) -> (r: bool) {
        is_private_v4(self.addr, self.len)
    }
}

impl IpPrefix for Ipv4Prefix {
    type Slot = u32;

    type Addr = Ipv4Addr;

    closed spec fn spec_bitslot(&self) -> u32 {
        self.addr
    }

    closed spec fn spec_len(&self) -> u8 {
        self.len
    }

    open spec fn spec_max_len() -> u8 {
        32
    }

    closed spec fn valid(&self) -> bool {
        self.inv()
    }

    proof fn lemma_valid(&self) {
    }

    fn bitslot(&self) -> (r: u32) {
        self.addr
    }

    fn bitslot_trunc(&self) -> (r: u32)
        ensures
            r == self.spec_bitslot(),
    {
        proof {
            use_type_invariant(self);
        }
        self.addr
    }

    fn len(&self) -> (r: u8) {
        proof {
            use_type_invariant(self);
        }
        self.len
    }

    fn bitmask(&self) -> (r: u32) {
        proof {
            use_type_invariant(self);
        }
        u32::bitmask(self.len)
    }

    fn max_len() -> (r: u8) {
        32
    }

    /// The address of the network, which is the slot itself.
    fn network(&self) -> (r: Ipv4Addr)
        ensures
            r.spec_bits() == self.spec_bitslot(),
    {
        Ipv4Addr { bits: self.addr }
    }
}

impl IpPrefixShortening for Ipv4Prefix {
    fn shorten(&mut self, maxlen: u8)
        ensures
            final(self).valid(),
            maxlen < old(self).spec_len() ==> forall|i: int|
                final(self).spec_bitslot().bit(i) == (i <= maxlen && old(self).spec_bitslot().bit(
                    i,
                )),
    {
        proof {
            use_type_invariant(&*self);
        }
        if maxlen < self.len {
            let m = u32::bitmask(maxlen);
            let a = self.addr.bitand(m);
            self.addr = a;
            self.len = maxlen;
        }
    }
}

impl IpRootPrefix for Ipv4Prefix {
    fn root() -> (r: Self)
        ensures
            r.spec_bitslot() == 0,
    {
        proof {
            lemma_zero32();
        }
        Self { addr: 0, len: 0 }
    }
}

/// An IPv6 address, held as its 128 bits.
#[derive(Copy, Clone, Default, Eq, PartialEq, Hash, Debug, Structural)]
pub struct Ipv6Addr {
    pub bits: u128,
}

impl Ipv6Addr {
    /// The address with these bits.
    pub fn from_bits(bits: u128) -> (r: Self)
        ensures
            r.spec_bits() == bits,
    {
        Self { bits }
    }

    /// The bits of the address.
    pub fn to_bits(&self) -> (r: u128)
        ensures
            r == self.spec_bits(),
    {
        self.bits
    }

    /// The bits of the address.
    pub open spec fn spec_bits(&self) -> u128 {
        self.bits
    }
}

impl From<u128> for Ipv6Addr {
    fn from(bits: u128) -> (r: Self) {
        Self { bits }
    }
}

impl FromSpecImpl<u128> for Ipv6Addr {
    open spec fn obeys_from_spec() -> bool {
        true
    }

    open spec fn from_spec(bits: u128) -> Self {
        Self { bits }
    }
}

impl IpPrivatePrefix for Ipv6Addr {
    open spec fn spec_is_private(&self) -> bool {
        private_v6(self.spec_bits(), 128)
    }

    fn is_private(&self) -> (r: bool) {
        is_private_v6(self.bits, 128)
    }
}

impl IpPrefix for Ipv6Addr {
    type Slot = u128;

    type Addr = Ipv6Addr;

    open spec fn spec_bitslot(&self) -> u128 {
        self.bits
    }

    open spec fn spec_len(&self) -> u8 {
        128
    }

    open spec fn spec_max_len() -> u8 {
        128
    }

    open spec fn valid(&self) -> bool {
        true
    }

    proof fn lemma_valid(&self) {
    }

    fn bitslot(&self) -> (r: u128) {
        self.bits
    }

    fn bitslot_trunc(&self) -> (r: u128) {
        proof {
            assert forall|i: int| self.bits.bit(i) implies i <= 128 by {}
        }
        self.bits
    }

    fn len(&self) -> (r: u8) {
        128
    }

    fn bitmask(&self) -> (r: u128) {
        u128::bitmask(128)
    }

    fn max_len() -> (r: u8) {
        128
    }

    fn network(&self) -> (r: Ipv6Addr)
        ensures
            r == *self,
    {
        *self
    }
}

/// An IPv6 network: an address, host bits included, and a prefix length.
#[derive(Copy, Clone, Default, Eq, PartialEq, Hash, Debug, Structural)]
pub struct Ipv6Net {
    pub(crate) addr: u128,
    pub(crate) len: u8,
}

impl Ipv6Net {
    #[verifier::type_invariant]
    pub closed spec fn inv(&self) -> bool {
        self.len <= 128
    }

    /// The network of this address and prefix length; the host bits are kept.
    pub fn new(addr: Ipv6Addr, len: u8) -> (r: Result<Self, IpPrefixError>)
        ensures
            len > 128 ==> r == Err::<Self, IpPrefixError>(IpPrefixError::PrefixLenError),
            len <= 128 ==> r.is_ok() && r.unwrap().valid() && r.unwrap().spec_len() == len
                && r.unwrap().spec_bitslot() == addr.spec_bits(),
    {
        if len > 128 {
            Err(IpPrefixError::PrefixLenError)
        } else {
            Ok(Self { addr: addr.bits, len })
        }
    }

    /// The address, host bits included.
    pub fn addr(&self) -> (r: Ipv6Addr)
        ensures
            r.spec_bits() == self.spec_bitslot(),
    {
        Ipv6Addr { bits: self.addr }
    }

    /// The prefix length.
    pub fn prefix_len(&self) -> (r: u8)
        ensures
            r == self.spec_len(),
            r <= 128,
    {
        proof {
            use_type_invariant(self);
        }
        self.len
    }

    /// The same network with its host bits cleared.
    pub fn trunc(&self) -> (r: Self)
        ensures
            r.valid(),
            r.spec_len() == self.spec_len(),
            forall|i: int|
                r.spec_bitslot().bit(i) == (i <= self.spec_len() && self.spec_bitslot().bit(i)),
    {
        let a = self.bitslot_trunc();
        proof {
            use_type_invariant(self);
        }
        Self { addr: a, len: self.len }
    }

    /// Reads a network written as an address, `/` and a length.
    pub fn parse(text: &str) -> (r: Result<Self, IpPrefixError>)
        ensures
            ipv6_net_parsed(text@).is_none() ==> r == Err::<Self, IpPrefixError>(
                IpPrefixError::AddrParseError,
            ),
            ipv6_net_parsed(text@) matches Some(p) ==> r.is_ok() && r.unwrap().valid()
                && r.unwrap().spec_bitslot() == p.0 && r.unwrap().spec_len() == p.1,
    {
        match parse_ipv6_net(text) {
            Ok((addr, len)) => Ok(Self { addr, len }),
            Err(e) => Err(IpPrefixError::from(e)),
        }
    }

    /// Writes the network as an address, `/` and a length.
    pub fn to_string(&self) -> (r: String)
        ensures
            r@ == ipv6_net_text(self.spec_bitslot(), self.spec_len()),
    {
        proof {
            use_type_invariant(self);
        }
        format_ipv6_net(self.addr, self.len)
    }
}

impl FromStr for Ipv6Net {
    type Err = IpPrefixError;

    /// Reads the text as `parse` does.
    fn from_str(s: &str) -> (r: Result<Self, IpPrefixError>)
        ensures
            ipv6_net_parsed(s@).is_none() ==> r == Err::<Self, IpPrefixError>(
                IpPrefixError::AddrParseError,
            ),
            ipv6_net_parsed(s@) matches Some(p) ==> r.is_ok() && r.unwrap().valid()
                && r.unwrap().spec_bitslot() == p.0 && r.unwrap().spec_len() == p.1,
    {
        Self::parse(s)
    }
}

impl IpPrivatePrefix for Ipv6Net {
    open spec fn spec_is_private(&self) -> bool {
        private_v6(self.spec_bitslot(), self.spec_len())
    }

    fn is_private(&self) -> (r: bool) {
        is_private_v6(self.addr, self.len)
    }
}

impl IpPrefix for Ipv6Net {
    type Slot = u128;

    type Addr = Ipv6Addr;

    closed spec fn spec_bitslot(&self) -> u128 {
        self.addr
    }

    closed spec fn spec_len(&self) -> u8 {
        self.len
    }

    open spec fn spec_max_len() -> u8 {
        128
    }

    closed spec fn valid(&self) -> bool {
        self.inv()
    }

    proof fn lemma_valid(&self) {
    }

    fn bitslot(&self) -> (r: u128) {
        self.addr
    }

    fn bitslot_trunc(&self) -> (r: u128) {
        proof {
            use_type_invariant(self);
        }
        let m = u128::bitmask(self.len);
        self.addr.bitand(m)
    }

    fn len(&self) -> (r: u8) {
        proof {
            use_type_invariant(self);
        }
        self.len
    }

    fn bitmask(&self) -> (r: u128) {
        proof {
            use_type_invariant(self);
        }
        u128::bitmask(self.len)
    }

    fn max_len() -> (r: u8) {
        128
    }

    /// The address of the network: the bits after the length are cleared.
    fn network(&self) -> (r: Ipv6Addr)
        ensures
            forall|i: int|
                r.spec_bits().bit(i) == (i <= self.spec_len() && self.spec_bitslot().bit(i)),
    {
        Ipv6Addr { bits: self.bitslot_trunc() }
    }
}

impl IpRootPrefix for Ipv6Net {
    fn root() -> (r: Self)
        ensures
            r.spec_bitslot() == 0,
    {
        Self { addr: 0, len: 0 }
    }
}

impl IpPrefixShortening for Ipv6Net {
    /// The bits of the address after the former length are cleared.
    fn shorten(&mut self, maxlen: u8)
        ensures
            maxlen < old(self).spec_len() ==> forall|i: int|
                final(self).spec_bitslot().bit(i) == (i <= old(self).spec_len() && old(
                    self,
                ).spec_bitslot().bit(i)),
    {
        proof {
            use_type_invariant(&*self);
        }
        if maxlen < self.len {
            let a = self.bitslot_trunc();
            self.addr = a;
            self.len = maxlen;
        }
    }
}

/// An IPv6 prefix whose bits after the length are all zero.
#[derive(Copy, Clone, Default, Eq, PartialEq, Hash, Debug, Structural)]
pub struct Ipv6Prefix {
    pub(crate) addr: u128,
    pub(crate) len: u8,
}

impl Ipv6Prefix {
    #[verifier::type_invariant]
    pub closed spec fn inv(&self) -> bool {
        self.len <= 128 && forall|i: int| self.len < i ==> !self.addr.bit(i)
    }

    /// The prefix of length `len` of `addr`: the bits after `len` are cleared.
    /// A length above 128 is an error.
    pub fn new(addr: Ipv6Addr, len: u8) -> (r: Result<Self, IpPrefixError>)
        ensures
            len > 128 ==> r == Err::<Self, IpPrefixError>(IpPrefixError::PrefixLenError),
            len <= 128 ==> r.is_ok() && r.unwrap().valid() && r.unwrap().spec_len() == len
                && forall|i: int|
                r.unwrap().spec_bitslot().bit(i) == (i <= len && addr.spec_bits().bit(i)),
    {
        if len > 128 {
            Err(IpPrefixError::PrefixLenError)
        } else {
            Ok(Self::of_bits(addr.bits, len))
        }
    }

    /// The prefix of length `len` of the address with these bits.
    pub(crate) fn of_bits(bits: u128, len: u8) -> (r: Self)
        requires
            len <= 128,
        ensures
            r == Self::spec_of_bits(bits, len),
            r.valid(),
            r.spec_len() == len,
            forall|i: int| r.spec_bitslot().bit(i) == (i <= len && bits.bit(i)),
    {
        let m = u128::bitmask(len);
        let a = bits.bitand(m);
        Self { addr: a, len }
    }

    /// The prefix of length `len` of the address with these bits.
    pub closed spec fn spec_of_bits(bits: u128, len: u8) -> Self {
        Self { addr: bits & mask128(len), len }
    }

    /// The prefix of a network: its host bits are cleared.
    pub closed spec fn spec_from_net(value: Ipv6Net) -> Self {
        Self::spec_of_bits(value.addr, value.len)
    }

    /// Reads a prefix written as an address, `/` and a length; host bits are cleared.
    pub fn parse(text: &str) -> (r: Result<Self, IpPrefixError>)
        ensures
            ipv6_net_parsed(text@).is_none() ==> r == Err::<Self, IpPrefixError>(
                IpPrefixError::AddrParseError,
            ),
            ipv6_net_parsed(text@) matches Some(p) ==> r.is_ok() && r.unwrap().valid()
                && r.unwrap().spec_len() == p.1 && forall|i: int|
                r.unwrap().spec_bitslot().bit(i) == (i <= p.1 && p.0.bit(i)),
    {
        match parse_ipv6_net(text) {
            Ok((addr, len)) => Ok(Self::of_bits(addr, len)),
            Err(e) => Err(IpPrefixError::from(e)),
        }
    }

    /// Writes the prefix as an address, `/` and a length.
    pub fn to_string(&self) -> (r: String)
        ensures
            r@ == ipv6_net_text(self.spec_bitslot(), self.spec_len()),
    {
        proof {
            use_type_invariant(self);
        }
        format_ipv6_net(self.addr, self.len)
    }
}

impl FromStr for Ipv6Prefix {
    type Err = IpPrefixError;

    /// Reads the text as `parse` does.
    fn from_str(s: &str) -> (r: Result<Self, IpPrefixError>)
        ensures
            ipv6_net_parsed(s@).is_none() ==> r == Err::<Self, IpPrefixError>(
                IpPrefixError::AddrParseError,
            ),
            ipv6_net_parsed(s@) matches Some(p) ==> r.is_ok() && r.unwrap().valid()
                && r.unwrap().spec_len() == p.1 && forall|i: int|
                r.unwrap().spec_bitslot().bit(i) == (i <= p.1 && p.0.bit(i)),
    {
        Self::parse(s)
    }
}

impl From<Ipv6Net> for Ipv6Prefix {
    /// The prefix of a network: its host bits are cleared.
    fn from(value: Ipv6Net) -> (r: Self)
        ensures
            r == Self::spec_from_net(value),
            r.valid(),
            r.spec_len() == value.spec_len(),
            forall|i: int|
                r.spec_bitslot().bit(i) == (i <= value.spec_len() && value.spec_bitslot().bit(i)),
    {
        proof {
            use_type_invariant(&value);
        }
        Self::of_bits(value.addr, value.len)
    }
}

impl FromSpecImpl<Ipv6Net> for Ipv6Prefix {
    open spec fn obeys_from_spec() -> bool {
        true
    }

    open spec fn from_spec(value: Ipv6Net) -> Self {
        Self::spec_from_net(value)
    }
}

impl From<Ipv6Prefix> for Ipv6Net {
    /// The network with the bits and the length of a prefix.
    fn from(value: Ipv6Prefix) -> (r: Self)
        ensures
            r.valid(),
            r.spec_len() == value.spec_len(),
            r.spec_bitslot() == value.spec_bitslot(),
    {
        proof {
            use_type_invariant(&value);
        }
        Self { addr: value.addr, len: value.len }
    }
}

impl FromSpecImpl<Ipv6Prefix> for Ipv6Net {
    open spec fn obeys_from_spec() -> bool {
        true
    }

    closed spec fn from_spec(value: Ipv6Prefix) -> Self {
        Self { addr: value.addr, len: value.len }
    }
}

impl From<Ipv6Addr> for Ipv6Prefix {
    /// An address as a prefix of full length.
    fn from(value: Ipv6Addr) -> (r: Self)
        ensures
            r.valid(),
            r.spec_len() == 128,
            r.spec_bitslot() == value.spec_bits(),
    {
        proof {
            assert forall|i: int| value.bits.bit(i) implies i <= 128 by {}
        }
        Self { addr: value.bits, len: 128 }
    }
}

impl FromSpecImpl<Ipv6Addr> for Ipv6Prefix {
    open spec fn obeys_from_spec() -> bool {
        true
    }

    closed spec fn from_spec(value: Ipv6Addr) -> Self {
        Self { addr: value.bits, len: 128 }
    }
}

impl IpPrivatePrefix for Ipv6Prefix {
    open spec fn spec_is_private(&self) -> bool {
        private_v6(self.spec_bitslot(), self.spec_len())
    }

    fn is_private(&self) -> (r: bool) {
        is_private_v6(self.addr, self.len)
    }
}

impl IpPrefix for Ipv6Prefix {
    type Slot = u128;

    type Addr = Ipv6Addr;

    closed spec fn spec_bitslot(&self) -> u128 {
        self.addr
    }

    closed spec fn spec_len(&self) -> u8 {
        self.len
    }

    open spec fn spec_max_len() -> u8 {
        128
    }

    closed spec fn valid(&self) -> bool {
        self.inv()
    }

    proof fn lemma_valid(&self) {
    }

    fn bitslot(&self) -> (r: u128) {
        self.addr
    }

    fn bitslot_trunc(&self) -> (r: u128)
        ensures
            r == self.spec_bitslot(),
    {
        proof {
            use_type_invariant(self);
        }
        self.addr
    }

    fn len(&self) -> (r: u8) {
        proof {
            use_type_invariant(self);
        }
        self.len
    }

    fn bitmask(&self) -> (r: u128) {
        proof {
            use_type_invariant(self);
        }
        u128::bitmask(self.len)
    }

    fn max_len() -> (r: u8) {
        128
    }

    /// The address of the network, which is the slot itself.
    fn network(&self) -> (r: Ipv6Addr)
        ensures
            r.spec_bits() == self.spec_bitslot(),
    {
        Ipv6Addr { bits: self.addr }
    }
}

impl IpPrefixShortening for Ipv6Prefix {
    fn shorten(&mut self, maxlen: u8)
        ensures
            final(self).valid(),
            maxlen < old(self).spec_len() ==> forall|i: int|
                final(self).spec_bitslot().bit(i) == (i <= maxlen && old(self).spec_bitslot().bit(
                    i,
                )),
    {
        proof {
            use_type_invariant(&*self);
        }
        if maxlen < self.len {
            let m = u128::bitmask(maxlen);
            let a = self.addr.bitand(m);
            self.addr = a;
            self.len = maxlen;
        }
    }
}

impl IpRootPrefix for Ipv6Prefix {
    fn root() -> (r: Self)
        ensures
            r.spec_bitslot() == 0,
    {
        proof {
            lemma_zero128();
        }
        Self { addr: 0, len: 0 }
    }
}

impl Ipv4Addr {
    /// The address `a.b.c.d`.
    pub fn new(a: u8, b: u8, c: u8, d: u8) -> (r: Self)
        ensures
            r.spec_bits() == ((a as u32) << 24) | ((b as u32) << 16) | ((c as u32) << 8) | (d as u32),
    {
        Self { bits: ((a as u32) << 24) | ((b as u32) << 16) | ((c as u32) << 8) | (d as u32) }
    }
}

impl Ipv6Addr {
    /// The address of these eight 16-bit segments, the first in the highest bits.
    pub fn new(a: u16, b: u16, c: u16, d: u16, e: u16, f: u16, g: u16, h: u16) -> (r: Self)
        ensures
            r.spec_bits() == ((a as u128) << 112) | ((b as u128) << 96) | ((c as u128) << 80) | ((
            d as u128) << 64) | ((e as u128) << 48) | ((f as u128) << 32) | ((g as u128) << 16) | (
            h as u128),
    {
        Self {
            bits: ((a as u128) << 112) | ((b as u128) << 96) | ((c as u128) << 80) | ((d as u128)
                << 64) | ((e as u128) << 48) | ((f as u128) << 32) | ((g as u128) << 16) | (
            h as u128),
        }
    }
}

} // verus!
