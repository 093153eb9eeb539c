//! IP prefixes: bit slots, lengths, coverage.
pub mod slot;
pub mod cover;
pub mod ipstd;
pub mod text;
pub mod private;
pub mod routing;
pub mod network;
pub mod ipv6trunc;
pub mod ipv6netaddr;
pub mod shorten;

use vstd::prelude::*;
use crate::prefix::slot::BitSlot;
use vstd::std_specs::convert::FromSpecImpl;

verus! {

/// Error returned when building an IP prefix.
#[derive(Debug, PartialEq, Eq, Copy, Clone, Structural)]
pub enum IpPrefixError {
    /// The length given for the prefix is above the maximum of its type.
    PrefixLenError,
    /// The text parsed does not hold an address of the expected family.
    AddrParseError,
}

/// An IP prefix, seen as the first `len` bits of a slot.
pub trait IpPrefix: Copy {
    /// The slot that holds the bits of the prefix.
    type Slot: BitSlot;

    /// The address type of the family of this prefix.
    type Addr;

    /// The slot as stored; bits after the length are not specified.
    spec fn spec_bitslot(&self) -> Self::Slot;

    /// The number of significant bits.
    spec fn spec_len(&self) -> u8;

    /// The greatest length that a prefix of this type can have.
    spec fn spec_max_len() -> u8;

    /// What holds of every value of the type.
    spec fn valid(&self) -> bool;

    /// A valid prefix is no longer than its type allows, and that is no more
    /// than the slot holds.
    proof fn lemma_valid(&self)
        requires
            self.valid(),
        ensures
            self.spec_len() <= Self::spec_max_len() <= Self::Slot::width(),
    ;

    fn bitslot(&self) -> (r: Self::Slot)
        ensures
            r == self.spec_bitslot(),
    ;

    fn bitslot_trunc(&self) -> (r: Self::Slot)
        ensures
            self.valid(),
            forall|i: int| r.bit(i) == (i <= self.spec_len() && self.spec_bitslot().bit(i)),
    ;

    fn len(&self) -> (r: u8)
        ensures
            self.valid(),
            r == self.spec_len(),
    ;

    fn bitmask(&self) -> (r: Self::Slot)
        ensures
            forall|i: int| r.bit(i) <==> 1 <= i <= self.spec_len(),
    ;

    fn max_len() -> (r: u8)
        ensures
            r == Self::spec_max_len(),
    ;

    fn network(&self) -> Self::Addr;
}

/// Tells whether a range of addresses is wholly for private use.
pub trait IpPrivatePrefix: IpPrefix {
    /// What `is_private` returns.
    spec fn spec_is_private(&self) -> bool;

    fn is_private(&self) -> (r: bool)
        ensures
            r == self.spec_is_private(),
    ;
}

/// A prefix type that has a root: the prefix of length 0, which covers every address.
pub trait IpRootPrefix: IpPrefix {
    fn root() -> (r: Self)
        ensures
            r.valid(),
            r.spec_len() == 0,
    ;
}

impl IpPrefixError {
    /// What the error says, in a few words.
    pub fn message(&self) -> (r: &'static str)
        ensures
            r@ == match *self {
                IpPrefixError::PrefixLenError => "invalid IP prefix length"@,
                IpPrefixError::AddrParseError => "invalid IP address syntax"@,
            },
    {
        match self {
            IpPrefixError::PrefixLenError => "invalid IP prefix length",
            IpPrefixError::AddrParseError => "invalid IP address syntax",
        }
    }
}

impl From<ipnet::AddrParseError> for IpPrefixError {
    fn from(e: ipnet::AddrParseError) -> (r: Self) {
        IpPrefixError::AddrParseError
    }
}

impl FromSpecImpl<ipnet::AddrParseError> for IpPrefixError {
    open spec fn obeys_from_spec() -> bool {
        true
    }

    open spec fn from_spec(e: ipnet::AddrParseError) -> Self {
        IpPrefixError::AddrParseError
    }
}

impl From<ipnet::PrefixLenError> for IpPrefixError {
    fn from(e: ipnet::PrefixLenError) -> (r: Self) {
        IpPrefixError::PrefixLenError
    }
}

impl FromSpecImpl<ipnet::PrefixLenError> for IpPrefixError {
    open spec fn obeys_from_spec() -> bool {
        true
    }

    open spec fn from_spec(e: ipnet::PrefixLenError) -> Self {
        IpPrefixError::PrefixLenError
    }
}

} // verus!
