//! Address ranges for private use.
//!
//! | Family | Range          |
//! |--------|----------------|
//! | IPv4   | 10.0.0.0/8     |
//! | IPv4   | 172.16.0.0/12  |
//! | IPv4   | 192.168.0.0/16 |
//! | IPv6   | fc00::/7       |
//! | IPv6   | 64:ff9b:1::/48 |
use vstd::prelude::*;

verus! {

/// An IPv4 prefix lies within one of the private ranges: it is at least as
/// long as the range and starts with the bits of the range.
pub open spec fn private_v4(addr: u32, len: u8) -> bool {
    ||| (addr >> 24 == 10 && len >= 8)
    ||| (addr >> 20 == 0xac1 && len >= 12)
    ||| (addr >> 16 == 0xc0a8 && len >= 16)
}

/// An IPv6 prefix lies within one of the private ranges.
pub open spec fn private_v6(addr: u128, len: u8) -> bool {
    ||| (addr >> 121 == 0x7e && len >= 7)
    ||| (addr >> 80 == 0x64ff9b0001 && len >= 48)
}

/// An IPv6 prefix, given by the upper half of its address, lies within one of
/// the private ranges.
pub open spec fn private_v6_upper(upper: u64, len: u8) -> bool {
    ||| (upper >> 57 == 0x7e && len >= 7)
    ||| (upper >> 16 == 0x64ff9b0001 && len >= 48)
}

pub fn is_private_v4(addr: u32, len: u8) -> (r: bool)
    ensures
        r == private_v4(addr, len),
{
    (addr >> 24 == 10 && len >= 8) || (addr >> 20 == 0xac1 && len >= 12) || (addr >> 16 == 0xc0a8
        && len >= 16)
}

pub fn is_private_v6(addr: u128, len: u8) -> (r: bool)
    ensures
        r == private_v6(addr, len),
{
    (addr >> 121 == 0x7e && len >= 7) || (addr >> 80 == 0x64ff9b0001 && len >= 48)
}

pub fn is_private_v6_upper(upper: u64, len: u8) -> (r: bool)
    ensures
        r == private_v6_upper(upper, len),
{
    (upper >> 57 == 0x7e && len >= 7) || (upper >> 16 == 0x64ff9b0001 && len >= 48)
}

} // verus!
