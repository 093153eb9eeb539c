//! Reading and writing prefixes as text, through the `ipnet` crate.
use vstd::prelude::*;

verus! {

/// The error of `ipnet` for a text that holds no network of the expected family.
#[verifier::external_type_specification]
#[verifier::external_body]
pub struct ExAddrParseError(ipnet::AddrParseError);

/// The error of `ipnet` for a prefix length above the maximum of the family.
#[verifier::external_type_specification]
#[verifier::external_body]
pub struct ExPrefixLenError(ipnet::PrefixLenError);

/// The address bits and the prefix length that `ipnet` reads from a text as an
/// IPv4 network, or `None` where it reads none.
pub uninterp spec fn ipv4_net_parsed(text: Seq<char>) -> Option<(u32, u8)>;

/// The address bits and the prefix length that `ipnet` reads from a text as an
/// IPv6 network, or `None` where it reads none.
pub uninterp spec fn ipv6_net_parsed(text: Seq<char>) -> Option<(u128, u8)>;

/// The text that `ipnet` writes for the IPv4 network of these address bits and length.
pub uninterp spec fn ipv4_net_text(addr: u32, len: u8) -> Seq<char>;

/// The text that `ipnet` writes for the IPv6 network of these address bits and length.
pub uninterp spec fn ipv6_net_text(addr: u128, len: u8) -> Seq<char>;

/// `<ipnet::Ipv4Net as FromStr>::from_str`: the address, host bits included,
/// and the prefix length of the network read, which is at most 32; the
/// error of `ipnet` where the text is not `a.b.c.d/len`.
#[verifier::external_body]
pub(crate) fn parse_ipv4_net(text: &str) -> (r: Result<(u32, u8), ipnet::AddrParseError>)
    ensures
        r.is_ok() == ipv4_net_parsed(text@).is_some(),
        r matches Ok(p) ==> ipv4_net_parsed(text@) == Some(p) && p.1 <= 32,
{
    match text.parse::<ipnet::Ipv4Net>() {
        Ok(net) => Ok((u32::from(net.addr()), net.prefix_len())),
        Err(e) => Err(e),
    }
}

/// `<ipnet::Ipv6Net as FromStr>::from_str`: the address, host bits included,
/// and the prefix length of the network read, which is at most 128; the
/// error of `ipnet` where the text is not an IPv6 address, `/` and a length.
#[verifier::external_body]
pub(crate) fn parse_ipv6_net(text: &str) -> (r: Result<(u128, u8), ipnet::AddrParseError>)
    ensures
        r.is_ok() == ipv6_net_parsed(text@).is_some(),
        r matches Ok(p) ==> ipv6_net_parsed(text@) == Some(p) && p.1 <= 128,
{
    match text.parse::<ipnet::Ipv6Net>() {
        Ok(net) => Ok((u128::from(net.addr()), net.prefix_len())),
        Err(e) => Err(e),
    }
}

/// `<ipnet::Ipv4Net as Display>::fmt` on the network made by `ipnet::Ipv4Net::new_assert`.
#[verifier::external_body]
pub(crate) fn format_ipv4_net(addr: u32, len: u8) -> (r: String)
    requires
        len <= 32,
    ensures
        r@ == ipv4_net_text(addr, len),
{
    format!("{}", ipnet::Ipv4Net::new_assert(addr.into(), len))
}

/// `<ipnet::Ipv6Net as Display>::fmt` on the network made by `ipnet::Ipv6Net::new_assert`.
#[verifier::external_body]
pub(crate) fn format_ipv6_net(addr: u128, len: u8) -> (r: String)
    requires
        len <= 128,
    ensures
        r@ == ipv6_net_text(addr, len),
{
    format!("{}", ipnet::Ipv6Net::new_assert(addr.into(), len))
}

/// The value of `ipnet::PrefixLenError`, a unit struct.
#[verifier::external_body]
pub(crate) fn prefix_len_error() -> ipnet::PrefixLenError {
    ipnet::PrefixLenError
}

} // verus!
