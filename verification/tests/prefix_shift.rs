use iptrie::prefix::ipstd::{Ipv4Prefix, Ipv6Prefix};
use iptrie::prefix::ipv6trunc::{Ipv6Prefix120, Ipv6Prefix56};
use iptrie::prefix::network::Ipv6NetPrefix;
use iptrie::prefix::routing::Ipv6NetRouting;
use iptrie::prefix::shorten::IpPrefixShortening;
use iptrie::prefix::{IpPrefix, IpPrefixError};
use std::fmt::Debug;
use std::str::FromStr;

/// The prefix shortened by `n` bits, down to the root.
fn shl<P: IpPrefix + IpPrefixShortening>(prefix: P, n: u8) -> P {
    let mut shorter = prefix;
    shorter.shorten(prefix.len().saturating_sub(n));
    shorter
}

fn generic_ipv4_tests<P>()
where
    P: IpPrefix + IpPrefixShortening + FromStr<Err = IpPrefixError> + PartialEq + Debug,
{
    let prefix = "127.1.1.3/24".parse::<P>().unwrap();
    assert_eq!(prefix, "127.1.1.0/24".parse().unwrap());
    assert_eq!(shl(prefix, 1), "127.1.0.0/23".parse().unwrap());
    assert_eq!(shl(prefix, 18), "124.0.0.0/6".parse().unwrap());
    assert_eq!(shl(prefix, 36), "0.0.0.0/0".parse().unwrap());
}

fn generic_ipv6_tests<P>()
where
    P: IpPrefix + IpPrefixShortening + FromStr<Err = IpPrefixError> + PartialEq + Debug,
{
    let prefix = "2021:2021:2021:2021::/121".parse::<P>().unwrap();
    assert_eq!(prefix, "2021:2021:2021:2021::/121".parse().unwrap());
    assert_eq!(shl(prefix, 69), "2021:2021:2021:2000::/52".parse().unwrap());
    assert_eq!(shl(prefix, 150), "::/0".parse().unwrap());
}

fn generic_ipv6s_tests<P>()
where
    P: IpPrefix + IpPrefixShortening + FromStr<Err = IpPrefixError> + PartialEq + Debug,
{
    let prefix = "2021:2021:2021:2021::/52".parse::<P>().unwrap();
    assert_eq!(prefix, "2021:2021:2021:2000::/52".parse().unwrap());
    assert_eq!(shl(prefix, 1), "2021:2021:2021:2000::/51".parse().unwrap());
    assert_eq!(shl(prefix, 4), "2021:2021:2021::/48".parse().unwrap());
    assert_eq!(shl(prefix, 20), "2021:2021::/32".parse().unwrap());
    assert_eq!(shl(prefix, 22), "2021:2020::/30".parse().unwrap());
    assert_eq!(shl(prefix, 60), "::/0".parse().unwrap());
}

#[test]
fn prefixes() {
    generic_ipv4_tests::<Ipv4Prefix>();

    generic_ipv6_tests::<Ipv6Prefix>();

    generic_ipv6s_tests::<Ipv6Prefix>();
    generic_ipv6s_tests::<Ipv6NetRouting>();
    generic_ipv6s_tests::<Ipv6NetPrefix>();
    generic_ipv6s_tests::<Ipv6Prefix56>();
    generic_ipv6s_tests::<Ipv6Prefix120>();
}
