use iptrie::prefix::cover::{IpPrefixCoverage, IpPrefixCovering};
use iptrie::prefix::ipstd::{Ipv4Addr, Ipv4Net, Ipv4Prefix, Ipv6Addr, Ipv6Net, Ipv6Prefix};
use iptrie::prefix::ipv6netaddr::Ipv6NetAddr;
use iptrie::prefix::ipv6trunc::{Ipv6Prefix120, Ipv6Prefix56};
use iptrie::prefix::network::Ipv6NetPrefix;
use iptrie::prefix::routing::Ipv6NetRouting;
use iptrie::prefix::shorten::IpPrefixShortening;
use iptrie::prefix::slot::BitSlot;
use iptrie::prefix::{IpPrefix, IpPrefixError, IpPrivatePrefix, IpRootPrefix};
use rand::distributions::{Distribution, Uniform};
use rand::thread_rng;
use std::collections::HashSet;
use std::fmt::Debug;
use std::hash::Hash;

#[test]
fn slot_mask() {
    assert_eq!(0, u64::bitmask(0));
    assert_eq!(1 << 63, u64::bitmask(1));
    assert_eq!(u64::MAX, u64::bitmask(64));
}

#[test]
fn slot_root() {
    assert_eq!(Ipv4Prefix::root().network().to_bits(), 0);
    assert_eq!(Ipv4Prefix::root().len(), 0);

    assert_eq!(Ipv6Prefix::root().network().to_bits(), 0);
    assert_eq!(Ipv6Prefix::root().len(), 0);
    assert_eq!(Ipv6NetPrefix::root().network().to_bits(), 0);
    assert_eq!(Ipv6Prefix::root().len(), 0);
}

#[test]
fn parse_errors() {
    assert_eq!("1::/12".parse::<Ipv4Prefix>(), Err(IpPrefixError::AddrParseError));
    assert_eq!("1.1.1.1/12".parse::<Ipv6NetPrefix>(), Err(IpPrefixError::AddrParseError));
}

#[test]
fn prefix_ipv4_trunc() {
    let mut rng = thread_rng();
    let len = Uniform::<u8>::from(0..=32);
    let addr = Uniform::<u32>::from(0..=u32::MAX);

    (0..10_000).for_each(|_| {
        let addr = Ipv4Addr::from(addr.sample(&mut rng));
        let len = len.sample(&mut rng);
        let ipnet = Ipv4Prefix::new(addr, len).unwrap();
        assert_eq!(ipnet.bitslot_trunc(), ipnet.bitslot() & ipnet.bitmask())
    })
}

#[test]
fn prefix_ipv6_128_trunc() {
    let mut rng = thread_rng();
    let len = Uniform::<u8>::from(0..=Ipv6Prefix::max_len());
    let addr = Uniform::<u128>::from(0..=u128::MAX);

    (0..10_000).for_each(|_| {
        let addr = Ipv6Addr::from(addr.sample(&mut rng));
        let len = len.sample(&mut rng);
        let ipnet = Ipv6Prefix::try_from(Ipv6Net::new(addr, len).unwrap()).unwrap();
        assert_eq!(ipnet.bitslot_trunc(), ipnet.bitslot() & ipnet.bitmask())
    })
}

#[test]
fn prefix_ipv6_64_trunc() {
    let mut rng = thread_rng();
    let len = Uniform::<u8>::from(0..=Ipv6NetPrefix::max_len());
    let addr = Uniform::<u128>::from(0..=u128::MAX);

    (0..10_000).for_each(|_| {
        let addr = Ipv6Addr::from(addr.sample(&mut rng));
        let len = len.sample(&mut rng);
        let ipnet = Ipv6NetPrefix::try_from(Ipv6Net::new(addr, len).unwrap()).unwrap();
        assert_eq!(ipnet.bitslot_trunc(), ipnet.bitslot() & ipnet.bitmask())
    })
}

#[test]
fn prefix_eq() {
    let mut rng = thread_rng();
    let len = Uniform::<u8>::from(0..=128);
    let addr = Uniform::<u128>::from(0..=u128::MAX);

    (0..10_000).for_each(|_| {
        let addr = Ipv6Addr::from(addr.sample(&mut rng));
        let len = len.sample(&mut rng);
        let ipnet = Ipv6Prefix::new(addr, len).unwrap();
        let ipnet2 = Ipv6Net::new(addr, len).unwrap();
        assert_eq!(ipnet.network(), ipnet2.network());
        if ipnet.len() <= 64 {
            let ipnet3 = Ipv6NetPrefix::try_from(ipnet).unwrap();
            assert!(ipnet3.covers_equally(&ipnet));
            assert!(ipnet.covers_equally(&ipnet3));
        } else {
            assert_eq!(Ipv6NetPrefix::try_from(ipnet), Err(IpPrefixError::PrefixLenError))
        }
    })
}

#[test]
fn prefix_cover() {
    let mut rng = thread_rng();
    let len = Uniform::<u8>::from(0..=64);
    let addr = Uniform::<u128>::from(0..=u128::MAX);

    (0..10_000).for_each(|_| {
        let addr = Ipv6Addr::from(addr.sample(&mut rng));
        let l1 = len.sample(&mut rng);
        let l2 = len.sample(&mut rng);

        let a1 = Ipv6Prefix::new(addr, l1).unwrap();
        let a2 = Ipv6Prefix::new(addr, l2).unwrap();
        let b1 = Ipv6NetPrefix::new(addr, l1).unwrap();
        let b2 = Ipv6NetPrefix::new(addr, l2).unwrap();

        assert_eq!(a1.covers(&a2), l1 <= l2);
        assert_eq!(a1.covers(&b2), l1 <= l2);
        assert_eq!(b1.covers(&a2), l1 <= l2);
        assert_eq!(b1.covers(&b2), l1 <= l2);

        assert_eq!(a2.covers(&a1), l1 >= l2);
        assert_eq!(a2.covers(&b1), l1 >= l2);
        assert_eq!(b2.covers(&a1), l1 >= l2);
        assert_eq!(b2.covers(&b1), l1 >= l2);
    })
}

fn coverage_std_fn_for<P>(text: fn(&P) -> String)
where
    P: Default + Clone + Hash + Eq + Debug,
{
    let p = P::default();
    assert!(p == p.clone());
    assert_eq!(text(&p), text(&p.clone()));
    let _ = HashSet::<P>::from_iter(std::iter::once(p));
}

#[test]
fn coverage_std_fns() {
    coverage_std_fn_for::<Ipv4Net>(Ipv4Net::to_string);
    coverage_std_fn_for::<Ipv4Prefix>(Ipv4Prefix::to_string);
    coverage_std_fn_for::<Ipv6Net>(Ipv6Net::to_string);
    coverage_std_fn_for::<Ipv6Prefix>(Ipv6Prefix::to_string);
    coverage_std_fn_for::<Ipv6NetPrefix>(Ipv6NetPrefix::to_string);

    let err = "a".parse::<Ipv4Net>().unwrap_err();
    assert_eq!(err, IpPrefixError::AddrParseError);
    assert_eq!(Ipv6NetPrefix::new(Ipv6Addr::from(0), 65).is_err(), true);
    let mapped: IpPrefixError = Ipv6NetPrefix::new(Ipv6Addr::from(0), 65).unwrap_err().into();
    assert_eq!(mapped, IpPrefixError::PrefixLenError);
}

#[test]
fn private_ipv4() {
    assert!(Ipv4Addr::new(172, 31, 255, 255).is_private());
    assert!("172.28.0.0/14".parse::<Ipv4Prefix>().unwrap().is_private());
    assert!("172.29.0.0/12".parse::<Ipv4Net>().unwrap().is_private());
}

#[test]
fn private_ipv6() {
    assert!(Ipv6Addr::new(0x64, 0xff9b, 1, 0, 0, 0, 0, 0x42).is_private());
    assert!("64:ff9b:1:42::/96".parse::<Ipv6Prefix>().unwrap().is_private());
    assert!("64:ff9b:1:42::/96".parse::<Ipv6Net>().unwrap().is_private());
    assert!("64:ff9b:1::42/55".parse::<Ipv6NetRouting>().unwrap().is_private());
    assert!("64:ff9b:1:42::/64".parse::<Ipv6NetRouting>().unwrap().is_private());

    assert!(Ipv6Addr::new(0xfcc0, 0xff9b, 1, 0, 0, 0, 0, 0x42).is_private());
    assert!("fcc0:ff9b:1:42::/96".parse::<Ipv6Prefix>().unwrap().is_private());
    assert!("fcc0:ff9b:1:42::/96".parse::<Ipv6Net>().unwrap().is_private());
    assert!("fcc0:ff9b:1::42/55".parse::<Ipv6NetRouting>().unwrap().is_private());
    assert!("fcc0:ff9b:1:42::/64".parse::<Ipv6NetRouting>().unwrap().is_private());
}

#[test]
fn not_private() {
    assert!(!Ipv4Addr::new(11, 0, 0, 1).is_private());
    assert!(!"172.32.0.0/12".parse::<Ipv4Prefix>().unwrap().is_private());
    assert!(!"10.0.0.0/7".parse::<Ipv4Prefix>().unwrap().is_private());
    assert!(!"fc00::/6".parse::<Ipv6Prefix>().unwrap().is_private());
    assert!(!"2001:db8::/32".parse::<Ipv6Net>().unwrap().is_private());
}

#[test]
fn bit_slot_examples() {
    assert_eq!(<u32 as BitSlot>::len_bits(), 32);
    assert_eq!(<u64 as BitSlot>::len_bits(), 64);
    assert_eq!(<u128 as BitSlot>::len_bits(), 128);
    assert_eq!(<u32 as BitSlot>::single_bit(30), 4);
    assert_eq!(<u32 as BitSlot>::single_bit(24), 256);
    assert_eq!(<u64 as BitSlot>::single_bit(60), 16);
    assert_eq!(<u64 as BitSlot>::single_bit(1), u64::MAX / 2 + 1);
    assert_eq!(<u128 as BitSlot>::single_bit(120), 256);
    assert_eq!(<u32 as BitSlot>::first_bit(&0), 33);
    assert_eq!(<u32 as BitSlot>::first_bit(&1024), 22);
    assert_eq!(<u64 as BitSlot>::first_bit(&1024), 54);
    assert_eq!(<u128 as BitSlot>::first_bit(&0), 129);
    assert_eq!(<u128 as BitSlot>::first_bit(&1), 128);
    assert_eq!(<u128 as BitSlot>::first_bit(&(1u128 << 64)), 64);
    assert_eq!(<u128 as BitSlot>::first_bit(&(1u128 << 63)), 65);
    assert!(!<u32 as BitSlot>::is_set(&0, 12));
    assert!(<u32 as BitSlot>::is_set(&!0, 12));
    assert!(<u32 as BitSlot>::is_set(&1024, 22));
    assert!(!<u32 as BitSlot>::is_set(&1024, 33));
    assert_eq!(<u32 as BitSlot>::last_16_bits(&!0), 65535);
    assert_eq!(<u32 as BitSlot>::last_16_bits(&65), 65);
    assert_eq!(<u32 as BitSlot>::bitmask(8), 0xff00_0000);
    assert_eq!(<u128 as BitSlot>::bitmask(128), u128::MAX);
    assert_eq!(0xf0f0u32.bitand(0xff00), 0xf000);
    assert_eq!(0xf0f0u32.bitxor(0xff00), 0x0ff0);
    assert_eq!(0xf0f0u32.shr(4), 0x0f0f);
    assert!(5u64.same(&5));
    assert!(!5u64.same(&6));
}

#[test]
fn new_rejects_long_lengths() {
    assert_eq!(Ipv4Prefix::new(Ipv4Addr::new(1, 2, 3, 4), 33), Err(IpPrefixError::PrefixLenError));
    assert!(Ipv4Prefix::new(Ipv4Addr::new(1, 2, 3, 4), 12).is_ok());
    assert_eq!(Ipv6Prefix::new(Ipv6Addr::from(1), 133), Err(IpPrefixError::PrefixLenError));
    assert!(Ipv6Prefix::new(Ipv6Addr::from(1), 78).is_ok());
    assert_eq!(Ipv4Net::new(Ipv4Addr::from(0), 33), Err(IpPrefixError::PrefixLenError));
    assert_eq!(Ipv6Net::new(Ipv6Addr::from(0), 129), Err(IpPrefixError::PrefixLenError));
    assert_eq!(Ipv6Prefix56::new(Ipv6Addr::from(0), 57), Err(IpPrefixError::PrefixLenError));
    assert_eq!(Ipv6Prefix120::new(Ipv6Addr::from(0), 121), Err(IpPrefixError::PrefixLenError));
    assert!(Ipv6NetRouting::new(Ipv6Addr::from(0), 65).is_err());
    assert!(Ipv6NetRouting::new(Ipv6Addr::from(0), 64).is_ok());
}

#[test]
fn new_clears_host_bits() {
    let p = Ipv4Prefix::new(Ipv4Addr::new(1, 2, 3, 4), 16).unwrap();
    assert_eq!(p.bitslot(), 0x0102_0000);
    assert_eq!(p.len(), 16);
    assert_eq!(p.to_string(), "1.2.0.0/16");
    let n = Ipv4Net::new(Ipv4Addr::new(1, 2, 3, 4), 16).unwrap();
    assert_eq!(n.bitslot(), 0x0102_0304);
    assert_eq!(n.bitslot_trunc(), 0x0102_0000);
    assert_eq!(n.to_string(), "1.2.3.4/16");
    assert_eq!(n.trunc().to_string(), "1.2.0.0/16");
    assert_eq!(Ipv4Prefix::from(n), p);
    assert_eq!(Ipv4Net::from(p).to_string(), "1.2.0.0/16");
    let q = "2001:db8:1:2::1/48".parse::<Ipv6Prefix>().unwrap();
    assert_eq!(q.to_string(), "2001:db8:1::/48");
    let r = "2001:db8:1:2::1/48".parse::<Ipv6NetRouting>().unwrap();
    assert_eq!(r.to_string(), "2001:db8:1::/48");
    assert_eq!(r.bitslot(), 0x2001_0db8_0001_0000);
    assert_eq!(Ipv6Prefix::from(r), q);
}

#[test]
fn packed_prefixes() {
    let p = "1:1::/48".parse::<Ipv6Prefix56>().unwrap();
    let slot: u64 = p.into_slot();
    assert_eq!(slot, 0x0001_0001_0000_0030);
    assert_eq!(Ok(p), Ipv6Prefix56::from_slot(slot));
    assert_eq!(p.len(), 48);
    assert_eq!(p.to_string(), "1:1::/48");
    assert_eq!(Ipv6Prefix56::from_slot(57), Err(IpPrefixError::PrefixLenError));
    let q = "1:1::/48".parse::<Ipv6Prefix120>().unwrap();
    let slot: u128 = q.into_slot();
    assert_eq!(Ok(q), Ipv6Prefix120::from_slot(slot));
    assert_eq!(Ipv6Prefix120::from(p), q);
    assert_eq!(Ipv6Prefix56::try_from(q), Ok(p));
    let long = "1:1::/100".parse::<Ipv6Prefix120>().unwrap();
    assert_eq!(Ipv6Prefix56::try_from(long), Err(IpPrefixError::PrefixLenError));
    assert_eq!("1:1::/57".parse::<Ipv6Prefix56>(), Err(IpPrefixError::PrefixLenError));
}

#[test]
fn network_addresses() {
    let a = "2001:db8:1:2::/64".parse::<Ipv6NetAddr>().unwrap();
    assert_eq!(a.into_slot(), 0x2001_0db8_0001_0002);
    assert_eq!(a.len(), 64);
    assert_eq!(a.to_string(), "2001:db8:1:2::/64");
    assert_eq!("2001:db8:1:2::/63".parse::<Ipv6NetAddr>(), Err(IpPrefixError::PrefixLenError));
    assert_eq!(Ipv6NetAddr::from_slot(7).into_slot(), 7);
    assert_eq!(Ipv6NetAddr::from(9u64).network().to_bits(), 9u128 << 64);
}

#[test]
fn shorten_prefixes() {
    let mut p = "10.1.2.0/24".parse::<Ipv4Prefix>().unwrap();
    p.shorten(16);
    assert_eq!(p.to_string(), "10.1.0.0/16");
    p.shorten(20);
    assert_eq!(p.to_string(), "10.1.0.0/16");
    let mut n = "10.1.2.3/24".parse::<Ipv4Net>().unwrap();
    n.shorten(16);
    assert_eq!(n.to_string(), "10.1.2.0/16");
    let mut q = "2001:db8:1:2::/64".parse::<Ipv6NetRouting>().unwrap();
    q.shorten(32);
    assert_eq!(q.to_string(), "2001:db8::/32");
    let mut r = "2001:db8:1::/48".parse::<Ipv6Prefix56>().unwrap();
    r.shorten(32);
    assert_eq!(r.to_string(), "2001:db8::/32");
    assert_eq!(r.len(), 32);
}

#[test]
fn coverage_kinds() {
    let a = "1.1.0.0/16".parse::<Ipv4Prefix>().unwrap();
    let b = "1.1.1.0/24".parse::<Ipv4Prefix>().unwrap();
    let c = "1.2.0.0/16".parse::<Ipv4Prefix>().unwrap();
    assert_eq!(a.covering(&b), IpPrefixCoverage::WiderRange);
    assert_eq!(a.covering(&a), IpPrefixCoverage::SameRange);
    assert_eq!(b.covering(&a), IpPrefixCoverage::NoCover);
    assert_eq!(a.covering(&c), IpPrefixCoverage::NoCover);
    assert!(a.covers(&b) && a.covers_striclty(&b) && !a.covers_equally(&b));
    assert!(IpPrefixCoverage::WiderRange.is_wider());
    assert!(IpPrefixCoverage::SameRange.is_same());
    assert!(!IpPrefixCoverage::NoCover.is_covering());
    let x = "1.1.1.1/16".parse::<Ipv4Net>().unwrap();
    let y = "1.1.2.2/16".parse::<Ipv4Net>().unwrap();
    assert!(x != y);
    assert!(x.covers_equally(&y));
    assert!(x.covers(&y) && y.covers(&x));
    assert!(a.covers(&Ipv4Addr::new(1, 1, 200, 3)));
    assert!(!a.covers(&Ipv4Addr::new(1, 2, 200, 3)));
}

#[test]
fn error_messages() {
    assert_eq!(IpPrefixError::PrefixLenError.message(), "invalid IP prefix length");
    assert_eq!(IpPrefixError::AddrParseError.message(), "invalid IP address syntax");
    assert_eq!(
        "1.1.1.1/33".parse::<Ipv4Prefix>().unwrap_err().message(),
        "invalid IP address syntax"
    );
    assert_eq!(
        Ipv6NetRouting::new(Ipv6Addr::from(0), 65).map_err(IpPrefixError::from).unwrap_err().message(),
        "invalid IP prefix length"
    );
    assert_eq!(
        "2001:db8::/65".parse::<Ipv6NetRouting>().unwrap_err(),
        IpPrefixError::PrefixLenError
    );
}

#[test]
fn shorten_networks_of_either_family() {
    let mut net = iptrie::IpNet::V4("10.1.2.3/24".parse().unwrap());
    net.shorten(16);
    assert_eq!(net, iptrie::IpNet::V4("10.1.2.0/16".parse().unwrap()));
    net.shorten(20);
    assert_eq!(net, iptrie::IpNet::V4("10.1.2.0/16".parse().unwrap()));
    let mut net = iptrie::IpNet::V6("2001:db8:1:2::9/64".parse().unwrap());
    net.shorten(32);
    assert_eq!(net, iptrie::IpNet::V6("2001:db8:1:2::/32".parse().unwrap()));
    net.shorten(32);
    assert_eq!(net, iptrie::IpNet::V6("2001:db8:1:2::/32".parse().unwrap()));
}
