use iptrie::map::RTrieMap;
use iptrie::prefix::cover::IpPrefixCovering;
use iptrie::prefix::ipstd::{Ipv4Addr, Ipv4Net, Ipv4Prefix, Ipv6Addr, Ipv6Net, Ipv6Prefix};
use iptrie::prefix::network::Ipv6NetPrefix;
use iptrie::prefix::IpPrefix;
use iptrie::set::RTrieSet;
use iptrie::{IpNet, IpRTrieMap, IpRTrieSet, Ipv4RTrieMap, Ipv4RTrieSet, Ipv6RTrieSet};
use rand::distributions::{Distribution, Uniform};
use rand::thread_rng;

fn p4(text: &str) -> Ipv4Prefix {
    text.parse().unwrap()
}

fn a4(a: u8, b: u8, c: u8, d: u8) -> Ipv4Addr {
    Ipv4Addr::new(a, b, c, d)
}

#[test]
fn ipv6_tries() {
    let mut rng = thread_rng();

    let samples = {
        let prefix = Uniform::<u8>::from(8..=50);
        let addr = Uniform::<u128>::from(1..=u128::MAX);
        std::iter::repeat_with(|| {
            Ipv6Net::new(addr.sample(&mut rng).into(), prefix.sample(&mut rng)).unwrap()
        })
        .take(100_000)
        .collect::<Vec<_>>()
    };

    let mut t1: RTrieSet<Ipv6Prefix> = RTrieSet::new();
    t1.extend(samples.iter().map(|i| Ipv6Prefix::from(*i)).collect());
    let mut t2: RTrieSet<Ipv6NetPrefix> = RTrieSet::new();
    t2.extend(samples.iter().map(|i| Ipv6NetPrefix::try_from(*i).unwrap()).collect());
    let mut t3: RTrieSet<Ipv6Net> = RTrieSet::new();
    t3.extend(samples);

    let addr = Uniform::<u128>::from(((u64::MAX as u128) << 64)..=u128::MAX);
    std::iter::repeat_with(|| Ipv6Addr::from(addr.sample(&mut rng)))
        .take(100_000)
        .for_each(|ip| {
            let p1 = t1.lookup(&ip);
            let p2 = t2.lookup(&ip);
            let p3 = t3.lookup(&ip);
            assert!(p1.covers_equally(p2));
            assert!(p2.covers_equally(p3));
        });
}

#[test]
fn lookup_scenario_ipv4_set() {
    let mut set = Ipv4RTrieSet::new();
    assert!(set.insert(p4("1.1.0.0/24")));
    assert!(set.insert(p4("1.1.1.0/24")));
    assert!(set.insert(p4("1.1.0.0/20")));
    assert!(set.insert(p4("1.2.2.0/24")));
    assert_eq!(set.len(), 5);

    assert_eq!(*set.lookup(&a4(1, 1, 1, 2)), p4("1.1.1.0/24"));
    assert_eq!(*set.lookup(&a4(1, 1, 2, 2)), p4("1.1.0.0/20"));
    assert_eq!(*set.lookup(&p4("1.1.0.0/25")), p4("1.1.0.0/24"));
    assert_eq!(*set.lookup(&p4("1.1.0.0/21")), p4("1.1.0.0/20"));
    assert_eq!(*set.lookup(&a4(9, 9, 9, 9)), p4("0.0.0.0/0"));

    let set = set.compress();
    assert_eq!(set.len(), 5);
    assert_eq!(*set.lookup(&a4(1, 1, 1, 2)), p4("1.1.1.0/24"));
    assert_eq!(*set.lookup(&a4(1, 1, 2, 2)), p4("1.1.0.0/20"));
    assert_eq!(*set.lookup(&p4("1.1.0.0/25")), p4("1.1.0.0/24"));
    assert_eq!(*set.lookup(&p4("1.1.0.0/21")), p4("1.1.0.0/20"));
    assert_eq!(*set.lookup(&a4(9, 9, 9, 9)), p4("0.0.0.0/0"));
    assert!(set.contains(&p4("1.1.0.0/20")));
    assert!(!set.contains(&p4("1.1.0.0/21")));
    assert_eq!(set.get(&p4("1.2.2.0/24")), Some(&p4("1.2.2.0/24")));
    assert_eq!(set.iter().len(), 5);
}

#[test]
fn insert_then_overwrite() {
    let mut map: Ipv4RTrieMap<u32> = RTrieMap::new();
    assert_eq!(map.insert(p4("10.0.0.0/8"), 1), None);
    assert_eq!(map.insert(p4("10.0.0.0/8"), 2), Some(1));
    assert_eq!(map.get(&p4("10.0.0.0/8")), Some(&2));
    assert_eq!(map.len(), 2);
}

#[test]
fn remove_an_escape() {
    let mut map: Ipv4RTrieMap<u32> = RTrieMap::new();
    map.insert(p4("10.0.0.0/8"), 8);
    map.insert(p4("10.1.0.0/16"), 16);
    map.insert(p4("10.1.1.0/24"), 24);
    assert_eq!(map.lookup(&a4(10, 1, 2, 3)), (&p4("10.1.0.0/16"), &16));
    assert!(map.remove(&p4("10.1.0.0/16")).is_some());
    assert_eq!(map.len(), 3);
    assert_eq!(map.lookup(&a4(10, 1, 2, 3)), (&p4("10.0.0.0/8"), &8));
    assert_eq!(map.lookup(&a4(10, 1, 1, 3)), (&p4("10.1.1.0/24"), &24));
    assert_eq!(map.get(&p4("10.1.0.0/16")), None);
    assert_eq!(map.remove(&p4("10.1.0.0/16")), None);
    assert_eq!(map.lookup(&p4("10.1.0.0/16")).0, &p4("10.0.0.0/8"));
}

#[test]
fn cross_length_query() {
    let mut set = Ipv6RTrieSet::new();
    let p = "2001:db8::/48".parse::<Ipv6Prefix>().unwrap();
    set.insert(p);
    let q = Ipv6Addr::new(0x2001, 0xdb8, 0, 1, 0, 0, 0, 1);
    assert_eq!(*set.lookup(&q), p);
    let set = set.compress();
    assert_eq!(*set.lookup(&q), p);
}

#[test]
fn aggressive_compression() {
    let mut rng = thread_rng();
    let len = Uniform::<u8>::from(8..=24);
    let addr = Uniform::<u32>::from(0..=u32::MAX);
    let mut set = Ipv4RTrieSet::with_capacity(100_000);
    let mut copy = Ipv4RTrieSet::with_capacity(100_000);
    (0..100_000).for_each(|_| {
        let p = Ipv4Prefix::new(Ipv4Addr::from(addr.sample(&mut rng)), len.sample(&mut rng)).unwrap();
        set.insert(p);
        copy.insert(p);
    });
    let lc = copy.compress();
    assert_eq!(lc.len(), set.len());
    (0..10_000).for_each(|_| {
        let q = Ipv4Addr::from(addr.sample(&mut rng));
        assert_eq!(set.lookup(&q), lc.lookup(&q));
    });
}

#[test]
fn host_bits_equality() {
    let mut map: RTrieMap<Ipv4Net, &str> = RTrieMap::with_root("");
    let first = "1.1.1.1/16".parse::<Ipv4Net>().unwrap();
    let second = "1.1.2.2/16".parse::<Ipv4Net>().unwrap();
    assert_eq!(map.insert(first, "a"), None);
    let mut set: RTrieSet<Ipv4Net> = RTrieSet::new();
    assert!(set.insert(first));
    assert_eq!(set.replace(second), Some(first));
    assert_eq!(set.get(&"1.1.0.0/16".parse::<Ipv4Net>().unwrap()), Some(&second));
    assert_eq!(map.insert(second, "b"), Some("a"));
    let (k, v) = map.lookup(&"1.1.0.0/16".parse::<Ipv4Net>().unwrap());
    assert_eq!((k, v), (&first, &"b"));
}

#[test]
fn replace_returns_the_former_leaf() {
    let mut map: RTrieMap<Ipv4Net, &str> = RTrieMap::with_root("");
    let first = "1.1.1.1/16".parse::<Ipv4Net>().unwrap();
    let second = "1.1.2.2/16".parse::<Ipv4Net>().unwrap();
    assert!(map.0.replace(first, "a").is_none());
    let former = map.0.replace(second, "b").unwrap();
    assert_eq!(former.prefix, first);
    assert_eq!(former.value, "a");
    let found = map.0.get(&"1.1.0.0/16".parse::<Ipv4Net>().unwrap()).unwrap();
    assert_eq!(found, (&second, &"b"));
    assert_eq!(map.len(), 2);
}

#[test]
fn get_is_exact() {
    let mut set = Ipv4RTrieSet::new();
    set.insert(p4("10.0.0.0/8"));
    set.insert(p4("10.0.0.0/16"));
    assert!(set.contains(&p4("10.0.0.0/8")));
    assert!(set.contains(&p4("10.0.0.0/16")));
    assert!(!set.contains(&p4("10.0.0.0/12")));
    assert!(set.contains(&p4("0.0.0.0/0")));
    assert_eq!(set.get(&p4("10.0.0.0/9")), None);
    let lc = set.compress();
    assert!(lc.contains(&p4("10.0.0.0/8")));
    assert!(lc.contains(&p4("10.0.0.0/16")));
    assert!(!lc.contains(&p4("10.0.0.0/12")));
}

#[test]
fn len_counts_distinct_prefixes() {
    let mut set = Ipv4RTrieSet::new();
    assert_eq!(set.len(), 1);
    assert!(set.insert(p4("10.0.0.0/8")));
    assert!(!set.insert(p4("10.0.0.0/8")));
    assert!(set.insert(p4("10.0.0.0/9")));
    assert!(set.insert(p4("192.168.0.0/16")));
    assert_eq!(set.len(), 4);
    assert!(set.remove(&p4("10.0.0.0/9")));
    assert!(!set.remove(&p4("10.0.0.0/9")));
    assert_eq!(set.len(), 3);
    let all: Vec<Ipv4Prefix> = set.iter().into_iter().copied().collect();
    assert_eq!(all.len(), 3);
    assert_eq!(all[0], p4("0.0.0.0/0"));
    assert!(all.contains(&p4("10.0.0.0/8")));
    assert!(all.contains(&p4("192.168.0.0/16")));
}

#[test]
fn insert_after_remove_keeps_lookups() {
    let mut set = Ipv4RTrieSet::new();
    set.insert(p4("0.0.1.0/24"));
    set.insert(p4("0.64.0.0/24"));
    set.insert(p4("0.0.0.0/3"));
    assert!(set.remove(&p4("0.64.0.0/24")));
    set.insert(p4("2.64.0.0/24"));
    set.insert(p4("0.64.0.0/24"));
    assert_eq!(*set.lookup(&a4(0, 0, 1, 5)), p4("0.0.1.0/24"));
    assert_eq!(*set.lookup(&a4(2, 64, 0, 5)), p4("2.64.0.0/24"));
    assert_eq!(*set.lookup(&a4(0, 64, 0, 5)), p4("0.64.0.0/24"));
    assert_eq!(*set.lookup(&a4(16, 0, 0, 0)), p4("0.0.0.0/3"));
    assert_eq!(*set.lookup(&a4(128, 0, 0, 0)), p4("0.0.0.0/0"));
}

#[test]
fn random_inserts_and_removes_match_a_scan() {
    let mut rng = thread_rng();
    let len = Uniform::<u8>::from(1..=12);
    let addr = Uniform::<u32>::from(0..=u32::MAX);
    let mut set = Ipv4RTrieSet::new();
    let mut held: Vec<Ipv4Prefix> = vec![p4("0.0.0.0/0")];
    (0..400).for_each(|round| {
        let p = Ipv4Prefix::new(Ipv4Addr::from(addr.sample(&mut rng)), len.sample(&mut rng)).unwrap();
        if round % 3 == 2 {
            let was = held.contains(&p);
            assert_eq!(set.remove(&p), was);
            held.retain(|h| *h != p);
        } else {
            let was = held.contains(&p);
            assert_eq!(set.insert(p), !was);
            if !was {
                held.push(p);
            }
        }
        assert_eq!(set.len(), held.len());
        (0..20).for_each(|_| {
            let q = Ipv4Addr::from(addr.sample(&mut rng));
            let best = held.iter().filter(|h| h.covers(&q)).max_by_key(|h| h.len()).unwrap();
            assert_eq!(set.lookup(&q), best);
        });
    });
    let lc = set.compress();
    (0..2000).for_each(|_| {
        let q = Ipv4Addr::from(addr.sample(&mut rng));
        let best = held.iter().filter(|h| h.covers(&q)).max_by_key(|h| h.len()).unwrap();
        assert_eq!(lc.lookup(&q), best);
    });
}

#[test]
fn values_can_be_changed_in_place() {
    let mut map: Ipv4RTrieMap<u32> = RTrieMap::new();
    map.insert(p4("10.0.0.0/8"), 1);
    *map.get_mut(&p4("10.0.0.0/8")).unwrap() = 5;
    assert_eq!(map.get(&p4("10.0.0.0/8")), Some(&5));
    *map.lookup_mut(&a4(10, 2, 3, 4)).1 += 1;
    assert_eq!(map.get(&p4("10.0.0.0/8")), Some(&6));
    assert!(map.get_mut(&p4("10.0.0.0/9")).is_none());
    let set = map.prefixes();
    assert!(set.contains(&p4("10.0.0.0/8")));
    assert_eq!(set.len(), 2);
    map.shrink_to_fit();
    let mut lc = map.compress();
    *lc.get_mut(&p4("10.0.0.0/8")).unwrap() = 9;
    assert_eq!(lc.lookup(&a4(10, 2, 3, 4)), (&p4("10.0.0.0/8"), &9));
    *lc.lookup_mut(&a4(10, 2, 3, 4)).1 = 10;
    assert_eq!(lc.get(&p4("10.0.0.0/8")), Some(&10));
    assert_eq!(lc.iter().len(), 2);
    assert_eq!(lc.prefixes().len(), 2);
}

#[test]
fn both_families() {
    let mut set = IpRTrieSet::new();
    let v4 = IpNet::V4("10.1.2.3/16".parse().unwrap());
    let v6 = IpNet::V6("2001:db8::1/32".parse().unwrap());
    assert!(set.insert(v4));
    assert!(set.insert(v6));
    assert!(!set.insert(v4));
    assert_eq!(set.len(), 4);
    assert!(set.contains(&v4));
    assert_eq!(set.get(&v6), Some(IpNet::V6("2001:db8::/32".parse().unwrap())));
    assert_eq!(
        set.lookup(&IpNet::V4("10.1.9.9/32".parse().unwrap())),
        IpNet::V4("10.1.0.0/16".parse().unwrap())
    );
    assert_eq!(set.replace(v4), Some(IpNet::V4("10.1.0.0/16".parse().unwrap())));
    assert_eq!(set.iter().len(), 4);
    assert!(set.remove(&v4));
    assert!(!set.contains(&v4));
    set.shrink_to_fit();
    let lc = set.compress();
    assert_eq!(lc.len(), 3);
    assert!(lc.contains(&v6));
    assert_eq!(lc.get(&v4), None);
    assert_eq!(
        lc.lookup(&IpNet::V6("2001:db8:1::/48".parse().unwrap())),
        IpNet::V6("2001:db8::/32".parse().unwrap())
    );
    assert_eq!(lc.iter().len(), 3);

    let mut map: IpRTrieMap<u8> = IpRTrieMap::with_roots(4, 6);
    assert_eq!(map.insert(v4, 1), None);
    assert_eq!(map.insert(v4, 2), Some(1));
    assert_eq!(map.get(&v4), Some(&2));
    assert_eq!(map.lookup(&v6), (IpNet::V6("::/0".parse().unwrap()), &6));
    assert_eq!(map.len(), 3);
    assert_eq!(map.prefixes().len(), 3);
    assert_eq!(map.iter().len(), 3);
    let lc = map.compress();
    assert_eq!(lc.get(&v4), Some(&2));
    assert_eq!(lc.lookup(&v6).1, &6);
    assert_eq!(lc.len(), 3);
    assert_eq!(lc.prefixes().len(), 3);
    let mut again: IpRTrieMap<u8> = IpRTrieMap::new();
    assert_eq!(again.remove(&v4), None);
    assert_eq!(again.len(), 2);
}

#[test]
fn removal_prunes_branchings() {
    let mut map: Ipv4RTrieMap<u32> = RTrieMap::new();
    map.insert(p4("10.0.0.0/8"), 8);
    map.insert(p4("10.1.0.0/16"), 16);
    map.insert(p4("10.1.1.0/24"), 24);
    assert_eq!(map.0.branching.count(), 3);
    assert_eq!(map.remove(&p4("10.1.0.0/16")), Some(16));
    assert_eq!(map.0.branching.count(), 2);
    assert_eq!(map.lookup(&a4(10, 1, 1, 3)), (&p4("10.1.1.0/24"), &24));
    assert_eq!(map.remove(&p4("10.0.0.0/8")), Some(8));
    assert_eq!(map.0.branching.count(), 1);
    assert_eq!(map.lookup(&a4(10, 1, 1, 3)), (&p4("10.1.1.0/24"), &24));
    assert_eq!(map.lookup(&a4(10, 1, 2, 3)), (&p4("0.0.0.0/0"), &0));
    assert_eq!(map.remove(&p4("10.1.1.0/24")), Some(24));
    assert_eq!(map.0.branching.count(), 1);
    assert_eq!(map.len(), 1);
    assert_eq!(map.lookup(&a4(10, 1, 1, 3)), (&p4("0.0.0.0/0"), &0));
}

#[test]
fn removal_moves_the_last_leaf() {
    let mut map: Ipv4RTrieMap<u32> = RTrieMap::new();
    map.insert(p4("10.0.0.0/8"), 1);
    map.insert(p4("10.1.0.0/16"), 2);
    map.insert(p4("192.168.0.0/16"), 3);
    map.insert(p4("192.168.1.0/24"), 4);
    assert_eq!(map.remove(&p4("10.0.0.0/8")), Some(1));
    let held: Vec<Ipv4Prefix> = map.iter().iter().map(|l| *l.0).collect();
    assert_eq!(
        held,
        vec![p4("0.0.0.0/0"), p4("192.168.1.0/24"), p4("10.1.0.0/16"), p4("192.168.0.0/16")]
    );
    assert_eq!(map.get(&p4("192.168.1.0/24")), Some(&4));
    assert_eq!(map.lookup(&a4(192, 168, 1, 9)), (&p4("192.168.1.0/24"), &4));
    assert_eq!(map.lookup(&a4(192, 168, 2, 9)), (&p4("192.168.0.0/16"), &3));
    assert_eq!(map.lookup(&a4(10, 1, 2, 3)), (&p4("10.1.0.0/16"), &2));
    assert_eq!(map.lookup(&a4(10, 2, 2, 3)), (&p4("0.0.0.0/0"), &0));
}

#[test]
fn churn_keeps_branchings_few() {
    let mut rng = thread_rng();
    let len = Uniform::<u8>::from(1..=12);
    let addr = Uniform::<u32>::from(0..=u32::MAX);
    let mut map: Ipv4RTrieMap<u32> = RTrieMap::new();
    let mut held: Vec<Ipv4Prefix> = Vec::new();
    for round in 0..4000u32 {
        let p = Ipv4Prefix::new(Ipv4Addr::from(addr.sample(&mut rng)), len.sample(&mut rng)).unwrap();
        if round % 3 == 2 {
            let was = held.iter().position(|h| *h == p);
            assert_eq!(map.remove(&p).is_some(), was.is_some());
            if let Some(i) = was {
                held.swap_remove(i);
            }
        } else if map.insert(p, round).is_none() {
            held.push(p);
        }
        assert_eq!(map.len(), held.len() + 1);
        assert!(map.0.branching.count() <= map.len());
    }
    for p in held.clone() {
        assert!(map.remove(&p).is_some());
        for q in held.iter() {
            assert_eq!(map.get(q).is_some(), map.iter().iter().any(|l| *l.0 == *q));
        }
        held.retain(|h| *h != p);
        for q in held.iter() {
            assert!(map.get(q).is_some());
        }
    }
    assert_eq!(map.len(), 1);
    assert_eq!(map.0.branching.count(), 1);
}

#[test]
fn extend_stores_in_turn() {
    let mut map: Ipv4RTrieMap<u32> = RTrieMap::new();
    map.extend(vec![(p4("10.0.0.0/8"), 1), (p4("10.1.0.0/16"), 2), (p4("10.9.9.9/8"), 3)]);
    assert_eq!(map.len(), 3);
    assert_eq!(map.get(&p4("10.0.0.0/8")), Some(&3));
    assert_eq!(map.get(&p4("10.1.0.0/16")), Some(&2));
    let held: Vec<(Ipv4Prefix, u32)> = map.iter().iter().map(|l| (*l.0, *l.1)).collect();
    assert_eq!(
        held,
        vec![(p4("0.0.0.0/0"), 0), (p4("10.0.0.0/8"), 3), (p4("10.1.0.0/16"), 2)]
    );
    let mut set = Ipv4RTrieSet::new();
    set.extend(vec![p4("10.1.0.0/16"), p4("10.0.0.0/8"), p4("10.1.2.3/16")]);
    let held: Vec<Ipv4Prefix> = set.iter().iter().map(|p| **p).collect();
    assert_eq!(held, vec![p4("0.0.0.0/0"), p4("10.1.0.0/16"), p4("10.0.0.0/8")]);
    set.extend(Vec::new());
    assert_eq!(set.len(), 3);
}

#[test]
fn values_change_through_iter_mut() {
    let mut map: Ipv4RTrieMap<u32> = RTrieMap::with_root(100);
    map.insert(p4("10.0.0.0/8"), 1);
    map.insert(p4("10.1.0.0/16"), 2);
    map.iter_mut(&|k: &Ipv4Prefix, v: &u32| *v * 10 + k.len() as u32);
    assert_eq!(map.get(&p4("0.0.0.0/0")), Some(&1000));
    assert_eq!(map.get(&p4("10.0.0.0/8")), Some(&18));
    assert_eq!(map.get(&p4("10.1.0.0/16")), Some(&36));
    assert_eq!(map.lookup(&a4(10, 1, 2, 3)), (&p4("10.1.0.0/16"), &36));
    let mut lc = map.compress();
    lc.iter_mut(&|_k: &Ipv4Prefix, v: &u32| *v + 1);
    assert_eq!(lc.get(&p4("10.0.0.0/8")), Some(&19));
    assert_eq!(lc.lookup(&a4(10, 1, 2, 3)), (&p4("10.1.0.0/16"), &37));
    assert_eq!(lc.lookup(&a4(11, 1, 2, 3)), (&p4("0.0.0.0/0"), &1001));
    assert_eq!(lc.len(), 3);
}

#[test]
fn both_families_in_place() {
    let v4 = IpNet::V4("10.1.2.3/16".parse().unwrap());
    let v6 = IpNet::V6("2001:db8::1/32".parse().unwrap());
    let mut map: IpRTrieMap<u32> = IpRTrieMap::with_roots(4, 6);
    map.insert(v4, 1);
    map.insert(v6, 2);
    *map.get_mut(&v4).unwrap() += 10;
    assert_eq!(map.get(&v4), Some(&11));
    assert!(map.get_mut(&IpNet::V4("10.1.2.3/17".parse().unwrap())).is_none());
    {
        let (net, v) = map.lookup_mut(&IpNet::V6("2001:db8:7::/48".parse().unwrap()));
        assert_eq!(net, IpNet::V6("2001:db8::/32".parse().unwrap()));
        *v += 20;
    }
    assert_eq!(map.get(&v6), Some(&22));
    map.iter_mut(&|net: &IpNet, v: &u32| match net {
        IpNet::V4(n) => *v + 400 + n.len() as u32,
        IpNet::V6(n) => *v + 600 + n.len() as u32,
    });
    let all: Vec<(IpNet, u32)> = map.iter().iter().map(|e| (e.0, *e.1)).collect();
    assert_eq!(
        all,
        vec![
            (IpNet::V4("0.0.0.0/0".parse().unwrap()), 404),
            (IpNet::V4("10.1.0.0/16".parse().unwrap()), 427),
            (IpNet::V6("::/0".parse().unwrap()), 606),
            (IpNet::V6("2001:db8::/32".parse().unwrap()), 654),
        ]
    );
    let names: Vec<IpNet> = map.prefixes().iter();
    assert_eq!(names, all.iter().map(|e| e.0).collect::<Vec<_>>());
    let mut lc = map.compress();
    *lc.get_mut(&v4).unwrap() = 7;
    *lc.lookup_mut(&IpNet::V4("10.1.200.1/32".parse().unwrap())).1 += 1;
    assert_eq!(lc.get(&v4), Some(&8));
    lc.iter_mut(&|_net: &IpNet, v: &u32| *v * 2);
    assert_eq!(lc.get(&v4), Some(&16));
    assert_eq!(lc.get(&v6), Some(&1308));
    let all: Vec<u32> = lc.iter().iter().map(|e| *e.1).collect();
    assert_eq!(all, vec![808, 16, 1212, 1308]);
}
