use iptrie::map::RTrieMap;
use iptrie::prefix::cover::IpPrefixCovering;
use iptrie::prefix::ipstd::{Ipv4Addr, Ipv4Prefix};
use iptrie::prefix::IpPrefix;
use iptrie::trie::common::{BranchingIndex, LeafIndex, NodeIndex};
use iptrie::trie::lctrie::Compressed;
use iptrie::trie::patricia::threshold_of;
use iptrie::Ipv4RTrieMap;

fn quarters() -> Ipv4RTrieMap<u32> {
    let mut map: Ipv4RTrieMap<u32> = RTrieMap::new();
    for (i, text) in ["0.0.0.0/2", "64.0.0.0/2", "128.0.0.0/2", "192.0.0.0/2"].iter().enumerate() {
        assert_eq!(map.insert(text.parse().unwrap(), i as u32), None);
    }
    map
}

#[test]
fn threshold_values() {
    assert_eq!(threshold_of(1, 0), 1);
    assert_eq!(threshold_of(4, 1), 4);
    assert_eq!(threshold_of(3, 5), 0);
    assert_eq!(threshold_of(15, 0), 16384);
    assert_eq!(threshold_of(15, 15), 0);
}

#[test]
fn node_indices() {
    assert!(NodeIndex(-1).is_leaf());
    assert!(!NodeIndex(-1).is_branching());
    assert!(NodeIndex(0).is_branching());
    assert_eq!(NodeIndex(-4).as_leaf(), LeafIndex(-4));
    assert_eq!(LeafIndex(-4).index(), 3);
    assert_eq!(LeafIndex::from_index(3), LeafIndex(-4));
    assert_eq!(LeafIndex::root_leaf(), LeafIndex(-1));
    assert!(LeafIndex::root_leaf().is_root_leaf());
    assert_eq!(BranchingIndex::root(), BranchingIndex(0));
    assert_eq!(BranchingIndex::from_index(7), BranchingIndex(7));
    assert_eq!(BranchingIndex(7).index(), 7);
    assert_eq!(NodeIndex::of_leaf(LeafIndex(-2)), NodeIndex(-2));
    assert_eq!(NodeIndex::of_branching(BranchingIndex(5)), NodeIndex(5));
}

#[test]
fn branchings_of_four_quarters() {
    let map = quarters();
    let tree = &map.0.branching;
    assert_eq!(tree.count(), 3);
    let root = tree.at(BranchingIndex(0));
    assert_eq!(root.bit, 1);
    assert_eq!(root.escape, LeafIndex(-1));
    assert_eq!(root.child, [NodeIndex(1), NodeIndex(2)]);
    let low = tree.at(BranchingIndex(1));
    assert_eq!(low.bit, 2);
    assert_eq!(low.parent, BranchingIndex(0));
    assert_eq!(low.escape, LeafIndex(-1));
    assert_eq!(low.child, [NodeIndex(-2), NodeIndex(-3)]);
    let high = tree.at(BranchingIndex(2));
    assert_eq!(high.child, [NodeIndex(-4), NodeIndex(-5)]);
    assert_eq!(
        tree.search_deepest_candidate(&0xC000_0001u32),
        (BranchingIndex(2), LeafIndex(-5))
    );
    assert_eq!(tree.search_one_matching_leaf(BranchingIndex(1)), LeafIndex(-2));
}

#[test]
fn counts_and_levels_of_four_quarters() {
    let map = quarters();
    let tree = &map.0.branching;
    assert_eq!(tree.count_compressed_branching(BranchingIndex(0), 1), 1);
    assert_eq!(tree.count_compressed_branching(BranchingIndex(0), 2), 3);
    assert_eq!(tree.count_compressed_branching(BranchingIndex(0), 32), 3);
    assert_eq!(tree.count_compressed_branching(BranchingIndex(1), 2), 1);
    assert_eq!(tree.compression_level_max(BranchingIndex(0), 15, LeafIndex(-1)), 2);
    assert_eq!(tree.compression_level_max(BranchingIndex(0), 1, LeafIndex(-1)), 1);
    assert_eq!(tree.compression_level_max(BranchingIndex(0), 15, LeafIndex(-2)), 0);
    assert_eq!(tree.compression_level(BranchingIndex(0), 0), 1);
    assert_eq!(tree.compression_level(BranchingIndex(1), 0), 0);
}

#[test]
fn compressed_four_quarters() {
    let lc = quarters().compress();
    let zone = &lc.0.branching.memzone;
    // one record: two bits from the first on, the root leaf as escape, itself as parent
    assert_eq!(
        zone,
        &vec![
            NodeIndex(2 * 256),
            NodeIndex(-1),
            NodeIndex(0),
            NodeIndex(-2),
            NodeIndex(-3),
            NodeIndex(-4),
            NodeIndex(-5)
        ]
    );
    assert_eq!(lc.lookup(&Ipv4Addr::new(200, 1, 1, 1)).1, &3);
    assert_eq!(lc.lookup(&Ipv4Addr::new(100, 1, 1, 1)).1, &1);
}

#[test]
fn letters_of_a_slot() {
    let at = |shift: u8, size: u8| Compressed::new(shift, size, LeafIndex(-1), BranchingIndex(0));
    assert_eq!(at(0, 8).letter(&0xC0A8_0000u32), 0xC0);
    assert_eq!(at(8, 4).letter(&0xC0A8_0000u32), 0xA);
    assert_eq!(at(12, 1).letter(&0xC0A8_0000u32), 1);
    assert_eq!(at(13, 3).letter(&0xC0A8_0000u32), 0);
    assert_eq!(at(28, 8).letter(&0x0000_000Fu32), 0xF0);
    assert_eq!(at(60, 8).letter(&0x0000_0000_0000_000Fu64), 0xF0);
    assert_eq!(at(120, 15).letter(&0xABu128), 0xAB << 7);
    assert_eq!(at(3, 15).children(), 1 << 15);
    assert_eq!(at(3, 1).children(), 2);
    assert_eq!(at(3, 5).mask, 0b11111);
    assert_eq!(Compressed::offset(8), 11);
}

#[test]
fn compressing_twice_gives_the_same_arena() {
    let build = || {
        let mut map: Ipv4RTrieMap<u32> = RTrieMap::new();
        let mut x: u32 = 0x2545_F491;
        for i in 0..5000u32 {
            x ^= x << 13;
            x ^= x >> 17;
            x ^= x << 5;
            let p = Ipv4Prefix::new(Ipv4Addr::from(x), (8 + x % 17) as u8).unwrap();
            map.insert(p, i);
        }
        map
    };
    let a = build().compress();
    let b = build().compress();
    assert_eq!(a.0.branching.memzone, b.0.branching.memzone);
    assert_eq!(a.len(), b.len());
    let mut x: u32 = 77;
    for _ in 0..2000 {
        x = x.wrapping_mul(1_664_525).wrapping_add(1_013_904_223);
        let q = Ipv4Addr::from(x);
        assert_eq!(a.lookup(&q), b.lookup(&q));
    }
}

#[test]
fn iteration_yields_each_prefix_once() {
    let mut map: Ipv4RTrieMap<u32> = RTrieMap::new();
    let texts = ["10.0.0.0/8", "10.1.0.0/16", "10.1.1.0/24", "172.16.0.0/12", "10.1.0.0/16"];
    for (i, text) in texts.iter().enumerate() {
        map.insert(text.parse().unwrap(), i as u32);
    }
    assert!(map.remove(&"10.1.1.0/24".parse::<Ipv4Prefix>().unwrap()).is_some());
    let mut seen: Vec<String> = map.iter().iter().map(|l| l.0.to_string()).collect();
    seen.sort();
    assert_eq!(seen, vec!["0.0.0.0/0", "10.0.0.0/8", "10.1.0.0/16", "172.16.0.0/12"]);
    let lc = map.compress();
    let mut seen: Vec<String> = lc.iter().iter().map(|l| l.0.to_string()).collect();
    seen.sort();
    assert_eq!(seen, vec!["0.0.0.0/0", "10.0.0.0/8", "10.1.0.0/16", "172.16.0.0/12"]);
}

#[test]
fn lookup_is_not_shorter_than_a_cover() {
    let mut map: Ipv4RTrieMap<u32> = RTrieMap::new();
    let mut held: Vec<Ipv4Prefix> = Vec::new();
    let mut x: u32 = 0x9E37_79B9;
    for i in 0..3000u32 {
        x ^= x << 13;
        x ^= x >> 17;
        x ^= x << 5;
        let p = Ipv4Prefix::new(Ipv4Addr::from(x & 0xFFF0_0000), (1 + x % 12) as u8).unwrap();
        if map.insert(p, i).is_none() {
            held.push(p);
        }
    }
    let lc_source = held.clone();
    for p in held.iter() {
        let q = Ipv4Addr::from(p.bitslot() | 0x0000_0AFF);
        assert!(p.covers(&q));
        assert!(map.lookup(&q).0.len() >= p.len());
        assert!(map.lookup(&q).0.covers(&q));
    }
    let lc = map.compress();
    for p in lc_source.iter() {
        let q = Ipv4Addr::from(p.bitslot() | 0x0000_0AFF);
        assert!(lc.lookup(&q).0.len() >= p.len());
        assert_eq!(lc.get(p).is_some(), true);
    }
}

#[test]
fn records_of_a_compressed_arena() {
    let lc = quarters().compress();
    let records = lc.0.branching.iter();
    assert_eq!(records.len(), 1);
    let (at, head) = records[0];
    assert_eq!(at, BranchingIndex(0));
    assert_eq!((head.shift, head.size, head.mask), (0, 2, 0b11));
    assert_eq!(head.escape, LeafIndex(-1));
    assert_eq!(head.parent, BranchingIndex(0));
    assert_eq!(lc.0.branching.child(at, 3), NodeIndex(-5));
    assert_eq!(lc.0.branching.header(at).children(), 4);

    let mut map: Ipv4RTrieMap<u32> = RTrieMap::new();
    let mut x: u32 = 0x1234_5678;
    for i in 0..3000u32 {
        x ^= x << 13;
        x ^= x >> 17;
        x ^= x << 5;
        map.insert(Ipv4Prefix::new(Ipv4Addr::from(x), (4 + x % 25) as u8).unwrap(), i);
    }
    let lc = map.compress();
    let records = lc.0.branching.iter();
    let mut next = 0usize;
    for (at, head) in records.iter() {
        assert_eq!(at.index(), next);
        next += 3 + head.children() as usize;
        assert!(head.size >= 1 && head.size <= 15);
        assert!(lc.0.branching.memzone[at.index() + 2].0 >= 0);
    }
    assert_eq!(next, lc.0.branching.memzone.len());
}

#[test]
fn ways_up_pass_each_escape_once() {
    let mut map: Ipv4RTrieMap<u32> = RTrieMap::new();
    map.insert("10.0.0.0/8".parse().unwrap(), 8);
    let mut x: u32 = 0x0BAD_5EED;
    for i in 0..4000u32 {
        x ^= x << 13;
        x ^= x >> 17;
        x ^= x << 5;
        let addr = if i % 2 == 0 { 0x0A00_0000 | (x & 0x00FF_FFFF) } else { x };
        map.insert(Ipv4Prefix::new(Ipv4Addr::from(addr), (12 + x % 17) as u8).unwrap(), i);
    }
    let lc = map.compress();
    let arena = &lc.0.branching;
    let mut same = 0;
    let mut other = 0;
    for (at, head) in arena.iter().iter() {
        for letter in 0..head.children() {
            let child = arena.child(*at, letter);
            if child.is_branching() {
                let below = arena.header(child.as_branching());
                if below.escape == head.escape {
                    same += 1;
                    assert_eq!(below.parent, head.parent);
                } else {
                    other += 1;
                    assert_eq!(below.parent, *at);
                }
            }
        }
    }
    assert!(same > 0);
    assert!(other > 0);
    assert_eq!(arena.header(BranchingIndex::root()).parent, BranchingIndex::root());
}

#[test]
fn a_run_of_one_escape_has_one_parent() {
    let mut map: Ipv4RTrieMap<u32> = RTrieMap::new();
    for (i, text) in ["0.0.0.0/1", "128.0.0.0/1", "128.0.0.0/2", "192.0.0.0/2", "192.0.0.0/3"]
        .iter()
        .enumerate()
    {
        map.insert(text.parse().unwrap(), i as u32);
    }
    let lc = map.compress();
    let arena = &lc.0.branching;
    for (at, head) in arena.iter().iter() {
        if at.0 != 0 && head.escape == LeafIndex::root_leaf() {
            assert_eq!(head.parent, BranchingIndex::root());
        }
    }
    assert_eq!(lc.lookup(&Ipv4Addr::new(200, 0, 0, 1)).1, &4);
    assert_eq!(lc.lookup(&Ipv4Addr::new(230, 0, 0, 1)).1, &3);
    assert_eq!(lc.lookup(&Ipv4Addr::new(130, 0, 0, 1)).1, &2);
    assert_eq!(lc.lookup(&Ipv4Addr::new(1, 0, 0, 1)).1, &0);
}
