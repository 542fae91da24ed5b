//! Behaviour promised by the README and documentation, edge cases, errors,
//! and concrete instances of the library's laws.

use cidr_utils::report::{info_lines, ipv4_class, target_from_line};
use cidr_utils::{
    aggregate, aggregate_max_prefix, IpAddr, IpCidr, IpRange, IpSet, IpSetIter, Ipv4Addr,
    Ipv4AddrIter, Ipv4Cidr, Ipv4Range, Ipv4Subnets, Ipv6Addr, Ipv6Cidr, Ipv6Range, ParseError,
};

fn all4(mut it: Ipv4AddrIter) -> Vec<Ipv4Addr> {
    let mut v = Vec::new();
    while let Some(a) = it.next() {
        v.push(a);
    }
    v
}

fn all_set(mut it: IpSetIter) -> Vec<IpAddr> {
    let mut v = Vec::new();
    while let Some(a) = it.next() {
        v.push(a);
    }
    v
}

fn subnets4(mut it: Ipv4Subnets) -> Vec<Ipv4Cidr> {
    let mut v = Vec::new();
    while let Some(c) = it.next() {
        v.push(c);
    }
    v
}

fn texts4(v: &[Ipv4Cidr]) -> Vec<String> {
    v.iter().map(|c| c.to_string()).collect()
}

// --- README -----------------------------------------------------------------

#[test]
fn readme_ipset_entry_point() {
    let net: IpSet = "192.168.1.0/30".parse().unwrap();
    assert_eq!(net.count(), 4);
    let hosts: Vec<String> = all_set(net.hosts()).iter().map(|a| a.to_string()).collect();
    assert_eq!(hosts, ["192.168.1.1", "192.168.1.2"]);
    let range: IpSet = "10.0.0.1-5".parse().unwrap();
    assert_eq!(range.count(), 5);
}

#[test]
fn readme_concrete_types() {
    let block: Ipv4Cidr = "192.168.0.0/24".parse().unwrap();
    assert_eq!(block.network(), Ipv4Addr::new(192, 168, 0, 0));
    assert_eq!(block.broadcast(), Ipv4Addr::new(192, 168, 0, 255));
    assert_eq!(block.netmask(), Ipv4Addr::new(255, 255, 255, 0));
    assert_eq!(block.host_count(), 254);
    assert!(block.contains(Ipv4Addr::new(192, 168, 0, 50)));
}

#[test]
fn readme_more_capabilities() {
    let block: Ipv4Cidr = "192.168.1.0/24".parse().unwrap();
    assert_eq!(subnets4(block.subnets(26)).len(), 4);
    assert_eq!(block.supernet().unwrap(), "192.168.1.0/23".parse().unwrap());

    let r: Ipv4Range = "192.168.1.0-192.168.1.130".parse().unwrap();
    assert_eq!(
        texts4(&r.to_cidrs()),
        ["192.168.1.0/25", "192.168.1.128/31", "192.168.1.130/32"]
    );

    let blocks: Vec<Ipv4Cidr> = ["10.0.0.0/25", "10.0.0.128/25", "10.0.1.0/24"]
        .iter()
        .map(|s| s.parse().unwrap())
        .collect();
    assert_eq!(texts4(&Ipv4Cidr::aggregate(&blocks)), ["10.0.0.0/23"]);

    assert!("10.0.0.0/8".parse::<Ipv4Cidr>().unwrap().is_private());
    assert_eq!(block.wildcard().to_string(), "0.0.0.255");
}

#[test]
fn readme_subtract_split_index() {
    let block: Ipv4Cidr = "10.0.0.0/24".parse().unwrap();
    let hole: Ipv4Cidr = "10.0.0.64/26".parse().unwrap();
    assert_eq!(texts4(&block.exclude(&hole)), ["10.0.0.0/26", "10.0.0.128/25"]);
    let (lo, hi) = block.split().unwrap();
    assert_eq!(
        (lo.to_string(), hi.to_string()),
        ("10.0.0.0/25".to_string(), "10.0.0.128/25".to_string())
    );
    assert_eq!(block.subnet_count(28), 16);
    assert_eq!(block.nth_address(10).unwrap().to_string(), "10.0.0.10");
}

#[test]
fn readme_walk_from_top() {
    let c: Ipv4Cidr = "10.0.0.0/30".parse().unwrap();
    let top = c.addresses().next_back().unwrap();
    assert_eq!(top.to_string(), "10.0.0.3");
}

#[test]
fn readme_set_algebra_and_supernet() {
    let c: Ipv4Cidr = "10.20.30.0/24".parse().unwrap();
    assert_eq!(c.supernet_at(16).unwrap().to_string(), "10.20.0.0/16");

    let a: IpSet = "10.0.0.0/24".parse().unwrap();
    let b: IpSet = "10.0.0.128/26".parse().unwrap();
    assert_eq!(a.intersection(&b).unwrap().count(), 64);

    let inputs: Vec<IpCidr> = ["10.0.0.0/24", "10.0.1.0/24", "10.0.2.0/24", "10.0.3.0/24"]
        .iter()
        .map(|s| s.parse().unwrap())
        .collect();
    let capped = aggregate_max_prefix(&inputs, 23, 0);
    assert_eq!(capped.len(), 2);
    assert_eq!(capped[0].to_string(), "10.0.0.0/23");
    assert_eq!(capped[1].to_string(), "10.0.2.0/23");
}

#[test]
fn readme_vlsm_allocator() {
    let parent: Ipv4Cidr = "192.168.1.0/24".parse().unwrap();
    let allocs = parent.vlsm_allocate(&[60, 30, 12, 4]).unwrap();
    assert_eq!(allocs[0].prefix_len(), 26);
    assert_eq!(allocs[3].prefix_len(), 29);
}

#[test]
fn readme_canonical_blocks_compare_equal() {
    let a: Ipv4Cidr = "192.168.1.77/24".parse().unwrap();
    let b: Ipv4Cidr = "192.168.1.0/24".parse().unwrap();
    assert_eq!(a, b);
}

// --- VLSM -------------------------------------------------------------------

#[test]
fn vlsm_places_largest_first_in_request_order() {
    let parent: Ipv4Cidr = "192.168.1.0/24".parse().unwrap();
    let allocs = parent.vlsm_allocate(&[4, 60, 12, 30]).unwrap();
    assert_eq!(
        texts4(&allocs),
        [
            "192.168.1.112/29",
            "192.168.1.0/26",
            "192.168.1.96/28",
            "192.168.1.64/27"
        ]
    );
}

#[test]
fn vlsm_classic_layout() {
    let parent: Ipv4Cidr = "192.168.1.0/24".parse().unwrap();
    let allocs = parent.vlsm_allocate(&[60, 30, 12, 4]).unwrap();
    assert_eq!(
        texts4(&allocs),
        ["192.168.1.0/26", "192.168.1.64/27", "192.168.1.96/28", "192.168.1.112/29"]
    );
}

#[test]
fn vlsm_rejects_overcommit() {
    let parent: Ipv4Cidr = "10.0.0.0/29".parse().unwrap();
    assert!(parent.vlsm_allocate(&[6, 6]).is_none());
    assert!(parent.vlsm_allocate(&[6]).is_some());
    assert!(parent.vlsm_allocate(&[7]).is_none());
}

#[test]
fn vlsm_small_counts_use_host_conventions() {
    let parent: Ipv4Cidr = "10.0.0.0/24".parse().unwrap();
    let allocs = parent.vlsm_allocate(&[0, 1, 2, 3]).unwrap();
    let prefixes: Vec<u8> = allocs.iter().map(|c| c.prefix_len()).collect();
    assert_eq!(prefixes, vec![32, 32, 31, 29]);
    assert!(parent.vlsm_allocate(&[]).unwrap().is_empty());
    assert!(parent.vlsm_allocate(&[u32::MAX]).is_none());
}

#[test]
fn vlsm_allocations_are_disjoint_and_inside() {
    let parent: Ipv4Cidr = "172.16.0.0/20".parse().unwrap();
    let allocs = parent.vlsm_allocate(&[500, 100, 100, 20, 2, 1000]).unwrap();
    for (i, a) in allocs.iter().enumerate() {
        assert!(parent.contains_subnet(a));
        for b in allocs.iter().skip(i + 1) {
            assert!(!a.overlaps(b));
        }
    }
}

// --- Capped aggregation ---------------------------------------------------------

#[test]
fn aggregate_max_prefix_splits_short_blocks() {
    let inputs: Vec<IpCidr> = ["10.0.0.0/16", "2001:db8::/32", "10.1.0.0/24"]
        .iter()
        .map(|s| s.parse().unwrap())
        .collect();
    let capped = aggregate_max_prefix(&inputs, 17, 33);
    let got: Vec<String> = capped.iter().map(|c| c.to_string()).collect();
    assert_eq!(
        got,
        [
            "10.0.0.0/17",
            "10.0.128.0/17",
            "10.1.0.0/24",
            "2001:db8::/33",
            "2001:db8:8000::/33"
        ]
    );
}

#[test]
fn aggregate_max_prefix_without_cap_matches_aggregate() {
    let inputs: Vec<IpCidr> = ["10.0.0.0/25", "10.0.0.128/25", "2001:db8::/33", "2001:db8:8000::/33"]
        .iter()
        .map(|s| s.parse().unwrap())
        .collect();
    assert_eq!(aggregate_max_prefix(&inputs, 0, 0), aggregate(&inputs));
    // A limit beyond the family width is the width.
    let hosts = aggregate_max_prefix(&inputs[..1], 99, 0);
    assert_eq!(hosts.len(), 128);
}

// --- Parsing ----------------------------------------------------------------

#[test]
fn parse_error_texts_name_the_failing_part() {
    assert_eq!(
        "10.0.0.0".parse::<Ipv4Cidr>().unwrap_err(),
        ParseError::BadPrefix("10.0.0.0".to_string())
    );
    assert_eq!(
        " 999.1.1.1 /8".parse::<Ipv4Cidr>().unwrap_err(),
        ParseError::BadAddr("999.1.1.1 ".to_string())
    );
    assert_eq!(
        "10.0.0.0/ x".parse::<Ipv4Cidr>().unwrap_err(),
        ParseError::BadPrefix("x".to_string())
    );
    assert_eq!(
        "10.0.0.0/033".parse::<Ipv4Cidr>().unwrap_err(),
        ParseError::BadPrefix("33".to_string())
    );
    assert_eq!(
        "10.0.0.1".parse::<Ipv4Range>().unwrap_err(),
        ParseError::Malformed("10.0.0.1".to_string())
    );
    assert_eq!(
        "10.0.0.1-300".parse::<Ipv4Range>().unwrap_err(),
        ParseError::BadAddr("300".to_string())
    );
    assert_eq!(
        "::1- zz".parse::<Ipv6Range>().unwrap_err(),
        ParseError::BadAddr(" zz".to_string())
    );
    assert_eq!("   ".parse::<IpCidr>().unwrap_err(), ParseError::Empty);
    assert_eq!(
        "nonsense".parse::<IpSet>().unwrap_err(),
        ParseError::BadAddr("nonsense".to_string())
    );
    assert_eq!(
        "1.2.3.4-::1".parse::<IpRange>().unwrap_err(),
        ParseError::BadAddr("::1".to_string())
    );
}

#[test]
fn parse_accepts_whitespace_and_plus_prefix() {
    let c: Ipv4Cidr = "  10.1.2.3 / +16 ".parse().unwrap();
    assert_eq!(c.to_string(), "10.1.0.0/16");
    let r: Ipv4Range = " 10.0.0.1 - 10.0.0.9 ".parse().unwrap();
    assert_eq!(r.count(), 9);
}

#[test]
fn ipv4_address_syntax_is_strict() {
    assert!("1.2.3.4".parse::<Ipv4Addr>().is_ok());
    assert!("01.2.3.4".parse::<Ipv4Addr>().is_err());
    assert!("1.2.3".parse::<Ipv4Addr>().is_err());
    assert!("1.2.3.4.5".parse::<Ipv4Addr>().is_err());
    assert!("256.0.0.0".parse::<Ipv4Addr>().is_err());
    assert!("1.2.3.4 ".parse::<Ipv4Addr>().is_err());
    assert!("+1.2.3.4".parse::<Ipv4Addr>().is_err());
}

#[test]
fn ipv6_address_syntax() {
    let cases = [
        ("::", 0u128),
        ("::1", 1),
        ("1::", 1u128 << 112),
        ("2001:DB8::ff", 0x2001_0db8_0000_0000_0000_0000_0000_00ff),
        ("::ffff:1.2.3.4", 0xffff_0102_0304),
        ("1:2:3:4:5:6:7:8", 0x0001_0002_0003_0004_0005_0006_0007_0008),
        ("1:2:3:4:5:6:1.2.3.4", 0x0001_0002_0003_0004_0005_0006_0102_0304),
        ("1:2:3:4:5:6:7::", 0x0001_0002_0003_0004_0005_0006_0007_0000),
    ];
    for (s, v) in cases {
        assert_eq!(s.parse::<Ipv6Addr>().unwrap().to_bits(), v, "{s}");
    }
    for bad in [":", ":::", "1:::2", "1::2::3", "12345::", "1:2:3:4:5:6:7:8:9", "1.2.3.4::", "::1.2.3", "g::"] {
        assert!(bad.parse::<Ipv6Addr>().is_err(), "{bad}");
    }
}

#[test]
fn ipset_single_address_is_host_block() {
    let s: IpSet = "2001:db8::1".parse().unwrap();
    assert_eq!(s.as_cidr().unwrap().to_string(), "2001:db8::1/128");
    assert!(s.is_address());
}

// --- Formatting ---------------------------------------------------------------

#[test]
fn ipv6_text_compresses_first_longest_zero_run() {
    let cases = [
        (0u128, "::"),
        (1, "::1"),
        (0x2001_0db8_0000_0000_0001_0000_0000_0001, "2001:db8::1:0:0:1"),
        (0x0001_0000_0001_0000_0000_0001_0000_0001, "1:0:1::1:0:1"),
        (0x0001_0002_0003_0004_0005_0006_0007_0008, "1:2:3:4:5:6:7:8"),
        (0x0001_0000_0002_0003_0004_0005_0006_0007, "1:0:2:3:4:5:6:7"),
        (0xffff_0102_0304, "::ffff:1.2.3.4"),
        (0xFE80_0000_0000_0000_0000_0000_0000_ABCD, "fe80::abcd"),
    ];
    for (v, s) in cases {
        assert_eq!(Ipv6Addr::from_bits(v).to_string(), s);
    }
}

#[test]
fn text_round_trips() {
    for s in ["0.0.0.0/0", "255.255.255.255/32", "10.0.0.0/8", "::/0", "fe80::/10", "::ffff:0.0.0.0/96"] {
        assert_eq!(s.parse::<IpCidr>().unwrap().to_string(), s);
    }
    for s in ["10.0.0.1-10.0.0.9", "::1-::ffff"] {
        assert_eq!(s.parse::<IpRange>().unwrap().to_string(), s);
        assert_eq!(s.parse::<IpSet>().unwrap().to_string(), s);
    }
}

#[test]
fn parse_error_messages() {
    assert_eq!(ParseError::Empty.to_string(), "empty input");
    assert_eq!(
        ParseError::BadAddr("x\"y".to_string()).to_string(),
        "invalid IP address: \"x\\\"y\""
    );
    assert_eq!(
        ParseError::BadPrefix("99".to_string()).to_string(),
        "invalid prefix length: \"99\""
    );
    assert_eq!(
        ParseError::MixedFamilies.to_string(),
        "range mixes IPv4 and IPv6 addresses"
    );
    assert_eq!(
        ParseError::StartAfterEnd.to_string(),
        "range start is greater than range end"
    );
    assert_eq!(
        ParseError::Malformed("a b".to_string()).to_string(),
        "malformed input: \"a b\""
    );
}

// --- Reports ------------------------------------------------------------------

#[test]
fn info_lines_for_ipv4_block() {
    let s: IpSet = "192.168.1.0/24".parse().unwrap();
    assert_eq!(
        info_lines("192.168.1.0/24", &s),
        [
            "192.168.1.0/24",
            "  network:   192.168.1.0",
            "  broadcast: 192.168.1.255",
            "  netmask:   255.255.255.0",
            "  wildcard:  0.0.0.255",
            "  prefix:    /24",
            "  addresses: 256",
            "  hosts:     254",
            "  class:     private",
        ]
    );
}

#[test]
fn info_lines_for_ipv6_and_range() {
    let s: IpSet = "::/0".parse().unwrap();
    assert_eq!(
        info_lines("all", &s),
        [
            "all",
            "  network:   ::",
            "  last:      ffff:ffff:ffff:ffff:ffff:ffff:ffff:ffff",
            "  prefix:    /0",
            "  addresses: 340282366920938463463374607431768211455",
        ]
    );
    let r: IpSet = "10.0.0.1-50".parse().unwrap();
    assert_eq!(
        info_lines("r", &r),
        ["r", "  start:     10.0.0.1", "  end:       10.0.0.50", "  addresses: 50"]
    );
}

#[test]
fn ipv4_classes() {
    let label = |s: &str| ipv4_class(&s.parse::<Ipv4Cidr>().unwrap());
    assert_eq!(label("10.0.0.0/8"), "private");
    assert_eq!(label("127.0.0.0/8"), "loopback");
    assert_eq!(label("169.254.0.0/16"), "link-local");
    assert_eq!(label("198.51.100.0/24"), "documentation");
    assert_eq!(label("239.0.0.0/8"), "multicast");
    assert_eq!(label("8.8.8.0/24"), "global");
}

#[test]
fn summary_fields() {
    let s: IpSet = "10.0.0.0-10.0.0.130".parse().unwrap();
    let sum = s.summary();
    assert_eq!(sum.kind, "range");
    assert_eq!(sum.family, "v4");
    assert_eq!(sum.first, "10.0.0.0");
    assert_eq!(sum.last, "10.0.0.130");
    assert_eq!(sum.count, "131");
    assert_eq!(sum.cidrs, ["10.0.0.0/25", "10.0.0.128/31", "10.0.0.130/32"]);
    let b: IpSet = "2001:db8::1".parse().unwrap();
    assert_eq!(b.summary().kind, "cidr");
    assert_eq!(b.summary().family, "v6");
}

#[test]
fn target_lines() {
    assert_eq!(target_from_line("  10.0.0.0/8 \t"), Some("10.0.0.0/8".to_string()));
    assert_eq!(target_from_line("   "), None);
    assert_eq!(target_from_line(" # comment"), None);
}

// --- Laws on concrete values ------------------------------------------------------

#[test]
fn law_exclude_then_aggregate_ipv6() {
    let block: Ipv6Cidr = "2001:db8::/120".parse().unwrap();
    let hole: Ipv6Cidr = "2001:db8::40/122".parse().unwrap();
    let mut pieces = block.exclude(&hole);
    pieces.push(hole);
    assert_eq!(Ipv6Cidr::aggregate(&pieces), vec![block]);
}

#[test]
fn law_member_address_gives_same_block() {
    let c: Ipv4Cidr = "172.16.32.0/20".parse().unwrap();
    for a in all4(c.addresses()).iter().step_by(97) {
        assert_eq!(Ipv4Cidr::new(*a, 20).unwrap(), c);
    }
}

#[test]
fn law_mask_round_trip() {
    for p in 0..=32u8 {
        let c = Ipv4Cidr::new(Ipv4Addr::new(0, 0, 0, 0), p).unwrap();
        assert_eq!(Ipv4Cidr::mask_to_prefix_len(c.netmask()), Some(p));
        assert_eq!(c.netmask().to_bits() as u64 + c.wildcard_mask().to_bits() as u64, 0xffff_ffff);
    }
    for p in [0u8, 1, 64, 127, 128] {
        let c = Ipv6Cidr::new(Ipv6Addr::from_bits(0), p).unwrap();
        assert_eq!(Ipv6Cidr::mask_to_prefix_len(c.netmask()), Some(p));
    }
}

#[test]
fn law_subnets_partition_block() {
    let c: Ipv4Cidr = "10.0.0.0/22".parse().unwrap();
    let kids = subnets4(c.subnets(25));
    assert_eq!(kids.len() as u128, c.subnet_count(25));
    let total: u128 = kids.iter().map(|k| k.address_count()).sum();
    assert_eq!(total, c.address_count());
    assert!(kids.windows(2).all(|w| w[0].last_address().to_bits() + 1 == w[1].network().to_bits()));
}

#[test]
fn law_range_exclude_and_intersection_partition() {
    let a: Ipv4Range = "10.0.0.10-10.0.0.90".parse().unwrap();
    let b: Ipv4Range = "10.0.0.50-10.0.0.200".parse().unwrap();
    let rest: u128 = a.exclude(&b).iter().map(|r| r.count()).sum();
    let meet = a.intersection(&b).unwrap();
    assert_eq!(rest + meet.count(), a.count());
    assert_eq!(b.intersection(&a), Some(meet));
}

#[test]
fn law_iterator_front_and_back_meet() {
    let c: Ipv4Cidr = "10.0.0.0/28".parse().unwrap();
    let mut it = c.addresses();
    let mut seen = Vec::new();
    let mut front = true;
    loop {
        let next = if front { it.next() } else { it.next_back() };
        match next {
            Some(a) => seen.push(a),
            None => break,
        }
        front = !front;
    }
    seen.sort();
    assert_eq!(seen, all4(c.addresses()));
}

#[test]
fn aggregate_sorts_unordered_input() {
    let blocks: Vec<Ipv4Cidr> = ["192.168.0.0/24", "10.0.1.0/24", "10.0.0.128/25", "10.0.0.0/25"]
        .iter()
        .map(|s| s.parse().unwrap())
        .collect();
    assert_eq!(
        texts4(&Ipv4Cidr::aggregate(&blocks)),
        ["10.0.0.0/23", "192.168.0.0/24"]
    );
}

#[test]
fn from_conversions_wrap_family_types() {
    let c: Ipv4Cidr = "10.0.0.0/8".parse().unwrap();
    assert_eq!(IpCidr::from(c), IpCidr::V4(c));
    let r: Ipv6Range = "::1-::2".parse().unwrap();
    assert_eq!(IpRange::from(r), IpRange::V6(r));
    assert_eq!(IpSet::from(IpCidr::from(c)), IpSet::Cidr(IpCidr::V4(c)));
    assert_eq!(IpSet::from(IpRange::from(r)), IpSet::Range(IpRange::V6(r)));
}

#[test]
fn size_hint_of_ipv6_iterators() {
    let c: Ipv6Cidr = "2001:db8::/120".parse().unwrap();
    assert_eq!(c.addresses().size_hint(), (256, Some(256)));
    let big: Ipv6Cidr = "2001:db8::/64".parse().unwrap();
    assert_eq!(big.addresses().size_hint(), (usize::MAX, None));
}

#[test]
fn predicates_need_the_whole_block() {
    assert!(!"10.0.0.0/7".parse::<Ipv4Cidr>().unwrap().is_private());
    assert!("10.128.0.0/9".parse::<Ipv4Cidr>().unwrap().is_private());
    assert!(!"224.0.0.0/3".parse::<Ipv4Cidr>().unwrap().is_multicast());
    assert!(!"127.0.0.0/7".parse::<Ipv4Cidr>().unwrap().is_loopback());
    assert!(!"169.254.0.0/15".parse::<Ipv4Cidr>().unwrap().is_link_local());
    assert!(!"192.0.2.0/23".parse::<Ipv4Cidr>().unwrap().is_documentation());
    assert!("198.51.100.128/25".parse::<Ipv4Cidr>().unwrap().is_documentation());
    assert!(!"::/0".parse::<Ipv6Cidr>().unwrap().is_unspecified());
    assert!(!"::/127".parse::<Ipv6Cidr>().unwrap().is_loopback());
    assert!(!"fc00::/6".parse::<Ipv6Cidr>().unwrap().is_unique_local());
    assert!(!"fe80::/9".parse::<Ipv6Cidr>().unwrap().is_link_local());
    assert!(!"2001:db8::/31".parse::<Ipv6Cidr>().unwrap().is_documentation());
    assert!(!"fe00::/7".parse::<Ipv6Cidr>().unwrap().is_multicast());
    assert!(!"0.0.0.0/0".parse::<IpCidr>().unwrap().is_private());
    assert_eq!(ipv4_class(&"10.0.0.0/7".parse::<Ipv4Cidr>().unwrap()), "global");
}

#[test]
fn nth_address_reaches_the_last_address_of_the_whole_space() {
    let all: Ipv6Cidr = "::/0".parse().unwrap();
    assert_eq!(all.nth_address(u128::MAX), Some(Ipv6Addr::from_bits(u128::MAX)));
    let r: Ipv6Range = "::-ffff:ffff:ffff:ffff:ffff:ffff:ffff:ffff".parse().unwrap();
    assert_eq!(r.nth_address(u128::MAX), Some(Ipv6Addr::from_bits(u128::MAX)));
    let c: IpCidr = "::/0".parse().unwrap();
    assert!(c.nth_address(u128::MAX).is_some());
    let s: IpSet = "::/0".parse().unwrap();
    assert!(s.nth_address(u128::MAX).is_some());
    let g: IpRange = "::-ffff:ffff:ffff:ffff:ffff:ffff:ffff:ffff".parse().unwrap();
    assert!(g.nth_address(u128::MAX).is_some());
    let one: Ipv6Cidr = "::1/128".parse().unwrap();
    assert_eq!(one.nth_address(1), None);
}

#[test]
fn ipv4_errors_are_kept_for_ipv4_text() {
    assert_eq!(
        "10.0.0.0/99".parse::<IpCidr>().unwrap_err(),
        ParseError::BadPrefix("99".to_string())
    );
    assert_eq!("10.0.0.5-10.0.0.1".parse::<IpSet>().unwrap_err(), ParseError::StartAfterEnd);
    assert_eq!("10.0.0.5-10.0.0.1".parse::<IpRange>().unwrap_err(), ParseError::StartAfterEnd);
    assert_eq!(
        "10.0.0.1-zz".parse::<IpRange>().unwrap_err(),
        ParseError::BadAddr("zz".to_string())
    );
    assert_eq!(
        "zz/8".parse::<IpCidr>().unwrap_err(),
        ParseError::BadAddr("zz".to_string())
    );
    assert_eq!(
        "::1-::0".parse::<IpRange>().unwrap_err(),
        ParseError::StartAfterEnd
    );
}

#[test]
fn ipcidr_exclude_is_minimal() {
    let block: IpCidr = "10.0.0.0/24".parse().unwrap();
    let hole: IpCidr = "10.0.0.64/26".parse().unwrap();
    let rest: Vec<String> = block.exclude(&hole).iter().map(|c| c.to_string()).collect();
    assert_eq!(rest, ["10.0.0.0/26", "10.0.0.128/25"]);
    let far: IpCidr = "10.0.5.0/24".parse().unwrap();
    assert_eq!(block.exclude(&far), vec![block]);
    let big: IpCidr = "10.0.0.0/16".parse().unwrap();
    assert!(block.exclude(&big).is_empty());
}

#[test]
fn aggregation_ignores_order_and_repeats() {
    let a: Vec<Ipv4Cidr> = ["10.0.1.0/24", "10.0.0.0/25", "10.0.0.128/25", "10.0.0.0/25"]
        .iter()
        .map(|s| s.parse().unwrap())
        .collect();
    let mut b = a.clone();
    b.reverse();
    let once = Ipv4Cidr::aggregate(&a);
    assert_eq!(once, Ipv4Cidr::aggregate(&b));
    assert_eq!(Ipv4Cidr::aggregate(&once), once);
}

#[test]
fn interleaved_walk_of_a_target() {
    let s: IpSet = "10.0.0.0/30".parse().unwrap();
    let mut it = s.addresses();
    assert_eq!(it.next_back().unwrap().to_string(), "10.0.0.3");
    assert_eq!(it.next().unwrap().to_string(), "10.0.0.0");
    assert_eq!(it.next_back().unwrap().to_string(), "10.0.0.2");
    assert_eq!(it.next().unwrap().to_string(), "10.0.0.1");
    assert!(it.next().is_none());
    assert!(it.next_back().is_none());
}

#[test]
fn aggregation_uses_the_fewest_blocks() {
    // Four /27s and one /25 hold 10.0.0.0/24 exactly; one block suffices.
    let mut parts: Vec<Ipv4Cidr> = Vec::new();
    for i in 0..4u32 {
        parts.push(format!("10.0.0.{}/27", i * 32).parse().unwrap());
    }
    parts.push("10.0.0.128/25".parse().unwrap());
    let merged = Ipv4Cidr::aggregate(&parts);
    assert_eq!(texts4(&merged), vec!["10.0.0.0/24"]);
    assert!(merged.len() <= parts.len());
}

#[test]
fn range_decomposition_uses_the_fewest_blocks() {
    // 10.0.0.1-10.0.0.6 needs four blocks (/32, /31, /31, /32); the six
    // single addresses are a longer cover of the same run.
    let r: Ipv4Range = "10.0.0.1-10.0.0.6".parse().unwrap();
    let blocks = r.to_cidrs();
    assert_eq!(
        texts4(&blocks),
        vec!["10.0.0.1/32", "10.0.0.2/31", "10.0.0.4/31", "10.0.0.6/32"]
    );
    assert!(blocks.len() <= 6);
}
