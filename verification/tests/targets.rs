//! What the command-line program prints for each option, computed through
//! the library calls it makes.

use cidr_utils::report::info_lines;
use cidr_utils::{aggregate, IpAddr, IpCidr, IpSet, IpSetIter, Ipv4Cidr, Ipv4Subnets};

fn set(s: &str) -> IpSet {
    s.parse().unwrap()
}

fn texts(mut it: IpSetIter) -> Vec<String> {
    let mut v = Vec::new();
    while let Some(a) = it.next() {
        v.push(a.to_string());
    }
    v
}

fn texts_rev(mut it: IpSetIter) -> Vec<String> {
    let mut v = Vec::new();
    while let Some(a) = it.next_back() {
        v.push(a.to_string());
    }
    v
}

fn subnet_texts(mut it: Ipv4Subnets) -> Vec<String> {
    let mut v = Vec::new();
    while let Some(c) = it.next() {
        v.push(c.to_string());
    }
    v
}

#[test]
fn lists_hosts_by_default() {
    assert_eq!(texts(set("192.168.1.0/30").hosts()), vec!["192.168.1.1", "192.168.1.2"]);
}

#[test]
fn all_flag_includes_network_and_broadcast() {
    assert_eq!(texts(set("192.168.1.0/30").addresses()).len(), 4);
}

#[test]
fn count_flag_prints_number() {
    assert_eq!(set("10.0.0.0/8").count().to_string(), "16777216");
}

#[test]
fn range_shorthand_works() {
    assert_eq!(texts(set("10.0.0.1-3").hosts()).len(), 3);
}

#[test]
fn limit_caps_output() {
    let mut it = set("10.0.0.0/24").hosts();
    let mut printed = 0;
    while it.next().is_some() && printed < 5 {
        printed += 1;
    }
    assert_eq!(printed, 5);
}

#[test]
fn contains_hit_exits_zero() {
    let needle: IpAddr = "192.168.1.5".parse().unwrap();
    assert!(set("192.168.1.0/24").contains(needle));
}

#[test]
fn contains_miss_exits_one() {
    let needle: IpAddr = "8.8.8.8".parse().unwrap();
    assert!(!set("192.168.1.0/24").contains(needle));
}

#[test]
fn bad_target_exits_two() {
    assert!("not-a-network".parse::<IpSet>().is_err());
}

#[test]
fn info_reports_broadcast() {
    let lines = info_lines("192.168.1.0/24", &set("192.168.1.0/24"));
    assert!(lines.iter().any(|l| l.contains("broadcast: 192.168.1.255")));
    assert!(lines.iter().any(|l| l.contains("hosts:     254")));
}

#[test]
fn cidrs_flag_decomposes_range() {
    let got: Vec<String> = set("10.0.0.0-10.0.0.130")
        .to_cidrs()
        .iter()
        .map(|c| c.to_string())
        .collect();
    assert_eq!(got, vec!["10.0.0.0/25", "10.0.0.128/31", "10.0.0.130/32"]);
}

#[test]
fn aggregate_flag_merges_targets() {
    let mut blocks: Vec<IpCidr> = Vec::new();
    for t in ["10.0.0.0/25", "10.0.0.128/25", "10.0.1.0/24"] {
        blocks.extend(set(t).to_cidrs());
    }
    let got: Vec<String> = aggregate(&blocks).iter().map(|c| c.to_string()).collect();
    assert_eq!(got, vec!["10.0.0.0/23"]);
}

#[test]
fn split_flag_emits_subnets() {
    let c: Ipv4Cidr = "192.168.1.0/24".parse().unwrap();
    assert_eq!(
        subnet_texts(c.subnets(26)),
        vec!["192.168.1.0/26", "192.168.1.64/26", "192.168.1.128/26", "192.168.1.192/26"]
    );
}

#[test]
fn info_reports_wildcard_and_class() {
    let lines = info_lines("10.0.0.0/8", &set("10.0.0.0/8"));
    assert!(lines.iter().any(|l| l.contains("wildcard:  0.255.255.255")));
    assert!(lines.iter().any(|l| l.contains("class:     private")));
}

#[test]
fn exclude_flag_subtracts_block() {
    let hole: IpCidr = "10.0.0.0/25".parse().unwrap();
    let mut got: Vec<String> = Vec::new();
    for c in set("10.0.0.0/24").to_cidrs() {
        for r in c.exclude(&hole) {
            got.push(r.to_string());
        }
    }
    assert_eq!(got, vec!["10.0.0.128/25"]);
}

#[test]
fn reverse_flag_lists_descending() {
    assert_eq!(texts_rev(set("192.168.1.0/30").hosts()), vec!["192.168.1.2", "192.168.1.1"]);
}

#[test]
fn total_flag_sums_addresses() {
    let sum: u128 = ["10.0.0.0/24", "10.0.1.0/24"].iter().map(|t| set(t).count()).sum();
    assert_eq!(sum.to_string(), "512");
}

#[test]
fn vlsm_flag_packs_classic_layout() {
    let Some(IpCidr::V4(parent)) = set("192.168.1.0/24").as_cidr() else {
        panic!("an IPv4 block");
    };
    let allocs = parent.vlsm_allocate(&[60, 30, 12, 4]).unwrap();
    let prefixes: Vec<u8> = allocs.iter().map(|c| c.prefix_len()).collect();
    assert_eq!(prefixes, vec![26, 27, 28, 29]);
}

#[test]
fn vlsm_flag_rejects_overcommit() {
    let Some(IpCidr::V4(parent)) = set("10.0.0.0/29").as_cidr() else {
        panic!("an IPv4 block");
    };
    assert!(parent.vlsm_allocate(&[6, 6]).is_none());
}

#[test]
fn vlsm_flag_rejects_ipv6_target() {
    assert!(matches!(set("2001:db8::/32").as_cidr(), Some(IpCidr::V6(_))));
}

#[test]
fn supernet_flag_climbs_to_named_prefix() {
    let c = set("10.20.30.0/24").as_cidr().unwrap();
    assert_eq!(c.supernet_at(16).unwrap().to_string(), "10.20.0.0/16");
}

#[test]
fn supernet_flag_rejects_longer_prefix() {
    let c = set("10.20.30.0/24").as_cidr().unwrap();
    assert!(c.supernet_at(25).is_none());
}

#[test]
fn supernet_flag_rejects_range_target() {
    assert!(set("10.0.0.1-10.0.0.5").as_cidr().is_none());
}

#[test]
fn json_flag_emits_summary() {
    let s = set("10.0.0.0/30").summary();
    assert_eq!(s.kind, "cidr");
    assert_eq!(s.family, "v4");
    assert_eq!(s.count, "4");
    assert_eq!(s.first, "10.0.0.0");
    assert_eq!(s.last, "10.0.0.3");
}
