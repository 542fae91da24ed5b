//! Plain-text reports about targets: the address class of an IPv4 block,
//! the `--info` summary lines, the fields of a target summary, and reading
//! target lines from a list.

use vstd::prelude::*;

use crate::block::{lemma_wf_facts, Block};
use crate::cidr::{
    mask_value, v4_documentation, v4_link_local, v4_loopback, v4_multicast, v4_private, IpCidr,
    Ipv4Cidr,
};
use crate::parse::{trim, trim_chars};
use crate::range::decomposes;
use crate::set::IpSet;
use crate::show::{addr_text_of, cidr_text_of, v4_text_of, v6_text_of};
use crate::text::{chars_of, decimal_string, radix_digits, string_of};
use crate::vlsm::host_capacity;

verus! {

/// A short label for where an IPv4 block sits in the address space.
pub open spec fn class_label(n: Block) -> Seq<char> {
    if v4_private(n) {
        "private"@
    } else if v4_loopback(n) {
        "loopback"@
    } else if v4_link_local(n) {
        "link-local"@
    } else if v4_documentation(n) {
        "documentation"@
    } else if v4_multicast(n) {
        "multicast"@
    } else {
        "global"@
    }
}

/// A short label describing where an IPv4 block sits in the address space.
pub fn ipv4_class(c: &Ipv4Cidr) -> (r: &'static str)
    ensures
        r@ == class_label(c@),
{
    if c.is_private() {
        "private"
    } else if c.is_loopback() {
        "loopback"
    } else if c.is_link_local() {
        "link-local"
    } else if c.is_documentation() {
        "documentation"
    } else if c.is_multicast() {
        "multicast"
    } else {
        "global"
    }
}

/// Decimal digits of `n`.
pub open spec fn dec(n: nat) -> Seq<char> {
    radix_digits(n, 10)
}

/// The number of addresses of a span, saturating at `u128::MAX`.
pub open spec fn saturating_count(first: nat, last: nat) -> nat {
    if last - first < u128::MAX {
        (last - first + 1) as nat
    } else {
        u128::MAX as nat
    }
}

/// The lines of the `--info` summary of a target named `target`.
pub open spec fn info_text(target: Seq<char>, x: IpSet) -> Seq<Seq<char>> {
    match x {
        IpSet::Cidr(IpCidr::V4(c)) => seq![
            target,
            "  network:   "@ + v4_text_of(c@.network),
            "  broadcast: "@ + v4_text_of(c@.last() as nat),
            "  netmask:   "@ + v4_text_of(mask_value(32, c@.prefix)),
            "  wildcard:  "@ + v4_text_of((c@.size() - 1) as nat),
            "  prefix:    /"@ + dec(c@.prefix),
            "  addresses: "@ + dec(c@.size()),
            "  hosts:     "@ + dec(host_capacity(c@.prefix)),
            "  class:     "@ + class_label(c@),
        ],
        IpSet::Cidr(IpCidr::V6(c)) => seq![
            target,
            "  network:   "@ + v6_text_of(c@.network),
            "  last:      "@ + v6_text_of(c@.last() as nat),
            "  prefix:    /"@ + dec(c@.prefix),
            "  addresses: "@ + dec(saturating_count(c@.network, c@.last() as nat)),
        ],
        IpSet::Range(r) => seq![
            target,
            "  start:     "@ + addr_text_of(r.width(), r.span().0),
            "  end:       "@ + addr_text_of(r.width(), r.span().1),
            "  addresses: "@ + dec(saturating_count(r.span().0, r.span().1)),
        ],
    }
}

/// The views of a sequence of strings.
pub open spec fn string_views(v: Seq<String>) -> Seq<Seq<char>> {
    v.map_values(|s: String| s@)
}

/// `label` followed by `value`.
fn labeled(label: &str, value: &String) -> (r: String)
    ensures
        r@ == label@ + value@,
{
    let mut v = chars_of(label);
    let mut w = chars_of(value.as_str());
    v.append(&mut w);
    proof {
        assert(v@ =~= label@ + value@);
    }
    string_of(&v)
}

/// The lines of the `--info` summary of a target named `target`.
pub fn info_lines(target: &str, x: &IpSet) -> (r: Vec<String>)
    ensures
        string_views(r@) == info_text(target@, *x),
{
    let mut out: Vec<String> = Vec::new();
    out.push(string_of(&chars_of(target)));
    match x {
        IpSet::Cidr(ic) => {
            ic.well_formed();
            match ic {
                IpCidr::V4(c) => {
                    let net = c.network();
                    proof {
                        lemma_wf_facts(c@);
            }
            out.push(labeled("  network:   ", &net.to_string()));
            out.push(labeled("  broadcast: ", &c.broadcast().to_string()));
            out.push(labeled("  netmask:   ", &c.netmask().to_string()));
            out.push(labeled("  wildcard:  ", &c.wildcard().to_string()));
            out.push(labeled("  prefix:    /", &decimal_string(c.prefix_len() as u128)));
            out.push(labeled("  addresses: ", &decimal_string(c.address_count())));
            out.push(labeled("  hosts:     ", &decimal_string(c.host_count() as u128)));
            out.push(labeled("  class:     ", &string_of(&chars_of(ipv4_class(c)))));
        },
        IpCidr::V6(c) => {
            proof {
                lemma_wf_facts(c@);
                crate::block::lemma_pow2_widths();
                if c@.prefix == 0 {
                    assert(c@.size() == vstd::arithmetic::power2::pow2(128));
                } else {
                    vstd::arithmetic::power2::lemma_pow2_strictly_increases(
                        (128 - c@.prefix) as nat,
                        128,
                    );
                }
            }
            out.push(labeled("  network:   ", &c.network().to_string()));
            out.push(labeled("  last:      ", &c.last_address().to_string()));
            out.push(labeled("  prefix:    /", &decimal_string(c.prefix_len() as u128)));
            out.push(labeled("  addresses: ", &decimal_string(c.address_count())));
        },
            }
        },
        IpSet::Range(g) => {
            g.well_formed();
            out.push(labeled("  start:     ", &g.start().to_string()));
            out.push(labeled("  end:       ", &g.end().to_string()));
            out.push(labeled("  addresses: ", &decimal_string(g.count())));
        },
    }
    proof {
        assert(string_views(out@) =~= info_text(target@, *x));
    }
    out
}

/// The fields of a target's summary.
pub struct TargetSummary {
    /// `cidr` for a block or a bare address, `range` for a range.
    pub kind: String,
    /// `v4` or `v6`.
    pub family: String,
    /// The lowest address.
    pub first: String,
    /// The highest address.
    pub last: String,
    /// The number of addresses, in decimal (saturating at `u128::MAX`).
    pub count: String,
    /// The target's minimal decomposition into aligned blocks.
    pub cidrs: Vec<String>,
}

/// The texts of blocks, in order.
pub open spec fn blocks_text(s: Seq<Block>) -> Seq<Seq<char>> {
    s.map_values(|b: Block| cidr_text_of(b.width, b.network, b.prefix))
}

impl IpSet {
    /// The fields of this target's summary.
    pub fn summary(&self) -> (r: TargetSummary)
        ensures
            r.kind@ == (if self is Cidr {
                "cidr"@
            } else {
                "range"@
            }),
            r.family@ == (if self.width() == 32 {
                "v4"@
            } else {
                "v6"@
            }),
            r.first@ == addr_text_of(self.width(), self.span().0),
            r.last@ == addr_text_of(self.width(), self.span().1),
            r.count@ == dec(saturating_count(self.span().0, self.span().1)),
            exists|s: Seq<Block>|
                decomposes(s, self.span().0, self.span().1) && string_views(r.cidrs@)
                    == blocks_text(s),
    {
        self.well_formed();
        let kind = if self.is_cidr() {
            string_of(&chars_of("cidr"))
        } else {
            string_of(&chars_of("range"))
        };
        let first = self.first();
        let family = if first.is_ipv4() {
            string_of(&chars_of("v4"))
        } else {
            string_of(&chars_of("v6"))
        };
        let blocks = self.to_cidrs();
        let mut cidrs: Vec<String> = Vec::new();
        let mut i: usize = 0;
        while i < blocks.len()
            invariant
                i <= blocks@.len(),
                cidrs@.len() == i,
                forall|j: int|
                    0 <= j < i ==> (#[trigger] cidrs@[j])@ == cidr_text_of(
                        blocks@[j]@.width,
                        blocks@[j]@.network,
                        blocks@[j]@.prefix,
                    ),
            decreases blocks@.len() - i,
        {
            cidrs.push(blocks[i].to_string());
            i = i + 1;
        }
        proof {
            let s = crate::cidr::ip_blocks(blocks@);
            assert(string_views(cidrs@) =~= blocks_text(s));
        }
        TargetSummary {
            kind,
            family,
            first: first.to_string(),
            last: self.last().to_string(),
            count: decimal_string(self.count()),
            cidrs,
        }
    }
}

/// A target read from a line of a target list: the line without
/// surrounding white space, or `None` for a blank line or a `#` comment.
pub fn target_from_line(line: &str) -> (r: Option<String>)
    ensures
        match r {
            Some(t) => t@ == trim(line@) && trim(line@).len() > 0 && trim(line@)[0] != '#',
            None => trim(line@).len() == 0 || trim(line@)[0] == '#',
        },
{
    let t = trim_chars(&chars_of(line));
    if t.len() == 0 || t[0] == '#' {
        None
    } else {
        Some(string_of(&t))
    }
}

} // verus!
