//! Laws that tie the grammar, the address-space classes and the report
//! lines to the notation they stand for: hexadecimal digits of either case,
//! zero-padded IPv6 groups, the reserved blocks of the address registries,
//! and report lines that read back as the quantities they name.

use vstd::prelude::*;

use vstd::arithmetic::power2::{lemma2_to64, lemma2_to64_rest, lemma_pow2_adds, pow2};

use crate::addr::pow2_16k;
use crate::block::{lemma_pow2_widths, lemma_wf_facts, Block};
use crate::cidr::{
    lemma_ipcidr_width, IpCidr, Ipv4Cidr, Ipv6Cidr, v4_documentation, v4_link_local, v4_loopback, v4_multicast, v4_private, v6_documentation,
    v6_link_local, v6_loopback, v6_multicast, v6_unique_local, v6_unspecified,
};
use crate::parse::{
    all_radix_digits, digits_value, find_double_colon, groups_text, hex_fields, hex_group, hex_val,
    find, ipv4_text, ipv6_text, is_hex, octet, radix_digit, split_on, trim, trim_end, trim_start,
    u8_text,
};
use crate::read::{cidr_text, prefix_text};
use crate::report::{class_label, info_text};
use crate::roundtrip::{lemma_radix_digits, lemma_v4_text_round_trip};
use crate::roundtrip6::lemma_v6_text_round_trip;
use crate::range::IpRange;
use crate::set::IpSet;
use crate::text::{digit_char, radix_digits};

verus! {

/// The capital form of a lower-case ASCII letter; other characters are
/// unchanged.
pub open spec fn upper(c: char) -> char {
    if 'a' <= c <= 'z' {
        ((c as nat) - 32) as char
    } else {
        c
    }
}

/// `s` with every lower-case ASCII letter capitalised.
pub open spec fn upper_text(s: Seq<char>) -> Seq<char> {
    s.map_values(|c: char| upper(c))
}

/// Every digit value below sixteen is written by a hex digit of either case,
/// and both cases read back as that value.
pub proof fn lemma_hex_digit_either_case(d: nat)
    requires
        d < 16,
    ensures
        is_hex(digit_char(d)),
        hex_val(digit_char(d)) == d,
        is_hex(upper(digit_char(d))),
        hex_val(upper(digit_char(d))) == d,
{
}

/// A hex digit is nothing but the lower- or upper-case character of its
/// value.
pub proof fn lemma_hex_digit_is_a_digit_char(c: char)
    requires
        is_hex(c),
    ensures
        hex_val(c) < 16,
        c == digit_char(hex_val(c)) || c == upper(digit_char(hex_val(c))),
{
}

/// A leading zero digit adds nothing to the value of a digit string.
proof fn lemma_leading_zero_value(f: Seq<char>)
    ensures
        digits_value(seq!['0'] + f, 16) == digits_value(f, 16),
    decreases f.len(),
{
    if f.len() == 0 {
        assert((seq!['0'] + f).drop_last() =~= Seq::<char>::empty());
        assert(digits_value(Seq::<char>::empty(), 16) == 0);
        assert(hex_val('0') == 0);
    } else {
        lemma_leading_zero_value(f.drop_last());
        assert((seq!['0'] + f).drop_last() =~= seq!['0'] + f.drop_last());
        assert((seq!['0'] + f).last() == f.last());
        assert(digits_value(seq!['0'] + f, 16) == digits_value(seq!['0'] + f.drop_last(), 16) * 16
            + hex_val(f.last()));
    }
}

/// Capitalising the letters of a hex digit string keeps its value.
proof fn lemma_upper_value(f: Seq<char>)
    requires
        forall|i: int| 0 <= i < f.len() ==> is_hex(#[trigger] f[i]),
    ensures
        digits_value(upper_text(f), 16) == digits_value(f, 16),
    decreases f.len(),
{
    if f.len() > 0 {
        lemma_upper_value(f.drop_last());
        assert(upper_text(f).drop_last() =~= upper_text(f.drop_last()));
        assert(is_hex(f[f.len() - 1]));
        assert(upper_text(f).last() == upper(f.last()));
    }
}

/// Any one to four hex digits, of either case and with or without leading
/// zeros, form an IPv6 group whose value is the digits read in base
/// sixteen.
pub proof fn lemma_hex_group_reads_any_digits(f: Seq<char>)
    requires
        1 <= f.len() <= 4,
        forall|i: int| 0 <= i < f.len() ==> is_hex(#[trigger] f[i]),
    ensures
        hex_group(f) == Some(digits_value(f, 16)),
{
    assert forall|i: int| 0 <= i < f.len() implies #[trigger] radix_digit(f[i], 16) by {
        assert(is_hex(f[i]));
    }
}

/// Writing a group with a leading zero digit does not change it: `0db8`
/// is the group `db8`, and a group too long for its padding is refused in
/// both spellings alike.
pub proof fn lemma_hex_group_zero_padding(f: Seq<char>)
    requires
        1 <= f.len() <= 3,
    ensures
        hex_group(seq!['0'] + f) == hex_group(f),
{
    let g = seq!['0'] + f;
    lemma_leading_zero_value(f);
    if all_radix_digits(f, 16) {
        assert forall|i: int| 0 <= i < g.len() implies #[trigger] radix_digit(g[i], 16) by {
            if i > 0 {
                assert(g[i] == f[i - 1]);
                assert(radix_digit(f[i - 1], 16));
            }
        }
    } else {
        let i = choose|i: int| 0 <= i < f.len() && !#[trigger] radix_digit(f[i], 16);
        assert(g[i + 1] == f[i]);
        assert(!radix_digit(g[i + 1], 16));
    }
}

/// The case of the letters of a group does not matter: `DB8` is the group
/// `db8`, and a group is refused in both cases alike.
pub proof fn lemma_hex_group_either_case(f: Seq<char>)
    ensures
        hex_group(upper_text(f)) == hex_group(f),
{
    let u = upper_text(f);
    assert forall|i: int| 0 <= i < f.len() implies (#[trigger] radix_digit(u[i], 16) <==> radix_digit(
        f[i],
        16,
    )) by {
        assert(u[i] == upper(f[i]));
    }
    if all_radix_digits(f, 16) {
        assert forall|i: int| 0 <= i < f.len() implies is_hex(#[trigger] f[i]) by {
            assert(radix_digit(f[i], 16));
        }
        lemma_upper_value(f);
        assert forall|i: int| 0 <= i < u.len() implies #[trigger] radix_digit(u[i], 16) by {
            assert(radix_digit(f[i], 16));
        }
    } else {
        let i = choose|i: int| 0 <= i < f.len() && !#[trigger] radix_digit(f[i], 16);
        assert(!radix_digit(u[i], 16));
    }
}

/// The IPv4 address written `a.b.c.d`.
pub open spec fn dotted(a: nat, b: nat, c: nat, d: nat) -> nat {
    a * 0x100_0000 + b * 0x1_0000 + c * 0x100 + d
}

/// The IPv6 address written `g0:g1::`.
pub open spec fn leading_groups(g0: nat, g1: nat) -> nat {
    g0 * 0x1_0000_0000_0000_0000_0000_0000_0000 + g1 * 0x1_0000_0000_0000_0000_0000_0000
}

/// The block `network/prefix` of a `width`-bit family.
pub open spec fn cidr(width: nat, network: nat, prefix: nat) -> Block {
    Block { width, network, prefix }
}

/// The IPv4 classes are the reserved blocks of the address registries: a
/// block is private when it lies inside `10.0.0.0/8`, `172.16.0.0/12` or
/// `192.168.0.0/16` (RFC 1918), loopback inside `127.0.0.0/8`, link-local
/// inside `169.254.0.0/16`, documentation inside `192.0.2.0/24`,
/// `198.51.100.0/24` or `203.0.113.0/24` (RFC 5737), and multicast inside
/// `224.0.0.0/4`.
pub proof fn lemma_v4_classes_are_registry_blocks(b: Block)
    ensures
        v4_private(b) <==> cidr(32, dotted(10, 0, 0, 0), 8).contains_block(b) || cidr(
            32,
            dotted(172, 16, 0, 0),
            12,
        ).contains_block(b) || cidr(32, dotted(192, 168, 0, 0), 16).contains_block(b),
        v4_loopback(b) <==> cidr(32, dotted(127, 0, 0, 0), 8).contains_block(b),
        v4_link_local(b) <==> cidr(32, dotted(169, 254, 0, 0), 16).contains_block(b),
        v4_documentation(b) <==> cidr(32, dotted(192, 0, 2, 0), 24).contains_block(b) || cidr(
            32,
            dotted(198, 51, 100, 0),
            24,
        ).contains_block(b) || cidr(32, dotted(203, 0, 113, 0), 24).contains_block(b),
        v4_multicast(b) <==> cidr(32, dotted(224, 0, 0, 0), 4).contains_block(b),
{
    lemma2_to64();
}

/// The IPv6 classes are the reserved blocks of the address registries:
/// loopback is `::1/128` alone, unspecified `::/128` alone, and a block is
/// multicast inside `ff00::/8`, unique-local inside `fc00::/7` (RFC 4193),
/// link-local inside `fe80::/10` (RFC 4291) and documentation inside
/// `2001:db8::/32` (RFC 3849).
pub proof fn lemma_v6_classes_are_registry_blocks(b: Block)
    ensures
        v6_loopback(b) <==> cidr(128, 1, 128).contains_block(b),
        v6_unspecified(b) <==> cidr(128, 0, 128).contains_block(b),
        v6_multicast(b) <==> cidr(128, leading_groups(0xff00, 0), 8).contains_block(b),
        v6_unique_local(b) <==> cidr(128, leading_groups(0xfc00, 0), 7).contains_block(b),
        v6_link_local(b) <==> cidr(128, leading_groups(0xfe80, 0), 10).contains_block(b),
        v6_documentation(b) <==> cidr(128, leading_groups(0x2001, 0x0db8), 32).contains_block(b),
{
    lemma2_to64();
    lemma2_to64_rest();
    lemma_pow2_adds(64, 56);
    lemma_pow2_adds(64, 57);
    lemma_pow2_adds(64, 54);
    lemma_pow2_adds(64, 32);
    assert(pow2(120) == 0x100_0000_0000_0000_0000_0000_0000_0000);
    assert(pow2(121) == 0x200_0000_0000_0000_0000_0000_0000_0000);
    assert(pow2(118) == 0x40_0000_0000_0000_0000_0000_0000_0000);
    assert(pow2(96) == 0x1_0000_0000_0000_0000_0000_0000);
}

/// What follows `label` on `line`, when the line starts with it.
pub open spec fn field(line: Seq<char>, label: Seq<char>) -> Option<Seq<char>> {
    if line.len() >= label.len() && line.take(label.len() as int) == label {
        Some(line.skip(label.len() as int))
    } else {
        None
    }
}

/// `a` is the lowest address of block `b`.
pub open spec fn lowest(b: Block, a: nat) -> bool {
    b.contains(a as int) && forall|y: int| b.contains(y) ==> a <= y
}

/// `a` is the highest address of block `b`.
pub open spec fn highest(b: Block, a: nat) -> bool {
    b.contains(a as int) && forall|y: int| b.contains(y) ==> y <= a
}

/// `x` is a decimal numeral of value `n`.
pub open spec fn numeral(x: Seq<char>, n: nat) -> bool {
    x.len() >= 1 && all_radix_digits(x, 10) && digits_value(x, 10) == n
}

proof fn lemma_field_of(label: Seq<char>, x: Seq<char>)
    ensures
        field(label + x, label) == Some(x),
{
    assert((label + x).take(label.len() as int) =~= label);
    assert((label + x).skip(label.len() as int) =~= x);
}

/// The `--info` lines of an IPv6 block name what their labels say: the
/// network line reads back as the lowest address of the block, the last
/// line as its highest, the prefix line as its prefix length, and the
/// addresses line as its number of addresses (at most `u128::MAX`).
#[verifier::spinoff_prover]
pub proof fn lemma_info_v6_lines_read_back(t: Seq<char>, c: Ipv6Cidr)
    requires
        c@.wf(),
    ensures
        ({
            let lines = info_text(t, IpSet::Cidr(IpCidr::V6(c)));
            &&& lines.len() == 5
            &&& lines[0] == t
            &&& field(lines[1], "  network:   "@) matches Some(x) && ipv6_text(x) matches Some(a)
                && lowest(c@, a)
            &&& field(lines[2], "  last:      "@) matches Some(x) && ipv6_text(x) matches Some(a)
                && highest(c@, a)
            &&& field(lines[3], "  prefix:    /"@) matches Some(x) && numeral(x, c@.prefix)
            &&& field(lines[4], "  addresses: "@) matches Some(x) && numeral(
                x,
                if c@.size() <= u128::MAX {
                    c@.size()
                } else {
                    u128::MAX as nat
                },
            )
        }),
{
    let b = c@;
    lemma_ipcidr_width(IpCidr::V6(c));
    lemma_wf_facts(b);
    lemma_pow2_widths();
    reveal_with_fuel(pow2_16k, 9);
    assert(pow2_16k(8) == 0x1_0000_0000_0000_0000_0000_0000_0000_0000);
    let lines = info_text(t, IpSet::Cidr(IpCidr::V6(c)));
    lemma_v6_text_round_trip(b.network);
    lemma_v6_text_round_trip(b.last() as nat);
    lemma_field_of("  network:   "@, crate::show::v6_text_of(b.network));
    lemma_field_of("  last:      "@, crate::show::v6_text_of(b.last() as nat));
    lemma_radix_digits(b.prefix, 10);
    lemma_field_of("  prefix:    /"@, crate::report::dec(b.prefix));
    let n = crate::report::saturating_count(b.network, b.last() as nat);
    lemma_radix_digits(n, 10);
    lemma_field_of("  addresses: "@, crate::report::dec(n));
}

/// The `--info` lines of an IPv4 block name what their labels say: the
/// network and broadcast lines read back as the lowest and highest
/// addresses of the block, the netmask as the address whose low host bits
/// are clear and high bits set (it and the block size sum to `2^32`), the
/// wildcard as the host bits alone (one less than the size), and the
/// prefix, addresses and hosts lines as numerals of the prefix length, the
/// size, and the usable hosts (all but the network and broadcast addresses,
/// except that a `/31` has two and a `/32` one).
#[verifier::spinoff_prover]
#[verifier::rlimit(40)]
pub proof fn lemma_info_v4_lines_read_back(t: Seq<char>, c: Ipv4Cidr)
    requires
        c@.wf(),
    ensures
        ({
            let lines = info_text(t, IpSet::Cidr(IpCidr::V4(c)));
            &&& lines.len() == 9
            &&& lines[0] == t
            &&& field(lines[1], "  network:   "@) matches Some(x) && ipv4_text(x) matches Some(a)
                && lowest(c@, a)
            &&& field(lines[2], "  broadcast: "@) matches Some(x) && ipv4_text(x) matches Some(a)
                && highest(c@, a)
            &&& field(lines[3], "  netmask:   "@) matches Some(x) && ipv4_text(x) matches Some(m)
                && m + c@.size() == 0x1_0000_0000
            &&& field(lines[4], "  wildcard:  "@) matches Some(x) && ipv4_text(x) matches Some(w)
                && w + 1 == c@.size()
            &&& field(lines[5], "  prefix:    /"@) matches Some(x) && numeral(x, c@.prefix)
            &&& field(lines[6], "  addresses: "@) matches Some(x) && numeral(x, c@.size())
            &&& field(lines[7], "  hosts:     "@) matches Some(x) && numeral(
                x,
                if c@.prefix == 32 {
                    1
                } else if c@.prefix == 31 {
                    2
                } else {
                    (c@.size() - 2) as nat
                },
            )
            &&& field(lines[8], "  class:     "@) == Some(class_label(c@))
        }),
{
    let b = c@;
    lemma_ipcidr_width(IpCidr::V4(c));
    lemma_wf_facts(b);
    lemma_pow2_widths();
    let lines = info_text(t, IpSet::Cidr(IpCidr::V4(c)));
    let mask = crate::cidr::mask_value(32, b.prefix);
    let wild = (b.size() - 1) as nat;
    lemma_v4_text_round_trip(b.network);
    lemma_v4_text_round_trip(b.last() as nat);
    lemma_v4_text_round_trip(mask);
    lemma_v4_text_round_trip(wild);
    lemma_field_of("  network:   "@, crate::show::v4_text_of(b.network));
    lemma_field_of("  broadcast: "@, crate::show::v4_text_of(b.last() as nat));
    lemma_field_of("  netmask:   "@, crate::show::v4_text_of(mask));
    lemma_field_of("  wildcard:  "@, crate::show::v4_text_of(wild));
    lemma_radix_digits(b.prefix, 10);
    lemma_field_of("  prefix:    /"@, crate::report::dec(b.prefix));
    lemma_radix_digits(b.size(), 10);
    lemma_field_of("  addresses: "@, crate::report::dec(b.size()));
    let h = crate::vlsm::host_capacity(b.prefix);
    lemma_radix_digits(h, 10);
    lemma_field_of("  hosts:     "@, crate::report::dec(h));
    lemma_field_of("  class:     "@, class_label(b));
    if b.prefix == 32 {
        assert(b.size() == 1) by {
            vstd::arithmetic::power2::lemma2_to64();
        }
    } else if b.prefix == 31 {
        assert(b.size() == 2) by {
            vstd::arithmetic::power2::lemma2_to64();
        }
    }
}

/// The `--info` lines of a range name what their labels say: the start and
/// end lines read back, in the notation of the range's family, as its
/// first and last addresses, and the addresses line is a numeral of the
/// number of addresses between them (at most `u128::MAX`).
#[verifier::spinoff_prover]
pub proof fn lemma_info_range_lines_read_back(t: Seq<char>, r: IpRange)
    requires
        r.span().0 <= r.span().1,
        r.span().1 < pow2(r.width()),
    ensures
        ({
            let lines = info_text(t, IpSet::Range(r));
            &&& lines.len() == 4
            &&& lines[0] == t
            &&& field(lines[1], "  start:     "@) matches Some(x) && (r is V4 ==> ipv4_text(x)
                == Some(r.span().0)) && (r is V6 ==> ipv6_text(x) == Some(r.span().0))
            &&& field(lines[2], "  end:       "@) matches Some(x) && (r is V4 ==> ipv4_text(x)
                == Some(r.span().1)) && (r is V6 ==> ipv6_text(x) == Some(r.span().1))
            &&& field(lines[3], "  addresses: "@) matches Some(x) && numeral(
                x,
                if r.span().1 - r.span().0 + 1 <= u128::MAX {
                    (r.span().1 - r.span().0 + 1) as nat
                } else {
                    u128::MAX as nat
                },
            )
        }),
{
    lemma_pow2_widths();
    reveal_with_fuel(pow2_16k, 9);
    assert(pow2_16k(8) == 0x1_0000_0000_0000_0000_0000_0000_0000_0000);
    let (a, e) = r.span();
    if r is V4 {
        lemma_v4_text_round_trip(a);
        lemma_v4_text_round_trip(e);
    } else {
        lemma_v6_text_round_trip(a);
        lemma_v6_text_round_trip(e);
    }
    lemma_field_of("  start:     "@, crate::show::addr_text_of(r.width(), a));
    lemma_field_of("  end:       "@, crate::show::addr_text_of(r.width(), e));
    let n = crate::report::saturating_count(a, e);
    lemma_radix_digits(n, 10);
    lemma_field_of("  addresses: "@, crate::report::dec(n));
}

/// The class line names the registry block an IPv4 block lies in, and
/// `global` when it lies in none of them.
pub proof fn lemma_v4_class_label_names_registry_block(b: Block)
    requires
        b.wf(),
        b.width == 32,
    ensures
        cidr(32, dotted(10, 0, 0, 0), 8).contains_block(b) || cidr(32, dotted(172, 16, 0, 0), 12).contains_block(b)
            || cidr(32, dotted(192, 168, 0, 0), 16).contains_block(b) ==> class_label(b) == "private"@,
        cidr(32, dotted(127, 0, 0, 0), 8).contains_block(b) ==> class_label(b) == "loopback"@,
        cidr(32, dotted(169, 254, 0, 0), 16).contains_block(b) ==> class_label(b) == "link-local"@,
        cidr(32, dotted(192, 0, 2, 0), 24).contains_block(b) || cidr(32, dotted(198, 51, 100, 0), 24).contains_block(b)
            || cidr(32, dotted(203, 0, 113, 0), 24).contains_block(b) ==> class_label(b) == "documentation"@,
        cidr(32, dotted(224, 0, 0, 0), 4).contains_block(b) ==> class_label(b) == "multicast"@,
        !(cidr(32, dotted(10, 0, 0, 0), 8).contains_block(b) || cidr(32, dotted(172, 16, 0, 0), 12).contains_block(b)
            || cidr(32, dotted(192, 168, 0, 0), 16).contains_block(b) || cidr(32, dotted(127, 0, 0, 0), 8).contains_block(b)
            || cidr(32, dotted(169, 254, 0, 0), 16).contains_block(b) || cidr(32, dotted(192, 0, 2, 0), 24).contains_block(b)
            || cidr(32, dotted(198, 51, 100, 0), 24).contains_block(b) || cidr(32, dotted(203, 0, 113, 0), 24).contains_block(b)
            || cidr(32, dotted(224, 0, 0, 0), 4).contains_block(b)) ==> class_label(b) == "global"@,
{
    lemma_wf_facts(b);
    lemma_v4_classes_are_registry_blocks(b);
    lemma2_to64();
}

/// Capitalising keeps slices.
proof fn lemma_upper_subrange(s: Seq<char>, a: int, b: int)
    requires
        0 <= a <= b <= s.len(),
    ensures
        upper_text(s).subrange(a, b) == upper_text(s.subrange(a, b)),
{
    assert(upper_text(s).subrange(a, b) =~= upper_text(s.subrange(a, b)));
}

/// A `::` found lies inside the text.
proof fn lemma_double_colon_bounds(s: Seq<char>)
    ensures
        find_double_colon(s) matches Some(k) ==> 0 <= k && k + 2 <= s.len(),
    decreases s.len(),
{
    if s.len() >= 2 {
        lemma_double_colon_bounds(s.drop_last());
    }
}

/// Capitalising does not move any `::`.
proof fn lemma_upper_double_colon(s: Seq<char>)
    ensures
        find_double_colon(upper_text(s)) == find_double_colon(s),
    decreases s.len(),
{
    if s.len() >= 2 {
        assert(upper_text(s).drop_last() =~= upper_text(s.drop_last()));
        lemma_upper_double_colon(s.drop_last());
        let u = upper_text(s);
        assert(u[u.len() - 2] == upper(s[s.len() - 2]));
        assert(u.last() == upper(s.last()));
    }
}

/// Splitting at a character that is no letter commutes with capitalising.
proof fn lemma_upper_split(s: Seq<char>, sep: char)
    requires
        !('a' <= sep <= 'z'),
        !('A' <= sep <= 'Z'),
    ensures
        split_on(upper_text(s), sep) == split_on(s, sep).map_values(|f: Seq<char>| upper_text(f)),
    decreases s.len(),
{
    if s.len() == 0 {
        assert(upper_text(s) =~= Seq::<char>::empty());
        assert(upper_text(Seq::<char>::empty()) =~= Seq::<char>::empty());
        assert(split_on(s, sep).map_values(|f: Seq<char>| upper_text(f)) =~= seq![Seq::<char>::empty()]);
    } else {
        let u = upper_text(s);
        assert(u.drop_last() =~= upper_text(s.drop_last()));
        lemma_upper_split(s.drop_last(), sep);
        let init = split_on(s.drop_last(), sep);
        let m = init.map_values(|f: Seq<char>| upper_text(f));
        assert(u.last() == upper(s.last()));
        crate::parse::lemma_split_on_len(s.drop_last(), sep);
        assert(upper_text(Seq::<char>::empty()) =~= Seq::<char>::empty());
        if s.last() == sep {
            assert(split_on(u, sep) == m.push(Seq::<char>::empty()));
            assert(init.push(Seq::empty()).map_values(|f: Seq<char>| upper_text(f)) =~= m.push(
                Seq::empty(),
            ));
        } else {
            let last = init.last();
            assert(m.last() == upper_text(last));
            assert(upper_text(last.push(s.last())) =~= upper_text(last).push(upper(s.last())));
            assert(u.last() != sep);
            assert(split_on(u, sep) == m.update(m.len() - 1, m.last().push(u.last())));
            assert(init.update(init.len() - 1, last.push(s.last())).map_values(
                |f: Seq<char>| upper_text(f),
            ) =~= m.update(m.len() - 1, m.last().push(u.last())));
        }
    }
}

/// Capitalising every field keeps the groups they spell.
proof fn lemma_upper_hex_fields(f: Seq<Seq<char>>)
    ensures
        hex_fields(f.map_values(|x: Seq<char>| upper_text(x))) == hex_fields(f),
    decreases f.len(),
{
    if f.len() > 0 {
        let m = f.map_values(|x: Seq<char>| upper_text(x));
        assert(m.drop_last() =~= f.drop_last().map_values(|x: Seq<char>| upper_text(x)));
        lemma_upper_hex_fields(f.drop_last());
        lemma_hex_group_either_case(f.last());
        assert(m.last() == upper_text(f.last()));
    }
}

/// A decimal digit string has no letters to capitalise.
proof fn lemma_upper_decimal(f: Seq<char>)
    requires
        all_radix_digits(f, 10),
    ensures
        upper_text(f) == f,
{
    assert forall|i: int| 0 <= i < f.len() implies upper_text(f)[i] == f[i] by {
        assert(radix_digit(f[i], 10));
    }
    assert(upper_text(f) =~= f);
}

/// Capitalising keeps what an octet reads as.
proof fn lemma_upper_octet(f: Seq<char>)
    ensures
        octet(upper_text(f)) == octet(f),
{
    if all_radix_digits(f, 10) {
        lemma_upper_decimal(f);
    } else {
        let i = choose|i: int| 0 <= i < f.len() && !#[trigger] radix_digit(f[i], 10);
        assert(upper_text(f)[i] == upper(f[i]));
        assert(!radix_digit(upper_text(f)[i], 10));
    }
}

/// The case of letters does not change what an IPv4 address reads as.
proof fn lemma_upper_ipv4(s: Seq<char>)
    ensures
        ipv4_text(upper_text(s)) == ipv4_text(s),
{
    lemma_upper_split(s, '.');
    let f = split_on(s, '.');
    let m = f.map_values(|x: Seq<char>| upper_text(x));
    if f.len() == 4 {
        lemma_upper_octet(f[0]);
        lemma_upper_octet(f[1]);
        lemma_upper_octet(f[2]);
        lemma_upper_octet(f[3]);
        assert(m[0] == upper_text(f[0]) && m[1] == upper_text(f[1]) && m[2] == upper_text(f[2]) && m[3]
            == upper_text(f[3]));
    }
}

/// Capitalising keeps the groups a run of fields spells.
proof fn lemma_upper_groups_text(s: Seq<char>, allow_v4: bool)
    ensures
        groups_text(upper_text(s), allow_v4) == groups_text(s, allow_v4),
{
    if s.len() > 0 {
        lemma_upper_split(s, ':');
        let f = split_on(s, ':');
        let m = f.map_values(|x: Seq<char>| upper_text(x));
        lemma_upper_hex_fields(f);
        if f.len() > 0 {
            assert(m.drop_last() =~= f.drop_last().map_values(|x: Seq<char>| upper_text(x)));
            lemma_upper_hex_fields(f.drop_last());
            lemma_upper_ipv4(f.last());
            assert(m.last() == upper_text(f.last()));
        }
    }
}

/// IPv6 addresses are read without regard to case: capitalising the hex
/// letters of any text gives the same address, or the same refusal.
pub proof fn lemma_ipv6_text_either_case(s: Seq<char>)
    ensures
        ipv6_text(upper_text(s)) == ipv6_text(s),
{
    let u = upper_text(s);
    lemma_upper_double_colon(s);
    match find_double_colon(s) {
        Some(k) => {
            lemma_double_colon_bounds(s);
            lemma_upper_subrange(s, 0, k);
            lemma_upper_subrange(s, k + 2, s.len() as int);
            lemma_upper_groups_text(s.subrange(0, k), false);
            lemma_upper_groups_text(s.subrange(k + 2, s.len() as int), true);
        },
        None => {
            lemma_upper_groups_text(s, true);
        },
    }
}

/// Capitalising keeps the leading white space.
proof fn lemma_upper_trim_start(s: Seq<char>)
    ensures
        trim_start(upper_text(s)) == upper_text(trim_start(s)),
    decreases s.len(),
{
    if s.len() > 0 {
        assert(upper_text(s).drop_first() =~= upper_text(s.drop_first()));
        assert(upper_text(s)[0] == upper(s[0]));
        lemma_upper_trim_start(s.drop_first());
    }
}

/// Capitalising keeps the trailing white space.
proof fn lemma_upper_trim_end(s: Seq<char>)
    ensures
        trim_end(upper_text(s)) == upper_text(trim_end(s)),
    decreases s.len(),
{
    if s.len() > 0 {
        assert(upper_text(s).drop_last() =~= upper_text(s.drop_last()));
        assert(upper_text(s).last() == upper(s.last()));
        lemma_upper_trim_end(s.drop_last());
    }
}

/// Capitalising commutes with trimming.
proof fn lemma_upper_trim(s: Seq<char>)
    ensures
        trim(upper_text(s)) == upper_text(trim(s)),
{
    lemma_upper_trim_start(s);
    lemma_upper_trim_end(trim_start(s));
}

/// A character found lies inside the text.
proof fn lemma_find_bounds(s: Seq<char>, c: char)
    ensures
        find(s, c) matches Some(i) ==> 0 <= i < s.len(),
    decreases s.len(),
{
    if s.len() > 0 {
        lemma_find_bounds(s.drop_last(), c);
    }
}

/// Capitalising does not move a character that is no letter.
proof fn lemma_upper_find(s: Seq<char>, c: char)
    requires
        !('a' <= c <= 'z'),
        !('A' <= c <= 'Z'),
    ensures
        find(upper_text(s), c) == find(s, c),
    decreases s.len(),
{
    if s.len() > 0 {
        assert(upper_text(s).drop_last() =~= upper_text(s.drop_last()));
        assert(upper_text(s).last() == upper(s.last()));
        lemma_upper_find(s.drop_last(), c);
    }
}

/// Capitalising keeps what a decimal number reads as.
proof fn lemma_upper_u8(f: Seq<char>)
    ensures
        u8_text(upper_text(f)) == u8_text(f),
{
    let u = upper_text(f);
    let d = if f.len() > 0 && f[0] == '+' { f.drop_first() } else { f };
    let e = if u.len() > 0 && u[0] == '+' { u.drop_first() } else { u };
    if f.len() > 0 {
        assert(u[0] == upper(f[0]));
        assert(u.drop_first() =~= upper_text(f.drop_first()));
    }
    assert(e == upper_text(d));
    if all_radix_digits(d, 10) {
        lemma_upper_decimal(d);
    } else {
        let i = choose|i: int| 0 <= i < d.len() && !#[trigger] radix_digit(d[i], 10);
        assert(e[i] == upper(d[i]));
        assert(!radix_digit(e[i], 10));
    }
}

/// IPv6 blocks are read without regard to case: when either spelling of a
/// block reads as a block, the other reads as the same block.
pub proof fn lemma_ipv6_cidr_text_either_case(s: Seq<char>)
    ensures
        cidr_text(128, s) is Ok <==> cidr_text(128, upper_text(s)) is Ok,
        cidr_text(128, s) is Ok ==> cidr_text(128, upper_text(s)) == cidr_text(128, s),
{
    let t = trim(s);
    lemma_upper_trim(s);
    let u = upper_text(t);
    if t.len() > 0 {
        lemma_upper_find(t, '/');
        match find(t, '/') {
            Some(i) => {
                lemma_find_bounds(t, '/');
                assert(u.take(i) =~= upper_text(t.take(i)));
                assert(u.skip(i + 1) =~= upper_text(t.skip(i + 1)));
                lemma_upper_trim(t.take(i));
                lemma_upper_trim(t.skip(i + 1));
                lemma_ipv6_text_either_case(trim(t.take(i)));
                let p = trim(t.skip(i + 1));
                lemma_upper_u8(p);
                lemma_ipv6_text_either_case(p);
                assert(prefix_text(128, upper_text(p)) == prefix_text(128, p));
            },
            None => {},
        }
    }
}

/// A decimal digit string without a leading zero is the numeral the library
/// prints for its value.
proof fn lemma_canonical_decimal(f: Seq<char>)
    requires
        f.len() >= 1,
        all_radix_digits(f, 10),
        !(f.len() > 1 && f[0] == '0'),
    ensures
        radix_digits(digits_value(f, 10), 10) == f,
        f[0] != '0' ==> digits_value(f, 10) >= 1,
        f.len() > 1 ==> digits_value(f, 10) >= 10,
    decreases f.len(),
{
    let c = f.last();
    assert(radix_digit(f[f.len() - 1], 10));
    lemma_hex_digit_is_a_digit_char(c);
    let d = hex_val(c);
    assert(d < 10);
    assert(digit_char(d) == c);
    if f.len() == 1 {
        assert(f.drop_last() =~= Seq::<char>::empty());
        assert(digits_value(Seq::<char>::empty(), 10) == 0);
        assert(digits_value(f, 10) == digits_value(f.drop_last(), 10) * 10 + hex_val(f.last()));
        assert(digits_value(f, 10) == d);
        assert(radix_digits(d, 10) =~= seq![digit_char(d)]);
        assert(f =~= seq![c]);
    } else {
        let g = f.drop_last();
        assert(g[0] == f[0]);
        assert forall|i: int| 0 <= i < g.len() implies #[trigger] radix_digit(g[i], 10) by {
            assert(g[i] == f[i]);
        }
        lemma_canonical_decimal(g);
        let v = digits_value(g, 10);
        let n = digits_value(f, 10);
        assert(n == v * 10 + d);
        assert(v >= 1);
        assert(n / 10 == v && n % 10 == d) by (nonlinear_arith)
            requires
                n == v * 10 + d,
                d < 10,
        ;
        assert(radix_digits(n, 10) == radix_digits(n / 10, 10).push(digit_char(n % 10)));
        assert(g.push(c) =~= f);
    }
}

/// The printed numeral of a value up to 255 has at most three digits.
proof fn lemma_short_decimal(v: nat)
    requires
        v <= 255,
    ensures
        radix_digits(v, 10).len() <= 3,
{
    if v >= 10 {
        assert(radix_digits(v, 10) == radix_digits(v / 10, 10).push(digit_char(v % 10)));
        if v / 10 >= 10 {
            assert(radix_digits(v / 10, 10) == radix_digits(v / 10 / 10, 10).push(
                digit_char((v / 10) % 10),
            ));
            assert(v / 10 / 10 < 10);
        }
    }
}

/// An IPv4 octet is written exactly as the decimal numeral of a value up
/// to 255: `010` or `1a` is no octet, and every value up to 255 is read
/// back from its numeral.
pub proof fn lemma_octet_is_decimal_numeral(f: Seq<char>, v: nat)
    ensures
        octet(f) == Some(v) <==> v <= 255 && f == radix_digits(v, 10),
{
    if octet(f) == Some(v) {
        lemma_canonical_decimal(f);
    }
    if v <= 255 && f == radix_digits(v, 10) {
        lemma_radix_digits(v, 10);
        lemma_short_decimal(v);
        if f.len() > 1 {
            assert(v >= 10);
        }
    }
}

} // verus!
