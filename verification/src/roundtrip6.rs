//! Reading back what was written, for IPv6: the standard text of an
//! address, block or range reads back as the same value.

use vstd::prelude::*;

use crate::addr::pow2_16k;
use crate::block::{lemma_round_down_in_block, lemma_wf_facts, Block};
use crate::parse::{
    all_radix_digits, find, find_double_colon, octet, groups_text, groups_value, hex_fields, hex_group, ipv4_text,
    ipv6_text, is_digit, is_hex, lemma_find_double_colon_extends, radix_digit, split_on,
};
use crate::read::{cidr_text, ip_cidr_text, ip_range_text, range_text, target_text, TargetForm};
use crate::roundtrip::{
    lemma_dec_chars, lemma_find_after, lemma_find_none, lemma_v4_cidr_text_round_trip,
    lemma_v4_range_text_round_trip, lemma_radix_digits, lemma_split_concat, lemma_split_single,
    lemma_trim_plain, lemma_u8_of_dec, lemma_v4_text_round_trip, dotted_chars,
};
use crate::show::{cidr_text_of, hex_join, longest_zero_run, range_text_of, v4_text_of, v6_groups, v6_text_of, zero_run};
use crate::text::radix_digits;

verus! {

/// Numbers below `0x1_0000` have at most four hex digits.
proof fn lemma_hex_len(n: nat)
    requires
        n < 0x1_0000,
    ensures
        radix_digits(n, 16).len() <= 4,
{
    if n >= 16 {
        let q1 = n / 16;
        assert(radix_digits(n, 16).len() == radix_digits(q1, 16).len() + 1);
        if q1 >= 16 {
            let q2 = q1 / 16;
            assert(radix_digits(q1, 16).len() == radix_digits(q2, 16).len() + 1);
            if q2 >= 16 {
                let q3 = q2 / 16;
                assert(q3 < 16);
                assert(radix_digits(q2, 16).len() == radix_digits(q3, 16).len() + 1);
                assert(radix_digits(q3, 16).len() == 1);
            } else {
                assert(radix_digits(q2, 16).len() == 1);
            }
        } else {
            assert(radix_digits(q1, 16).len() == 1);
        }
    } else {
        assert(radix_digits(n, 16).len() == 1);
    }
}

/// The hex text of a 16-bit group reads back as that group.
proof fn lemma_hex_group_of(n: nat)
    requires
        n < 0x1_0000,
    ensures
        hex_group(radix_digits(n, 16)) == Some(n),
{
    lemma_radix_digits(n, 16);
    lemma_hex_len(n);
}

/// The hex texts of groups.
pub open spec fn group_texts(g: Seq<nat>) -> Seq<Seq<char>> {
    g.map_values(|x: nat| radix_digits(x, 16))
}

/// Hex digits are not colons.
proof fn lemma_hex_digits_no_colon(n: nat)
    ensures
        forall|i: int|
            0 <= i < radix_digits(n, 16).len() ==> is_hex(#[trigger] radix_digits(n, 16)[i]),
{
    lemma_radix_digits(n, 16);
    assert forall|i: int| 0 <= i < radix_digits(n, 16).len() implies is_hex(#[trigger] radix_digits(n, 16)[i]) by {
        assert(radix_digit(radix_digits(n, 16)[i], 16));
    }
}

/// Groups joined by colons split back into their texts.
proof fn lemma_split_hex_join(g: Seq<nat>)
    requires
        g.len() >= 1,
    ensures
        split_on(hex_join(g), ':') == group_texts(g),
    decreases g.len(),
{
    lemma_hex_digits_no_colon(g.last());
    let d = radix_digits(g.last(), 16);
    assert(forall|i: int| 0 <= i < d.len() ==> d[i] != ':') by {
        assert forall|i: int| 0 <= i < d.len() implies d[i] != ':' by {
            assert(is_hex(d[i]));
        }
    }
    lemma_split_single(d, ':');
    if g.len() == 1 {
        assert(g.last() == g[0]);
        assert(group_texts(g) =~= seq![d]);
    } else {
        let g0 = g.drop_last();
        lemma_split_hex_join(g0);
        assert(hex_join(g) =~= hex_join(g0).push(':') + d);
        lemma_split_concat(hex_join(g0), d, ':');
        assert(group_texts(g) =~= group_texts(g0) + seq![d]);
    }
}

/// The texts of 16-bit groups read back as the groups.
proof fn lemma_hex_fields_of(g: Seq<nat>)
    requires
        forall|i: int| 0 <= i < g.len() ==> #[trigger] g[i] < 0x1_0000,
    ensures
        hex_fields(group_texts(g)) == Some(g),
    decreases g.len(),
{
    if g.len() > 0 {
        let g0 = g.drop_last();
        assert forall|i: int| 0 <= i < g0.len() implies #[trigger] g0[i] < 0x1_0000 by {
            assert(g0[i] == g[i]);
        }
        lemma_hex_fields_of(g0);
        let f = group_texts(g);
        assert(f.drop_last() =~= group_texts(g0));
        assert(g.last() == g[g.len() - 1]);
        lemma_hex_group_of(g.last());
        assert(g0.push(g.last()) =~= g);
    } else {
        assert(group_texts(g) =~= Seq::<Seq<char>>::empty());
        assert(g =~= Seq::<nat>::empty());
    }
}

/// Hex digits and colons, with no two colons in a row, and a hex digit at
/// each end.
pub open spec fn colon_text(s: Seq<char>) -> bool {
    &&& forall|i: int| 0 <= i < s.len() ==> is_hex(#[trigger] s[i]) || s[i] == ':'
    &&& forall|i: int| 0 <= i < s.len() - 1 ==> !(#[trigger] s[i] == ':' && s[i + 1] == ':')
    &&& s.len() > 0 ==> is_hex(s[0]) && is_hex(s.last())
}

/// Joined groups are colon text, and nonempty when there are groups.
proof fn lemma_hex_join_chars(g: Seq<nat>)
    ensures
        colon_text(hex_join(g)),
        g.len() > 0 ==> hex_join(g).len() > 0,
    decreases g.len(),
{
    if g.len() > 0 {
        lemma_hex_digits_no_colon(g.last());
        lemma_radix_digits(g.last(), 16);
        let d = radix_digits(g.last(), 16);
        if g.len() == 1 {
            assert(g.last() == g[0]);
        } else {
            let g0 = g.drop_last();
            lemma_hex_join_chars(g0);
            let h = hex_join(g0);
            let s = hex_join(g);
            assert(s =~= h + seq![':'] + d);
            assert forall|i: int| 0 <= i < s.len() implies is_hex(#[trigger] s[i]) || s[i] == ':' by {
                if i < h.len() {
                    assert(s[i] == h[i]);
                } else if i > h.len() {
                    assert(s[i] == d[i - h.len() - 1]);
                }
            }
            assert forall|i: int| 0 <= i < s.len() - 1 implies !(#[trigger] s[i] == ':' && s[i + 1] == ':') by {
                if i + 1 < h.len() {
                    assert(s[i] == h[i] && s[i + 1] == h[i + 1]);
                } else if i + 1 == h.len() {
                    assert(s[i] == h[i]);
                    assert(h[i] == h.last());
                } else if i == h.len() {
                    assert(s[i + 1] == d[0]);
                } else {
                    assert(s[i] == d[i - h.len() - 1]);
                }
            }
            assert(s[0] == h[0]);
            assert(s.last() == d.last());
            assert(is_hex(d[d.len() - 1]));
        }
    }
}

/// Text without two colons in a row holds no `::`.
proof fn lemma_find_dc_none(s: Seq<char>)
    requires
        forall|i: int| 0 <= i < s.len() - 1 ==> !(#[trigger] s[i] == ':' && s[i + 1] == ':'),
    ensures
        find_double_colon(s) is None,
    decreases s.len(),
{
    if s.len() >= 2 {
        let s0 = s.drop_last();
        assert forall|i: int| 0 <= i < s0.len() - 1 implies !(#[trigger] s0[i] == ':' && s0[i + 1] == ':') by {
            assert(s0[i] == s[i] && s0[i + 1] == s[i + 1]);
        }
        lemma_find_dc_none(s0);
        assert(!(s[s.len() - 2] == ':' && s[s.len() - 2 + 1] == ':'));
    }
}

/// The first `::` of colon text followed by `::` is right after it.
proof fn lemma_find_dc_join(h: Seq<char>, t: Seq<char>)
    requires
        colon_text(h),
    ensures
        find_double_colon(h.push(':').push(':') + t) == Some(h.len() as int),
{
    let h1 = h.push(':');
    let h2 = h1.push(':');
    let u = h2 + t;
    assert forall|i: int| 0 <= i < h1.len() - 1 implies !(#[trigger] h1[i] == ':' && h1[i + 1] == ':') by {
        if i + 1 < h.len() {
            assert(h1[i] == h[i] && h1[i + 1] == h[i + 1]);
        } else {
            assert(h1[i] == h[i]);
            assert(h[i] == h.last());
        }
    }
    lemma_find_dc_none(h1);
    assert(h2.drop_last() =~= h1);
    assert(find_double_colon(h2) == Some(h.len() as int));
    assert(u.take(h2.len() as int) =~= h2);
    lemma_find_double_colon_extends(u, h2.len() as int);
}

/// The groups of the first `k` positions read as the value above the
/// remaining ones.
proof fn lemma_groups_prefix(v: nat, k: nat)
    requires
        v < pow2_16k(8),
        k <= 8,
    ensures
        groups_value(v6_groups(v).take(k as int)) == v / pow2_16k((8 - k) as nat),
    decreases k,
{
    reveal_with_fuel(pow2_16k, 9);
    let g = v6_groups(v);
    if k == 0 {
        assert(g.take(0) =~= Seq::<nat>::empty());
        vstd::arithmetic::div_mod::lemma_basic_div(v as int, pow2_16k(8) as int);
    } else {
        lemma_groups_prefix(v, (k - 1) as nat);
        assert(g.take(k as int).drop_last() =~= g.take(k - 1));
        let p = pow2_16k((8 - k) as nat);
        crate::addr::lemma_pow2_16k_pos((8 - k) as nat);
        assert(pow2_16k((8 - k + 1) as nat) == p * 0x1_0000);
        let w = v / p;
        vstd::arithmetic::div_mod::lemma_div_denominator(v as int, p as int, 0x1_0000);
        vstd::arithmetic::div_mod::lemma_fundamental_div_mod(w as int, 0x1_0000);
        assert(g[k - 1] == w % 0x1_0000);
    }
}

/// The groups of a 128-bit value are 16-bit and add back up to it.
pub proof fn lemma_v6_groups_value(v: nat)
    requires
        v < pow2_16k(8),
    ensures
        groups_value(v6_groups(v)) == v,
        v6_groups(v).len() == 8,
        forall|i: int| 0 <= i < 8 ==> #[trigger] v6_groups(v)[i] < 0x1_0000,
{
    lemma_groups_prefix(v, 8);
    assert(v6_groups(v).take(8) =~= v6_groups(v));
    assert(pow2_16k(0) == 1);
    assert(v / 1 == v);
}

/// The zero run at `i` is made of zeros and ends inside the groups.
proof fn lemma_zero_run_zeros(g: Seq<nat>, i: int)
    requires
        0 <= i <= g.len(),
    ensures
        i + zero_run(g, i) <= g.len(),
        forall|k: int| i <= k < i + zero_run(g, i) ==> #[trigger] g[k] == 0,
    decreases g.len() - i,
{
    if i < g.len() && g[i] == 0 {
        lemma_zero_run_zeros(g, i + 1);
    }
}

/// The longest run found is a run of zeros inside the groups.
proof fn lemma_longest_run(g: Seq<nat>, n: nat)
    requires
        n <= g.len(),
    ensures
        longest_zero_run(g, n).1 > 0 ==> longest_zero_run(g, n).0 < n && longest_zero_run(g, n).1
            == zero_run(g, longest_zero_run(g, n).0 as int),
    decreases n,
{
    if n > 0 {
        lemma_longest_run(g, (n - 1) as nat);
    }
}

/// Groups written out in full read back as the address.
proof fn lemma_v6_plain_round_trip(v: nat)
    requires
        v < pow2_16k(8),
    ensures
        ipv6_text(hex_join(v6_groups(v))) == Some(v),
{
    let g = v6_groups(v);
    lemma_v6_groups_value(v);
    let t = hex_join(g);
    lemma_hex_join_chars(g);
    lemma_find_dc_none(t);
    lemma_split_hex_join(g);
    lemma_hex_fields_of(g);
}

/// The text with the first longest zero run written as `::` reads back as
/// the address.
proof fn lemma_v6_compressed_round_trip(v: nat)
    requires
        v < pow2_16k(8),
        longest_zero_run(v6_groups(v), 8).1 > 1,
    ensures
        ipv6_text(
            hex_join(v6_groups(v).take(longest_zero_run(v6_groups(v), 8).0 as int)) + seq![':', ':']
                + hex_join(
                v6_groups(v).skip(
                    (longest_zero_run(v6_groups(v), 8).0 + longest_zero_run(v6_groups(v), 8).1) as int,
                ),
            ),
        ) == Some(v),
{
    let g = v6_groups(v);
    lemma_v6_groups_value(v);
    let st = longest_zero_run(g, 8).0;
    let l = longest_zero_run(g, 8).1;
    lemma_longest_run(g, 8);
    lemma_zero_run_zeros(g, st as int);
    let a = g.take(st as int);
    let b = g.skip((st + l) as int);
    let h = hex_join(a);
    let tl = hex_join(b);
    lemma_hex_join_chars(a);
    lemma_hex_join_chars(b);
    let t = h + seq![':', ':'] + tl;
    assert(t =~= h.push(':').push(':') + tl);
    lemma_find_dc_join(h, tl);
    assert(t.subrange(0, h.len() as int) =~= h);
    assert(t.subrange(h.len() as int + 2, t.len() as int) =~= tl);
    assert forall|i: int| 0 <= i < a.len() implies #[trigger] a[i] < 0x1_0000 by {
        assert(a[i] == g[i]);
    }
    assert forall|i: int| 0 <= i < b.len() implies #[trigger] b[i] < 0x1_0000 by {
        assert(b[i] == g[i + st + l]);
    }
    if a.len() == 0 {
        assert(a =~= Seq::<nat>::empty());
    } else {
        lemma_split_hex_join(a);
        lemma_hex_fields_of(a);
    }
    if b.len() == 0 {
        assert(b =~= Seq::<nat>::empty());
    } else {
        lemma_split_hex_join(b);
        lemma_hex_fields_of(b);
    }
    let z = Seq::new((8 - a.len() - b.len()) as nat, |i: int| 0nat);
    assert(a + z + b =~= g) by {
        assert forall|k: int| 0 <= k < g.len() implies #[trigger] (a + z + b)[k] == g[k] by {
            if k < st {
            } else if k < st + l {
                assert(g[k] == 0);
            } else {
                assert((a + z + b)[k] == b[k - st - l]);
            }
        }
    }
}

/// Four `f`s read as the all-ones group.
proof fn lemma_ffff_group()
    ensures
        hex_group(seq!['f', 'f', 'f', 'f']) == Some(0xffffnat),
{
    let ffff = seq!['f', 'f', 'f', 'f'];
    assert(ffff.drop_last() =~= seq!['f', 'f', 'f']);
    assert(seq!['f', 'f', 'f'].drop_last() =~= seq!['f', 'f']);
    assert(seq!['f', 'f'].drop_last() =~= seq!['f']);
    assert(seq!['f'].drop_last() =~= Seq::<char>::empty());
    assert(crate::parse::hex_val('f') == 15);
    assert(seq!['f'].last() == 'f');
    assert(seq!['f', 'f'].last() == 'f');
    assert(seq!['f', 'f', 'f'].last() == 'f');
    assert(ffff.last() == 'f');
    assert(crate::parse::digits_value(Seq::<char>::empty(), 16) == 0);
    assert(crate::parse::digits_value(seq!['f'], 16) == 15);
    assert(crate::parse::digits_value(seq!['f', 'f'], 16) == 255);
    assert(crate::parse::digits_value(seq!['f', 'f', 'f'], 16) == 4095);
    assert(crate::parse::digits_value(ffff, 16) == 65535);
    assert(crate::parse::all_radix_digits(ffff, 16));
}

/// `ffff:` then a dotted-decimal address splits at the colon into two
/// fields.
proof fn lemma_split_mapped(w: nat)
    requires
        w < 0x1_0000_0000,
    ensures
        split_on(seq!['f', 'f', 'f', 'f'].push(':') + v4_text_of(w), ':') == seq![
            seq!['f', 'f', 'f', 'f'],
            v4_text_of(w),
        ],
{
    let x = v4_text_of(w);
    lemma_v4_text_round_trip(w);
    let ffff = seq!['f', 'f', 'f', 'f'];
    assert(forall|i: int| 0 <= i < ffff.len() ==> ffff[i] != ':');
    assert(forall|i: int| 0 <= i < x.len() ==> x[i] != ':') by {
        assert forall|i: int| 0 <= i < x.len() implies x[i] != ':' by {
            assert(is_digit(x[i]) || x[i] == '.');
        }
    }
    lemma_split_single(ffff, ':');
    lemma_split_single(x, ':');
    lemma_split_concat(ffff, x, ':');
    assert(split_on(ffff.push(':') + x, ':') =~= seq![ffff, x]);
}

/// Dotted-decimal text is not a hex group: it holds a dot.
proof fn lemma_v4_text_not_hex(w: nat)
    requires
        w < 0x1_0000_0000,
    ensures
        hex_group(v4_text_of(w)) is None,
{
    lemma_v4_text_round_trip(w);
}

/// The fields `ffff` and a dotted-decimal address are not all hex groups,
/// but `ffff` alone is.
proof fn lemma_hex_fields_mapped(w: nat)
    requires
        w < 0x1_0000_0000,
    ensures
        hex_fields(seq![seq!['f', 'f', 'f', 'f'], v4_text_of(w)]) is None,
        hex_fields(seq![seq!['f', 'f', 'f', 'f']]) == Some(seq![0xffffnat]),
{
    let x = v4_text_of(w);
    lemma_v4_text_not_hex(w);
    let ffff = seq!['f', 'f', 'f', 'f'];
    let f = seq![ffff, x];
    assert(f.drop_last() =~= seq![ffff]);
    assert(f.last() == x);
    assert(seq![ffff].drop_last() =~= Seq::<Seq<char>>::empty());
    assert(seq![ffff].last() == ffff);
    lemma_ffff_group();
    assert(hex_fields(Seq::<Seq<char>>::empty()) == Some(Seq::<nat>::empty()));
    assert(hex_fields(seq![ffff]) == Some(Seq::<nat>::empty().push(0xffffnat)));
    assert(Seq::<nat>::empty().push(0xffffnat) =~= seq![0xffffnat]);
}

/// `ffff:` then a dotted-decimal address reads as the all-ones group then
/// the address's two groups.
proof fn lemma_mapped_tail(w: nat)
    requires
        w < 0x1_0000_0000,
    ensures
        groups_text(seq!['f', 'f', 'f', 'f'].push(':') + v4_text_of(w), true) == Some(
            seq![0xffffnat, w / 0x1_0000, w % 0x1_0000],
        ),
{
    let x = v4_text_of(w);
    let ffff = seq!['f', 'f', 'f', 'f'];
    let rest = ffff.push(':') + x;
    lemma_split_mapped(w);
    lemma_hex_fields_mapped(w);
    lemma_v4_text_round_trip(w);
    let f = split_on(rest, ':');
    assert(f.drop_last() =~= seq![ffff]);
    assert(f.last() == x);
    assert(rest.len() > 0);
    assert(seq![0xffffnat].push(w / 0x1_0000).push(w % 0x1_0000) =~= seq![0xffffnat, w / 0x1_0000, w % 0x1_0000]);
}

/// The low two groups of a 128-bit value are its low 32 bits, split.
proof fn lemma_low_groups(v: u128)
    ensures
        (v % 0x1_0000_0000) / 0x1_0000 == (v / 0x1_0000) % 0x1_0000,
        (v % 0x1_0000_0000) % 0x1_0000 == v % 0x1_0000,
{
    assert((v % 0x1_0000_0000) / 0x1_0000 == (v / 0x1_0000) % 0x1_0000) by (bit_vector);
    assert((v % 0x1_0000_0000) % 0x1_0000 == v % 0x1_0000) by (bit_vector);
}

/// The text of an IPv4-mapped address reads back as the address.
proof fn lemma_v6_mapped_round_trip(v: nat)
    requires
        v < pow2_16k(8),
        v6_groups(v)[0] == 0 && v6_groups(v)[1] == 0 && v6_groups(v)[2] == 0 && v6_groups(v)[3] == 0
            && v6_groups(v)[4] == 0 && v6_groups(v)[5] == 0xffff,
    ensures
        ipv6_text(seq![':', ':', 'f', 'f', 'f', 'f', ':'] + v4_text_of(v % 0x1_0000_0000)) == Some(v),
{
    let g = v6_groups(v);
    lemma_v6_groups_value(v);
    let w = v % 0x1_0000_0000;
    let x = v4_text_of(w);
    let ffff = seq!['f', 'f', 'f', 'f'];
    let rest = ffff.push(':') + x;
    let t = seq![':', ':', 'f', 'f', 'f', 'f', ':'] + x;
    assert(t =~= Seq::<char>::empty().push(':').push(':') + rest);
    lemma_find_dc_join(Seq::<char>::empty(), rest);
    assert(t.subrange(0, 0) =~= Seq::<char>::empty());
    assert(t.subrange(2, t.len() as int) =~= rest);
    lemma_mapped_tail(w);
    assert(pow2_16k(8) == 0x1_0000_0000_0000_0000_0000_0000_0000_0000) by {
        reveal_with_fuel(pow2_16k, 9);
    }
    assert(pow2_16k(1) == 0x1_0000 && pow2_16k(0) == 1) by {
        reveal_with_fuel(pow2_16k, 2);
    }
    lemma_low_groups(v as u128);
    assert(g[6] == (v / 0x1_0000) % 0x1_0000);
    assert(g[7] == (v / 1) % 0x1_0000);
    let parts = seq![0xffffnat, w / 0x1_0000, w % 0x1_0000];
    let z = Seq::new((8 - 0 - parts.len()) as nat, |i: int| 0nat);
    assert(Seq::<nat>::empty() + z + parts =~= g);
}

/// The standard text of an IPv6 address reads back as the address; it is
/// made of hex digits, colons and dots, and is never empty.
pub proof fn lemma_v6_text_round_trip(v: nat)
    requires
        v < pow2_16k(8),
    ensures
        ipv6_text(v6_text_of(v)) == Some(v),
{
    let g = v6_groups(v);
    if g[0] == 0 && g[1] == 0 && g[2] == 0 && g[3] == 0 && g[4] == 0 && g[5] == 0xffff {
        lemma_v6_mapped_round_trip(v);
    } else if longest_zero_run(g, 8).1 > 1 {
        lemma_v6_compressed_round_trip(v);
    } else {
        lemma_v6_plain_round_trip(v);
    }
}

/// Characters of IPv6 text: hex digits, colons and dots.
pub open spec fn v6_chars(s: Seq<char>) -> bool {
    forall|i: int| 0 <= i < s.len() ==> is_hex(#[trigger] s[i]) || s[i] == ':' || s[i] == '.'
}

/// The standard text of an IPv6 address is nonempty and made of hex
/// digits, colons and dots.
proof fn lemma_v6_text_chars(v: nat)
    requires
        v < pow2_16k(8),
    ensures
        v6_text_of(v).len() > 0,
        v6_chars(v6_text_of(v)),
{
    let g = v6_groups(v);
    let t = v6_text_of(v);
    if g[0] == 0 && g[1] == 0 && g[2] == 0 && g[3] == 0 && g[4] == 0 && g[5] == 0xffff {
        let w = v % 0x1_0000_0000;
        let x = v4_text_of(w);
        lemma_v4_text_round_trip(w);
        let head = seq![':', ':', 'f', 'f', 'f', 'f', ':'];
        assert forall|i: int| 0 <= i < t.len() implies is_hex(#[trigger] t[i]) || t[i] == ':' || t[i] == '.' by {
            if i < 7 {
                assert(t[i] == head[i]);
            } else {
                assert(t[i] == x[i - 7]);
                assert(is_digit(x[i - 7]) || x[i - 7] == '.');
            }
        }
    } else if longest_zero_run(g, 8).1 > 1 {
        let st = longest_zero_run(g, 8).0;
        let l = longest_zero_run(g, 8).1;
        let h = hex_join(g.take(st as int));
        let tl = hex_join(g.skip((st + l) as int));
        lemma_hex_join_chars(g.take(st as int));
        lemma_hex_join_chars(g.skip((st + l) as int));
        assert forall|i: int| 0 <= i < t.len() implies is_hex(#[trigger] t[i]) || t[i] == ':' || t[i] == '.' by {
            if i < h.len() {
                assert(t[i] == h[i]);
            } else if i >= h.len() + 2 {
                assert(t[i] == tl[i - h.len() - 2]);
            }
        }
    } else {
        lemma_v6_groups_value(v);
        lemma_hex_join_chars(g);
    }
}

/// IPv6 text holds no white space, `/` or `-`.
proof fn lemma_v6_text_plain(v: nat)
    requires
        v < pow2_16k(8),
    ensures
        v6_text_of(v).len() > 0,
        !crate::parse::is_space(v6_text_of(v)[0]),
        !crate::parse::is_space(v6_text_of(v).last()),
        forall|i: int| 0 <= i < v6_text_of(v).len() ==> v6_text_of(v)[i] != '/' && v6_text_of(v)[i] != '-',
{
    lemma_v6_text_chars(v);
    let t = v6_text_of(v);
    assert(is_hex(t[0]) || t[0] == ':' || t[0] == '.');
    assert(is_hex(t[t.len() - 1]) || t[t.len() - 1] == ':' || t[t.len() - 1] == '.');
    assert forall|i: int| 0 <= i < t.len() implies t[i] != '/' && t[i] != '-' by {
        assert(is_hex(t[i]) || t[i] == ':' || t[i] == '.');
    }
}

/// `pow2_16k(8)` is the size of the IPv6 address space.
proof fn lemma_pow2_16k_8()
    ensures
        pow2_16k(8) == vstd::arithmetic::power2::pow2(128),
{
    reveal_with_fuel(pow2_16k, 9);
    crate::block::lemma_pow2_widths();
}

/// The text `network/prefix` of an IPv6 block reads back as the block.
pub proof fn lemma_v6_cidr_text_round_trip(b: Block)
    requires
        b.wf(),
        b.width == 128,
    ensures
        cidr_text(128, cidr_text_of(128, b.network, b.prefix)) == Ok::<Block, crate::error::ParseFailure>(b),
{
    lemma_wf_facts(b);
    lemma_pow2_16k_8();
    let x = v6_text_of(b.network);
    let y = radix_digits(b.prefix, 10);
    lemma_v6_text_round_trip(b.network);
    lemma_v6_text_plain(b.network);
    lemma_dec_chars(b.prefix);
    lemma_radix_digits(b.prefix, 10);
    let t = cidr_text_of(128, b.network, b.prefix);
    assert(t =~= x.push('/') + y);
    assert(t[0] == x[0]);
    assert(t.last() == y.last());
    assert(is_digit(y[y.len() - 1]));
    lemma_trim_plain(t);
    lemma_find_after(x, '/', y);
    assert(t.take(x.len() as int) =~= x);
    assert(t.skip(x.len() as int + 1) =~= y);
    lemma_trim_plain(x);
    assert(is_digit(y[0]));
    lemma_trim_plain(y);
    lemma_u8_of_dec(b.prefix);
    lemma_round_down_in_block(b.network as int, b.network as int, b.size() as int);
}

/// The text `start-end` of an IPv6 range reads back as the range.
pub proof fn lemma_v6_range_text_round_trip(a: nat, e: nat)
    requires
        a <= e < vstd::arithmetic::power2::pow2(128),
    ensures
        range_text(128, range_text_of(128, a, e)) == Ok::<(nat, nat), crate::error::ParseFailure>((a, e)),
{
    lemma_pow2_16k_8();
    let x = v6_text_of(a);
    let y = v6_text_of(e);
    lemma_v6_text_round_trip(a);
    lemma_v6_text_round_trip(e);
    lemma_v6_text_plain(a);
    lemma_v6_text_plain(e);
    let t = range_text_of(128, a, e);
    assert(t =~= x.push('-') + y);
    assert(t[0] == x[0]);
    assert(t.last() == y.last());
    lemma_trim_plain(t);
    lemma_find_after(x, '-', y);
    assert(t.take(x.len() as int) =~= x);
    assert(t.skip(x.len() as int + 1) =~= y);
    lemma_trim_plain(x);
    lemma_trim_plain(y);
}

/// Every character of a text other than the separator lies in one of its
/// fields.
proof fn lemma_split_field_chars(s: Seq<char>, sep: char, i: int)
    requires
        0 <= i < s.len(),
        s[i] != sep,
    ensures
        exists|j: int, k: int|
            0 <= j < split_on(s, sep).len() && 0 <= k < split_on(s, sep)[j].len()
                && #[trigger] split_on(s, sep)[j][k] == s[i],
    decreases s.len(),
{
    let s0 = s.drop_last();
    let f0 = split_on(s0, sep);
    let f = split_on(s, sep);
    crate::parse::lemma_split_on_len(s0, sep);
    if i < s.len() - 1 {
        assert(s0[i] == s[i]);
        lemma_split_field_chars(s0, sep, i);
        let (j, k) = choose|j: int, k: int|
            0 <= j < f0.len() && 0 <= k < f0[j].len() && #[trigger] f0[j][k] == s0[i];
        if s.last() == sep {
            assert(f[j] == f0[j]);
            assert(f[j][k] == s[i]);
        } else {
            if j < f0.len() - 1 {
                assert(f[j] == f0[j]);
            } else {
                assert(f[j] == f0[j].push(s.last()));
            }
            assert(f[j][k] == s[i]);
        }
    } else {
        assert(s.last() == s[i]);
        let j = f0.len() - 1;
        assert(f[j] == f0[j].push(s.last()));
        assert(f[j][f0[j].len() as int] == s[i]);
    }
}

/// An IPv4 address text holds no colon.
proof fn lemma_ipv4_text_no_colon(s: Seq<char>, i: int)
    requires
        ipv4_text(s) is Some,
        0 <= i < s.len(),
    ensures
        s[i] != ':',
{
    if s[i] != '.' {
        lemma_split_field_chars(s, '.', i);
        let f = split_on(s, '.');
        let (j, k) = choose|j: int, k: int|
            0 <= j < f.len() && 0 <= k < f[j].len() && #[trigger] f[j][k] == s[i];
        assert(octet(f[j]) is Some);
        assert(radix_digit(f[j][k], 10));
    }
}

/// The standard text of an IPv6 address holds a colon, so it is no IPv4
/// address.
proof fn lemma_v6_text_not_v4(v: nat)
    requires
        v < pow2_16k(8),
    ensures
        ipv4_text(v6_text_of(v)) is None,
{
    let g = v6_groups(v);
    let t = v6_text_of(v);
    let i: int = if g[0] == 0 && g[1] == 0 && g[2] == 0 && g[3] == 0 && g[4] == 0 && g[5] == 0xffff {
        0
    } else if longest_zero_run(g, 8).1 > 1 {
        hex_join(g.take(longest_zero_run(g, 8).0 as int)).len() as int
    } else {
        lemma_v6_groups_value(v);
        assert(hex_join(g) =~= hex_join(g.drop_last()) + seq![':'] + radix_digits(g.last(), 16));
        hex_join(g.drop_last()).len() as int
    };
    lemma_v6_text_chars(v);
    assert(t[i] == ':');
    if ipv4_text(t) is Some {
        lemma_ipv4_text_no_colon(t, i);
    }
}

/// The text of a block of either family reads back as the block.
pub proof fn lemma_ip_cidr_text_round_trip(b: Block)
    requires
        b.wf(),
    ensures
        ip_cidr_text(cidr_text_of(b.width, b.network, b.prefix)) == Ok::<Block, crate::error::ParseFailure>(b),
{
    if b.width == 32 {
        lemma_v4_cidr_text_round_trip(b);
    } else {
        lemma_v6_cidr_text_round_trip(b);
        lemma_wf_facts(b);
        lemma_pow2_16k_8();
        lemma_v6_text_not_v4(b.network);
        lemma_v6_text_plain(b.network);
        lemma_dec_chars(b.prefix);
        lemma_radix_digits(b.prefix, 10);
        let x = v6_text_of(b.network);
        let y = radix_digits(b.prefix, 10);
        let t = cidr_text_of(128, b.network, b.prefix);
        assert(t =~= x.push('/') + y);
        assert(t[0] == x[0]);
        assert(t.last() == y.last());
        assert(crate::parse::is_digit(y[y.len() - 1]));
        lemma_trim_plain(t);
        lemma_find_after(x, '/', y);
        assert(t.take(x.len() as int) =~= x);
        lemma_trim_plain(x);
    }
}

/// The text of a range of either family reads back as the range.
pub proof fn lemma_ip_range_text_round_trip(w: nat, a: nat, e: nat)
    requires
        w == 32 || w == 128,
        a <= e < vstd::arithmetic::power2::pow2(w),
    ensures
        ip_range_text(range_text_of(w, a, e)) == Ok::<(nat, (nat, nat)), crate::error::ParseFailure>(
            (w, (a, e)),
        ),
{
    crate::block::lemma_pow2_widths();
    if w == 32 {
        lemma_v4_range_text_round_trip(a, e);
    } else {
        lemma_v6_range_text_round_trip(a, e);
        lemma_pow2_16k_8();
        lemma_v6_text_not_v4(a);
        lemma_v6_text_plain(a);
        lemma_v6_text_plain(e);
        let x = v6_text_of(a);
        let y = v6_text_of(e);
        let t = range_text_of(128, a, e);
        assert(t =~= x.push('-') + y);
        assert(t[0] == x[0]);
        assert(t.last() == y.last());
        lemma_trim_plain(t);
        lemma_find_after(x, '-', y);
        assert(t.take(x.len() as int) =~= x);
        lemma_trim_plain(x);
    }
}

/// An address text of either family holds no `/` or `-`, and neither
/// starts nor ends with white space.
proof fn lemma_addr_text_plain(w: nat, v: nat)
    requires
        w == 32 || w == 128,
        v < vstd::arithmetic::power2::pow2(w),
    ensures
        crate::show::addr_text_of(w, v).len() > 0,
        !crate::parse::is_space(crate::show::addr_text_of(w, v)[0]),
        !crate::parse::is_space(crate::show::addr_text_of(w, v).last()),
        forall|i: int|
            0 <= i < crate::show::addr_text_of(w, v).len() ==> crate::show::addr_text_of(w, v)[i] != '/'
                && crate::show::addr_text_of(w, v)[i] != '-',
{
    crate::block::lemma_pow2_widths();
    if w == 32 {
        lemma_v4_text_round_trip(v);
        let t = v4_text_of(v);
        assert forall|i: int| 0 <= i < t.len() implies t[i] != '/' && t[i] != '-' by {
            assert(crate::parse::is_digit(t[i]) || t[i] == '.');
        }
    } else {
        lemma_pow2_16k_8();
        lemma_v6_text_plain(v);
    }
}

/// The text of a target reads back as the same target: a block as a block
/// and a range as a range.
pub proof fn lemma_target_text_round_trip_block(b: Block)
    requires
        b.wf(),
    ensures
        target_text(cidr_text_of(b.width, b.network, b.prefix)) == Ok::<TargetForm, crate::error::ParseFailure>(
            TargetForm::Block(b),
        ),
{
    lemma_ip_cidr_text_round_trip(b);
    lemma_wf_facts(b);
    lemma_addr_text_plain(b.width, b.network);
    lemma_dec_chars(b.prefix);
    lemma_radix_digits(b.prefix, 10);
    let x = crate::show::addr_text_of(b.width, b.network);
    let y = radix_digits(b.prefix, 10);
    let t = cidr_text_of(b.width, b.network, b.prefix);
    assert(t =~= x.push('/') + y);
    assert(t[0] == x[0]);
    assert(t.last() == y.last());
    assert(crate::parse::is_digit(y[y.len() - 1]));
    lemma_trim_plain(t);
    lemma_find_after(x, '/', y);
}

/// The text of a range target reads back as the same range.
#[verifier::spinoff_prover]
#[verifier::rlimit(40)]
pub proof fn lemma_target_text_round_trip_span(w: nat, a: nat, e: nat)
    requires
        w == 32 || w == 128,
        a <= e < vstd::arithmetic::power2::pow2(w),
    ensures
        target_text(range_text_of(w, a, e)) == Ok::<TargetForm, crate::error::ParseFailure>(
            TargetForm::Span(w, a, e),
        ),
{
    lemma_ip_range_text_round_trip(w, a, e);
    lemma_addr_text_plain(w, a);
    lemma_addr_text_plain(w, e);
    let x = crate::show::addr_text_of(w, a);
    let y = crate::show::addr_text_of(w, e);
    let t = range_text_of(w, a, e);
    assert(t =~= x.push('-') + y);
    assert(t[0] == x[0]);
    assert(t.last() == y.last());
    lemma_trim_plain(t);
    assert forall|i: int| 0 <= i < t.len() implies t[i] != '/' by {
        if i < x.len() {
            assert(t[i] == x[i]);
        } else if i > x.len() {
            assert(t[i] == y[i - x.len() - 1]);
        }
    }
    lemma_find_none(t, '/');
    lemma_find_after(x, '-', y);
}

} // verus!
