//! Reading back what was written: the text of an IPv4 address, block or
//! range reads back as the same value.

use vstd::prelude::*;

use crate::block::{block_of, lemma_round_down_in_block, lemma_wf_facts, Block};
use crate::parse::{
    all_radix_digits, digits_value, find, hex_val, ipv4_text, is_digit, is_space, lemma_find_extends,
    octet, radix_digit, split_on, trim, trim_end, trim_start, u8_text,
};
use crate::read::{cidr_text, range_text};
use crate::show::{cidr_text_of, range_text_of, v4_text_of};
use crate::text::{digit_char, radix_digits};

verus! {

/// A digit below the radix is written as a digit of that radix, whose value
/// it is.
pub(crate) proof fn lemma_digit_char(d: nat, radix: nat)
    requires
        radix == 10 || radix == 16,
        d < radix,
    ensures
        radix_digit(digit_char(d), radix),
        hex_val(digit_char(d)) == d,
        radix == 10 ==> is_digit(digit_char(d)),
        d != 0 ==> digit_char(d) != '0',
{
}

/// The digits of `n`: nonempty, all digits of the radix, with value `n`,
/// and without a leading zero.
pub proof fn lemma_radix_digits(n: nat, radix: nat)
    requires
        radix == 10 || radix == 16,
    ensures
        radix_digits(n, radix).len() >= 1,
        all_radix_digits(radix_digits(n, radix), radix),
        digits_value(radix_digits(n, radix), radix) == n,
        n >= 1 ==> radix_digits(n, radix)[0] != '0',
    decreases n,
{
    let s = radix_digits(n, radix);
    if n < radix {
        lemma_digit_char(n, radix);
        assert(s.drop_last() =~= Seq::<char>::empty());
        assert(digits_value(s.drop_last(), radix) == 0);
        assert(s.last() == digit_char(n));
        assert(digits_value(s, radix) == digits_value(s.drop_last(), radix) * radix + hex_val(s.last()));
    } else {
        vstd::arithmetic::div_mod::lemma_div_decreases(n as int, radix as int);
        let q = n / radix;
        let r = n % radix;
        lemma_radix_digits(q, radix);
        lemma_digit_char(r, radix);
        let p = radix_digits(q, radix);
        assert(s == p.push(digit_char(r)));
        assert(s.drop_last() =~= p);
        assert forall|i: int| 0 <= i < s.len() implies #[trigger] radix_digit(s[i], radix) by {
            if i < p.len() {
                assert(s[i] == p[i]);
            }
        }
        vstd::arithmetic::div_mod::lemma_fundamental_div_mod(n as int, radix as int);
        assert(q * radix == radix * q) by (nonlinear_arith);
        assert(q >= 1) by (nonlinear_arith)
            requires
                n >= radix,
                n == radix * q + r,
                r < radix,
        ;
        assert(s[0] == p[0]);
        assert(digits_value(s, radix) == digits_value(p, radix) * radix + hex_val(digit_char(r)));
    }
}

/// Numbers below a thousand have at most three decimal digits.
pub(crate) proof fn lemma_dec_len(n: nat)
    requires
        n < 1000,
    ensures
        radix_digits(n, 10).len() <= 3,
{
    if n >= 10 {
        let q = n / 10;
        assert(radix_digits(n, 10).len() == radix_digits(q, 10).len() + 1);
        if q >= 10 {
            assert(q / 10 < 10);
            assert(radix_digits(q / 10, 10).len() == 1);
            assert(radix_digits(q, 10).len() == radix_digits(q / 10, 10).len() + 1);
        } else {
            assert(radix_digits(q, 10).len() == 1);
        }
    } else {
        assert(radix_digits(n, 10).len() == 1);
    }
}

/// Splitting at a separator that follows `s` splits `s` and what comes
/// after independently.
pub proof fn lemma_split_concat(s: Seq<char>, t: Seq<char>, sep: char)
    ensures
        split_on(s.push(sep) + t, sep) == split_on(s, sep) + split_on(t, sep),
    decreases t.len(),
{
    let u = s.push(sep) + t;
    if t.len() == 0 {
        assert(u =~= s.push(sep));
        assert(u.drop_last() =~= s);
        assert(split_on(t, sep) == seq![Seq::<char>::empty()]);
        assert(split_on(u, sep) =~= split_on(s, sep) + split_on(t, sep));
    } else {
        let t0 = t.drop_last();
        lemma_split_concat(s, t0, sep);
        assert(u.drop_last() =~= s.push(sep) + t0);
        assert(u.last() == t.last());
        crate::parse::lemma_split_on_len(t0, sep);
        let a = split_on(s, sep);
        let b = split_on(t0, sep);
        if t.last() == sep {
            assert(split_on(u, sep) =~= split_on(s, sep) + split_on(t, sep));
        } else {
            assert((a + b).update(a.len() + b.len() - 1, (a + b).last().push(t.last())) =~= a + b.update(
                b.len() - 1,
                b.last().push(t.last()),
            ));
            assert(split_on(u, sep) =~= split_on(s, sep) + split_on(t, sep));
        }
    }
}

/// A string without the separator is one field.
pub proof fn lemma_split_single(x: Seq<char>, sep: char)
    requires
        forall|i: int| 0 <= i < x.len() ==> x[i] != sep,
    ensures
        split_on(x, sep) == seq![x],
    decreases x.len(),
{
    if x.len() > 0 {
        let x0 = x.drop_last();
        assert forall|i: int| 0 <= i < x0.len() implies x0[i] != sep by {
            assert(x0[i] == x[i]);
        }
        lemma_split_single(x0, sep);
        assert(x.last() == x[x.len() - 1]);
        assert(x0.push(x.last()) =~= x);
        assert(split_on(x, sep) =~= seq![x]);
    } else {
        assert(x =~= Seq::<char>::empty());
    }
}

/// The decimal text of a number up to 255 reads back as that octet.
pub(crate) proof fn lemma_octet_of_dec(n: nat)
    requires
        n <= 255,
    ensures
        octet(radix_digits(n, 10)) == Some(n),
{
    lemma_radix_digits(n, 10);
    lemma_dec_len(n);
}

/// The decimal text of a number up to 255 reads back as a `u8`.
pub(crate) proof fn lemma_u8_of_dec(n: nat)
    requires
        n <= 255,
    ensures
        u8_text(radix_digits(n, 10)) == Some(n),
{
    lemma_radix_digits(n, 10);
    let s = radix_digits(n, 10);
    assert(radix_digit(s[0], 10));
}

/// Characters of the dotted-decimal text: digits and dots.
pub open spec fn dotted_chars(s: Seq<char>) -> bool {
    forall|i: int| 0 <= i < s.len() ==> is_digit(#[trigger] s[i]) || s[i] == '.'
}

/// Decimal digits are digits.
pub(crate) proof fn lemma_dec_chars(n: nat)
    ensures
        forall|i: int| 0 <= i < radix_digits(n, 10).len() ==> is_digit(#[trigger] radix_digits(n, 10)[i]),
{
    lemma_radix_digits(n, 10);
    assert forall|i: int| 0 <= i < radix_digits(n, 10).len() implies is_digit(#[trigger] radix_digits(n, 10)[i]) by {
        assert(radix_digit(radix_digits(n, 10)[i], 10));
    }
}

/// The dotted-decimal text of an address reads back as the address; it is
/// made of digits and dots, and starts and ends with a digit.
pub proof fn lemma_v4_text_round_trip(v: nat)
    requires
        v < 0x1_0000_0000,
    ensures
        ipv4_text(v4_text_of(v)) == Some(v),
        dotted_chars(v4_text_of(v)),
        v4_text_of(v).len() > 0,
        is_digit(v4_text_of(v)[0]),
        is_digit(v4_text_of(v).last()),
        !all_radix_digits(v4_text_of(v), 16),
{
    let a = v / 0x100_0000 % 0x100;
    let b = v / 0x1_0000 % 0x100;
    let c = v / 0x100 % 0x100;
    let d = v % 0x100;
    let sa = radix_digits(a, 10);
    let sb = radix_digits(b, 10);
    let sc = radix_digits(c, 10);
    let sd = radix_digits(d, 10);
    lemma_dec_chars(a);
    lemma_dec_chars(b);
    lemma_dec_chars(c);
    lemma_dec_chars(d);
    lemma_radix_digits(a, 10);
    lemma_radix_digits(d, 10);
    let t = v4_text_of(v);
    assert(t =~= ((sa.push('.') + sb).push('.') + sc).push('.') + sd);
    lemma_split_single(sa, '.');
    lemma_split_single(sb, '.');
    lemma_split_single(sc, '.');
    lemma_split_single(sd, '.');
    lemma_split_concat(sa, sb, '.');
    lemma_split_concat(sa.push('.') + sb, sc, '.');
    lemma_split_concat((sa.push('.') + sb).push('.') + sc, sd, '.');
    let f = split_on(t, '.');
    assert(f =~= seq![sa, sb, sc, sd]);
    lemma_octet_of_dec(a);
    lemma_octet_of_dec(b);
    lemma_octet_of_dec(c);
    lemma_octet_of_dec(d);
    let w = v as u32;
    assert((w / 0x100_0000 % 0x100) * 0x100_0000 + (w / 0x1_0000 % 0x100) * 0x1_0000 + (w / 0x100
        % 0x100) * 0x100 + w % 0x100 == w) by (bit_vector);
    assert forall|i: int| 0 <= i < t.len() implies is_digit(#[trigger] t[i]) || t[i] == '.' by {
        let n1 = sa.len() as int;
        let n2 = n1 + 1 + sb.len();
        let n3 = n2 + 1 + sc.len();
        if i < n1 {
            assert(t[i] == sa[i]);
        } else if i == n1 {
        } else if i < n2 {
            assert(t[i] == sb[i - n1 - 1]);
        } else if i == n2 {
        } else if i < n3 {
            assert(t[i] == sc[i - n2 - 1]);
        } else if i == n3 {
        } else {
            assert(t[i] == sd[i - n3 - 1]);
        }
    }
    assert(t[0] == sa[0]);
    assert(t.last() == sd.last());
    assert(t[sa.len() as int] == '.');
    assert(!radix_digit(t[sa.len() as int], 16));
}

/// A character that does not occur in `x` is not found in it.
pub(crate) proof fn lemma_find_none(x: Seq<char>, c: char)
    requires
        forall|i: int| 0 <= i < x.len() ==> x[i] != c,
    ensures
        find(x, c) is None,
    decreases x.len(),
{
    if x.len() > 0 {
        let x0 = x.drop_last();
        assert forall|i: int| 0 <= i < x0.len() implies x0[i] != c by {
            assert(x0[i] == x[i]);
        }
        lemma_find_none(x0, c);
        assert(x.last() == x[x.len() - 1]);
    }
}

/// The first occurrence of `c` in `x`, `c`, `y` is right after `x` when `x`
/// has none.
pub(crate) proof fn lemma_find_after(x: Seq<char>, c: char, y: Seq<char>)
    requires
        forall|i: int| 0 <= i < x.len() ==> x[i] != c,
    ensures
        find(x.push(c) + y, c) == Some(x.len() as int),
{
    let u = x.push(c) + y;
    lemma_find_none(x, c);
    assert(x.push(c).drop_last() =~= x);
    assert(find(x.push(c), c) == Some(x.len() as int));
    assert(u.take(x.len() as int + 1) =~= x.push(c));
    lemma_find_extends(u, x.len() as int + 1, c);
}

/// Text that starts and ends with a character other than white space is
/// its own trimmed form.
pub(crate) proof fn lemma_trim_plain(s: Seq<char>)
    requires
        s.len() > 0,
        !is_space(s[0]),
        !is_space(s.last()),
    ensures
        trim(s) == s,
{
    assert(trim_start(s) == s);
    assert(trim_end(s) == s);
}

/// The text `network/prefix` of an IPv4 block reads back as the block.
pub proof fn lemma_v4_cidr_text_round_trip(b: Block)
    requires
        b.wf(),
        b.width == 32,
    ensures
        cidr_text(32, cidr_text_of(32, b.network, b.prefix)) == Ok::<Block, crate::error::ParseFailure>(b),
{
    lemma_wf_facts(b);
    let x = v4_text_of(b.network);
    let y = radix_digits(b.prefix, 10);
    lemma_v4_text_round_trip(b.network);
    lemma_dec_chars(b.prefix);
    lemma_radix_digits(b.prefix, 10);
    let t = cidr_text_of(32, b.network, b.prefix);
    assert(t =~= x.push('/') + y);
    assert(forall|i: int| 0 <= i < x.len() ==> x[i] != '/') by {
        assert forall|i: int| 0 <= i < x.len() implies x[i] != '/' by {
            assert(is_digit(x[i]) || x[i] == '.');
        }
    }
    assert(t[0] == x[0]);
    assert(t.last() == y.last());
    assert(is_digit(y[y.len() - 1]));
    lemma_trim_plain(t);
    lemma_find_after(x, '/', y);
    assert(t.take(x.len() as int) =~= x);
    assert(t.skip(x.len() as int + 1) =~= y);
    lemma_trim_plain(x);
    assert(is_digit(y[0]));
    lemma_trim_plain(y);
    lemma_u8_of_dec(b.prefix);
    lemma_round_down_in_block(b.network as int, b.network as int, b.size() as int);
}

/// The text `start-end` of an IPv4 range reads back as the range.
pub proof fn lemma_v4_range_text_round_trip(a: nat, e: nat)
    requires
        a <= e < 0x1_0000_0000,
    ensures
        range_text(32, range_text_of(32, a, e)) == Ok::<(nat, nat), crate::error::ParseFailure>((a, e)),
{
    let x = v4_text_of(a);
    let y = v4_text_of(e);
    lemma_v4_text_round_trip(a);
    lemma_v4_text_round_trip(e);
    let t = range_text_of(32, a, e);
    assert(t =~= x.push('-') + y);
    assert(forall|i: int| 0 <= i < x.len() ==> x[i] != '-') by {
        assert forall|i: int| 0 <= i < x.len() implies x[i] != '-' by {
            assert(is_digit(x[i]) || x[i] == '.');
        }
    }
    assert(t[0] == x[0]);
    assert(t.last() == y.last());
    lemma_trim_plain(t);
    lemma_find_after(x, '-', y);
    assert(t.take(x.len() as int) =~= x);
    assert(t.skip(x.len() as int + 1) =~= y);
    lemma_trim_plain(x);
    lemma_trim_plain(y);
}

} // verus!
