//! The textual grammar of addresses, blocks and ranges, over characters.
//!
//! Addresses follow the standard notation: four decimal octets for IPv4
//! (no leading zeros, at most three digits, at most 255), and for IPv6
//! eight colon-separated groups of one to four hex digits, with an optional
//! `::` standing for one or more zero groups and an optional embedded IPv4
//! address in the last two groups.

use vstd::prelude::*;

verus! {

// ---------------------------------------------------------------------------
// Characters
// ---------------------------------------------------------------------------

/// An ASCII decimal digit.
pub open spec fn is_digit(c: char) -> bool {
    '0' <= c <= '9'
}

/// An ASCII hexadecimal digit, either case.
pub open spec fn is_hex(c: char) -> bool {
    ('0' <= c <= '9') || ('a' <= c <= 'f') || ('A' <= c <= 'F')
}

/// The value of a hexadecimal (or decimal) digit.
pub open spec fn hex_val(c: char) -> nat {
    if '0' <= c <= '9' {
        (c as nat - '0' as nat) as nat
    } else if 'a' <= c <= 'f' {
        (c as nat - 'a' as nat + 10) as nat
    } else {
        (c as nat - 'A' as nat + 10) as nat
    }
}

/// Unicode white space, as `char::is_whitespace` defines it.
pub open spec fn is_space(c: char) -> bool {
    ||| '\u{9}' <= c <= '\u{d}'
    ||| c == ' '
    ||| c == '\u{85}'
    ||| c == '\u{a0}'
    ||| c == '\u{1680}'
    ||| '\u{2000}' <= c <= '\u{200a}'
    ||| c == '\u{2028}'
    ||| c == '\u{2029}'
    ||| c == '\u{202f}'
    ||| c == '\u{205f}'
    ||| c == '\u{3000}'
}

/// The value of a digit string in base `radix`, most significant first.
pub open spec fn digits_value(s: Seq<char>, radix: nat) -> nat
    decreases s.len(),
{
    if s.len() == 0 {
        0
    } else {
        digits_value(s.drop_last(), radix) * radix + hex_val(s.last())
    }
}

/// A digit of base `radix` (10 or 16).
pub open spec fn radix_digit(c: char, radix: nat) -> bool {
    if radix == 16 {
        is_hex(c)
    } else {
        is_digit(c)
    }
}

/// Every character of `s` is a digit of base `radix`.
pub open spec fn all_radix_digits(s: Seq<char>, radix: nat) -> bool {
    forall|i: int| 0 <= i < s.len() ==> #[trigger] radix_digit(s[i], radix)
}

/// The value of `s` as a nonempty digit string of base `radix`, when it is
/// at most `limit`.
pub open spec fn digits_bounded(s: Seq<char>, radix: nat, limit: nat) -> Option<nat> {
    if s.len() >= 1 && all_radix_digits(s, radix) && digits_value(s, radix) <= limit {
        Some(digits_value(s, radix))
    } else {
        None
    }
}

/// `s` split at every occurrence of `sep` (an empty string gives one empty
/// field).
pub open spec fn split_on(s: Seq<char>, sep: char) -> Seq<Seq<char>>
    decreases s.len(),
{
    if s.len() == 0 {
        seq![Seq::empty()]
    } else {
        let init = split_on(s.drop_last(), sep);
        if s.last() == sep {
            init.push(Seq::empty())
        } else {
            init.update(init.len() - 1, init.last().push(s.last()))
        }
    }
}

/// `s` with leading white space removed.
pub open spec fn trim_start(s: Seq<char>) -> Seq<char>
    decreases s.len(),
{
    if s.len() > 0 && is_space(s[0]) {
        trim_start(s.drop_first())
    } else {
        s
    }
}

/// `s` with trailing white space removed.
pub open spec fn trim_end(s: Seq<char>) -> Seq<char>
    decreases s.len(),
{
    if s.len() > 0 && is_space(s.last()) {
        trim_end(s.drop_last())
    } else {
        s
    }
}

/// `s` with white space removed at both ends, as `str::trim` does.
pub open spec fn trim(s: Seq<char>) -> Seq<char> {
    trim_end(trim_start(s))
}

/// The index of the first occurrence of `c` in `s`.
pub open spec fn find(s: Seq<char>, c: char) -> Option<int>
    decreases s.len(),
{
    if s.len() == 0 {
        None
    } else {
        match find(s.drop_last(), c) {
            Some(i) => Some(i),
            None => if s.last() == c {
                Some(s.len() - 1)
            } else {
                None
            },
        }
    }
}

// ---------------------------------------------------------------------------
// Numbers
// ---------------------------------------------------------------------------

/// A decimal IPv4 octet: one to three digits, no leading zero (except `0`
/// itself), at most 255.
pub open spec fn octet(f: Seq<char>) -> Option<nat> {
    if 1 <= f.len() <= 3 && all_radix_digits(f, 10) && !(f.len() > 1 && f[0] == '0')
        && digits_value(f, 10) <= 255 {
        Some(digits_value(f, 10))
    } else {
        None
    }
}

/// A 16-bit IPv6 group: one to four hex digits.
pub open spec fn hex_group(f: Seq<char>) -> Option<nat> {
    if 1 <= f.len() <= 4 && all_radix_digits(f, 16) {
        Some(digits_value(f, 16))
    } else {
        None
    }
}

/// An unsigned 8-bit integer as `u8::from_str` reads it: an optional `+`,
/// then one or more decimal digits, with a value of at most 255.
pub open spec fn u8_text(f: Seq<char>) -> Option<nat> {
    let d = if f.len() > 0 && f[0] == '+' { f.drop_first() } else { f };
    if d.len() >= 1 && all_radix_digits(d, 10) && digits_value(d, 10) <= 255 {
        Some(digits_value(d, 10))
    } else {
        None
    }
}

// ---------------------------------------------------------------------------
// Addresses
// ---------------------------------------------------------------------------

/// The IPv4 address written as `s` (four octets separated by dots).
pub open spec fn ipv4_text(s: Seq<char>) -> Option<nat> {
    let f = split_on(s, '.');
    if f.len() == 4 && octet(f[0]) is Some && octet(f[1]) is Some && octet(f[2]) is Some && octet(
        f[3],
    ) is Some {
        Some(
            octet(f[0])->0 * 0x100_0000 + octet(f[1])->0 * 0x1_0000 + octet(f[2])->0 * 0x100 + octet(
                f[3],
            )->0,
        )
    } else {
        None
    }
}

/// The value of a sequence of 16-bit groups, most significant first.
pub open spec fn groups_value(g: Seq<nat>) -> nat
    decreases g.len(),
{
    if g.len() == 0 {
        0
    } else {
        groups_value(g.drop_last()) * 0x1_0000 + g.last()
    }
}

/// The groups of colon-separated fields, all hex groups.
pub open spec fn hex_fields(f: Seq<Seq<char>>) -> Option<Seq<nat>>
    decreases f.len(),
{
    if f.len() == 0 {
        Some(Seq::empty())
    } else {
        match (hex_fields(f.drop_last()), hex_group(f.last())) {
            (Some(g), Some(v)) => Some(g.push(v)),
            _ => None,
        }
    }
}

/// The groups written as `s`: colon-separated hex groups, the last of which
/// may instead be an embedded IPv4 address standing for two groups. The
/// empty string has no groups.
pub open spec fn groups_text(s: Seq<char>, allow_v4: bool) -> Option<Seq<nat>> {
    if s.len() == 0 {
        Some(Seq::empty())
    } else {
        let f = split_on(s, ':');
        match hex_fields(f) {
            Some(g) => Some(g),
            None => if allow_v4 {
                match (hex_fields(f.drop_last()), ipv4_text(f.last())) {
                    (Some(g), Some(v)) => Some(g.push(v / 0x1_0000).push(v % 0x1_0000)),
                    _ => None,
                }
            } else {
                None
            },
        }
    }
}

/// The index of the first `::` in `s`.
pub open spec fn find_double_colon(s: Seq<char>) -> Option<int>
    decreases s.len(),
{
    if s.len() < 2 {
        None
    } else {
        match find_double_colon(s.drop_last()) {
            Some(i) => Some(i),
            None => if s[s.len() - 2] == ':' && s.last() == ':' {
                Some(s.len() - 2)
            } else {
                None
            },
        }
    }
}

/// The IPv6 address written as `s`.
pub open spec fn ipv6_text(s: Seq<char>) -> Option<nat> {
    match find_double_colon(s) {
        Some(k) => {
            let head = groups_text(s.subrange(0, k), false);
            let tail = groups_text(s.subrange(k + 2, s.len() as int), true);
            match (head, tail) {
                (Some(h), Some(t)) => if h.len() + t.len() <= 7 {
                    Some(
                        groups_value(
                            h + Seq::new((8 - h.len() - t.len()) as nat, |i: int| 0nat) + t,
                        ),
                    )
                } else {
                    None
                },
                _ => None,
            }
        },
        None => match groups_text(s, true) {
            Some(g) => if g.len() == 8 {
                Some(groups_value(g))
            } else {
                None
            },
            None => None,
        },
    }
}

} // verus!

verus! {

// ---------------------------------------------------------------------------
// Executable reading
// ---------------------------------------------------------------------------

/// The characters `lo..hi` of `s`.
pub fn sub_chars(s: &Vec<char>, lo: usize, hi: usize) -> (r: Vec<char>)
    requires
        lo <= hi <= s@.len(),
    ensures
        r@ == s@.subrange(lo as int, hi as int),
{
    let mut r: Vec<char> = Vec::new();
    let mut i = lo;
    while i < hi
        invariant
            lo <= i <= hi <= s@.len(),
            r@ == s@.subrange(lo as int, i as int),
        decreases hi - i,
    {
        r.push(s[i]);
        proof {
            assert(s@.subrange(lo as int, i + 1) =~= s@.subrange(lo as int, i as int).push(s@[i as int]));
        }
        i = i + 1;
    }
    r
}

/// Whether `c` is white space.
pub fn space_char(c: char) -> (r: bool)
    ensures
        r == is_space(c),
{
    ('\u{9}' <= c && c <= '\u{d}') || c == ' ' || c == '\u{85}' || c == '\u{a0}' || c == '\u{1680}'
        || ('\u{2000}' <= c && c <= '\u{200a}') || c == '\u{2028}' || c == '\u{2029}' || c
        == '\u{202f}' || c == '\u{205f}' || c == '\u{3000}'
}

proof fn lemma_trim_start_skip(s: Seq<char>, lo: int)
    requires
        0 <= lo <= s.len(),
        forall|j: int| 0 <= j < lo ==> is_space(#[trigger] s[j]),
        lo == s.len() || !is_space(s[lo]),
    ensures
        trim_start(s) == s.skip(lo),
    decreases lo,
{
    if lo == 0 {
        assert(s.skip(0) =~= s);
    } else {
        let t = s.drop_first();
        assert forall|j: int| 0 <= j < lo - 1 implies is_space(#[trigger] t[j]) by {
            assert(t[j] == s[j + 1]);
        }
        if lo - 1 < t.len() {
            assert(t[lo - 1] == s[lo]);
        }
        lemma_trim_start_skip(t, lo - 1);
        assert(t.skip(lo - 1) =~= s.skip(lo));
    }
}

proof fn lemma_trim_end_take(s: Seq<char>, hi: int)
    requires
        0 <= hi <= s.len(),
        forall|j: int| hi <= j < s.len() ==> is_space(#[trigger] s[j]),
        hi == 0 || !is_space(s[hi - 1]),
    ensures
        trim_end(s) == s.take(hi),
    decreases s.len() - hi,
{
    if hi == s.len() {
        assert(s.take(hi) =~= s);
        if s.len() > 0 {
            assert(s.last() == s[hi - 1]);
        }
    } else {
        let t = s.drop_last();
        assert forall|j: int| hi <= j < t.len() implies is_space(#[trigger] t[j]) by {
            assert(t[j] == s[j]);
        }
        if hi > 0 {
            assert(t[hi - 1] == s[hi - 1]);
        }
        assert(is_space(s[s.len() - 1]));
        lemma_trim_end_take(t, hi);
        assert(t.take(hi) =~= s.take(hi));
    }
}

/// `s` with white space removed at both ends.
pub fn trim_chars(s: &Vec<char>) -> (r: Vec<char>)
    ensures
        r@ == trim(s@),
{
    let mut lo: usize = 0;
    while lo < s.len() && space_char(s[lo])
        invariant
            lo <= s@.len(),
            forall|j: int| 0 <= j < lo ==> is_space(#[trigger] s@[j]),
        decreases s@.len() - lo,
    {
        lo = lo + 1;
    }
    proof {
        lemma_trim_start_skip(s@, lo as int);
    }
    let mut hi: usize = s.len();
    while hi > lo && space_char(s[hi - 1])
        invariant
            lo <= hi <= s@.len(),
            forall|j: int| hi <= j < s@.len() ==> is_space(#[trigger] s@[j]),
        decreases hi,
    {
        hi = hi - 1;
    }
    let r = sub_chars(s, lo, hi);
    proof {
        let t = s@.skip(lo as int);
        assert forall|j: int| hi - lo <= j < t.len() implies is_space(#[trigger] t[j]) by {
            assert(t[j] == s@[j + lo]);
        }
        if hi > lo {
            assert(t[hi - lo - 1] == s@[hi - 1]);
        }
        lemma_trim_end_take(t, hi - lo);
        assert(t.take(hi - lo) =~= s@.subrange(lo as int, hi as int));
    }
    r
}

/// The index of the first occurrence of `c` in `s`.
pub fn find_char(s: &Vec<char>, c: char) -> (r: Option<usize>)
    ensures
        r matches Some(i) ==> find(s@, c) == Some(i as int) && i < s@.len() && s@[i as int] == c,
        r is None ==> find(s@, c) is None,
{
    let mut i: usize = 0;
    while i < s.len()
        invariant
            i <= s@.len(),
            find(s@.take(i as int), c) is None,
        decreases s@.len() - i,
    {
        proof {
            assert(s@.take(i + 1).drop_last() =~= s@.take(i as int));
        }
        if s[i] == c {
            proof {
                lemma_find_extends(s@, (i + 1) as int, c);
            }
            return Some(i);
        }
        i = i + 1;
    }
    proof {
        assert(s@.take(s@.len() as int) =~= s@);
    }
    None
}

/// A first occurrence within a prefix is the first occurrence in the whole.
pub proof fn lemma_find_extends(s: Seq<char>, n: int, c: char)
    requires
        0 <= n <= s.len(),
        find(s.take(n), c) is Some,
    ensures
        find(s, c) == find(s.take(n), c),
    decreases s.len() - n,
{
    if n < s.len() {
        assert(s.take(n + 1).drop_last() =~= s.take(n));
        lemma_find_extends(s, n + 1, c);
    } else {
        assert(s.take(n) =~= s);
    }
}

/// The fields of `s` split at every `sep`.
pub fn split_chars(s: &Vec<char>, sep: char) -> (r: Vec<Vec<char>>)
    ensures
        r@.map_values(|v: Vec<char>| v@) == split_on(s@, sep),
{
    let mut fields: Vec<Vec<char>> = Vec::new();
    let mut cur: Vec<char> = Vec::new();
    let mut i: usize = 0;
    while i < s.len()
        invariant
            i <= s@.len(),
            fields@.map_values(|v: Vec<char>| v@).push(cur@) == split_on(s@.take(i as int), sep),
        decreases s@.len() - i,
    {
        let ghost before = fields@.map_values(|v: Vec<char>| v@).push(cur@);
        proof {
            assert(s@.take(i + 1).drop_last() =~= s@.take(i as int));
            assert(s@.take(i + 1).last() == s@[i as int]);
        }
        if s[i] == sep {
            let done = cur;
            fields.push(done);
            cur = Vec::new();
            proof {
                assert(fields@.map_values(|v: Vec<char>| v@).push(cur@) =~= before.push(Seq::empty()));
            }
        } else {
            cur.push(s[i]);
            proof {
                assert(fields@.map_values(|v: Vec<char>| v@).push(cur@) =~= before.update(
                    before.len() - 1,
                    before.last().push(s@[i as int]),
                ));
            }
        }
        i = i + 1;
    }
    fields.push(cur);
    proof {
        assert(s@.take(s@.len() as int) =~= s@);
    }
    fields
}

/// Whether `c` is a decimal digit.
pub fn digit_char_test(c: char) -> (r: bool)
    ensures
        r == is_digit(c),
{
    '0' <= c && c <= '9'
}

/// Whether `c` is a hex digit.
pub fn hex_char_test(c: char) -> (r: bool)
    ensures
        r == is_hex(c),
{
    ('0' <= c && c <= '9') || ('a' <= c && c <= 'f') || ('A' <= c && c <= 'F')
}

/// The value of hex digit `c`.
pub fn hex_value(c: char) -> (r: u32)
    requires
        is_hex(c),
    ensures
        r == hex_val(c),
        r < 16,
{
    if '0' <= c && c <= '9' {
        (c as u32) - ('0' as u32)
    } else if 'a' <= c && c <= 'f' {
        (c as u32) - ('a' as u32) + 10
    } else {
        (c as u32) - ('A' as u32) + 10
    }
}

/// The value of a digit string, or `None` when it is empty, holds a
/// non-digit of the radix, or exceeds `limit`.
pub fn digits_within(f: &Vec<char>, radix: u32, limit: u32) -> (r: Option<u32>)
    requires
        radix == 10 || radix == 16,
        limit <= 0x1_0000,
    ensures
        match r {
            Some(v) => digits_bounded(f@, radix as nat, limit as nat) == Some(v as nat),
            None => digits_bounded(f@, radix as nat, limit as nat) is None,
        },
{
    if f.len() == 0 {
        return None;
    }
    let mut v: u32 = 0;
    let mut i: usize = 0;
    while i < f.len()
        invariant
            radix == 10 || radix == 16,
            limit <= 0x1_0000,
            i <= f@.len(),
            all_radix_digits(f@.take(i as int), radix as nat),
            v == digits_value(f@.take(i as int), radix as nat),
            v <= limit,
        decreases f@.len() - i,
    {
        let c = f[i];
        let ok = if radix == 10 { digit_char_test(c) } else { hex_char_test(c) };
        proof {
            assert(f@.take(i + 1).drop_last() =~= f@.take(i as int));
            assert(f@.take(i + 1).last() == c);
        }
        if !ok {
            proof {
                assert(f@[i as int] == c);
                assert(!radix_digit(f@[i as int], radix as nat));
            }
            return None;
        }
        let d = hex_value(c);
        proof {
            if radix == 10 {
                assert(d < 10);
            }
            assert(v * radix <= 0x1_0000 * 16) by (nonlinear_arith)
                requires
                    v <= 0x1_0000,
                    radix <= 16,
            ;
        }
        let nv = (v as u64) * (radix as u64) + (d as u64);
        if nv > limit as u64 {
            proof {
                lemma_digits_value_grows(f@, (i + 1) as int, radix as nat);
            }
            return None;
        }
        v = nv as u32;
        proof {
            assert forall|j: int| 0 <= j < i + 1 implies #[trigger] radix_digit(
                f@.take(i + 1)[j],
                radix as nat,
            ) by {
                if j < i {
                    assert(f@.take(i + 1)[j] == f@.take(i as int)[j]);
                } else {
                    assert(f@.take(i + 1)[j] == c);
                }
            }
        }
        i = i + 1;
    }
    proof {
        assert(f@.take(f@.len() as int) =~= f@);
    }
    Some(v)
}

/// Appending digits never decreases the value of a digit string.
pub proof fn lemma_digits_value_grows(f: Seq<char>, n: int, radix: nat)
    requires
        0 <= n <= f.len(),
        radix >= 1,
    ensures
        digits_value(f.take(n), radix) <= digits_value(f, radix),
    decreases f.len() - n,
{
    if n < f.len() {
        lemma_digits_value_grows(f, n + 1, radix);
        assert(f.take(n + 1).drop_last() =~= f.take(n));
        let a = digits_value(f.take(n), radix);
        assert(a * radix >= a) by (nonlinear_arith)
            requires
                radix >= 1,
        ;
    } else {
        assert(f.take(n) =~= f);
    }
}

/// `radix` to the power `n`.
pub open spec fn radix_pow(radix: nat, n: nat) -> nat
    decreases n,
{
    if n == 0 {
        1
    } else {
        radix_pow(radix, (n - 1) as nat) * radix
    }
}

/// A digit string of base `radix` is below `radix` to the power of its length.
pub proof fn lemma_digits_value_lt(s: Seq<char>, radix: nat)
    requires
        radix == 10 || radix == 16,
        all_radix_digits(s, radix),
    ensures
        digits_value(s, radix) < radix_pow(radix, s.len()),
    decreases s.len(),
{
    if s.len() > 0 {
        let init = s.drop_last();
        assert forall|i: int| 0 <= i < init.len() implies #[trigger] radix_digit(init[i], radix) by {
            assert(init[i] == s[i]);
        }
        lemma_digits_value_lt(init, radix);
        assert(radix_digit(s[s.len() - 1], radix));
        let a = digits_value(init, radix);
        let b = hex_val(s.last());
        let p = radix_pow(radix, init.len());
        assert(b < radix);
        assert(a * radix + b < p * radix) by (nonlinear_arith)
            requires
                a < p,
                b < radix,
        ;
    }
}

/// The value of a decimal IPv4 octet.
pub fn parse_octet(f: &Vec<char>) -> (r: Option<u8>)
    ensures
        r matches Some(v) ==> octet(f@) == Some(v as nat),
        r is None ==> octet(f@) is None,
{
    if f.len() < 1 || f.len() > 3 {
        return None;
    }
    if f.len() > 1 && f[0] == '0' {
        return None;
    }
    match digits_within(f, 10, 255) {
        Some(v) => Some(v as u8),
        None => None,
    }
}

/// The value of a hexadecimal IPv6 group.
pub fn parse_hex_group(f: &Vec<char>) -> (r: Option<u16>)
    ensures
        r matches Some(v) ==> hex_group(f@) == Some(v as nat),
        r is None ==> hex_group(f@) is None,
{
    if f.len() < 1 || f.len() > 4 {
        return None;
    }
    let r = digits_within(f, 16, 0xffff);
    proof {
        if all_radix_digits(f@, 16) {
            lemma_digits_value_lt(f@, 16);
            reveal_with_fuel(radix_pow, 5);
            assert(radix_pow(16, f@.len()) <= 0x1_0000);
        }
    }
    match r {
        Some(v) => Some(v as u16),
        None => None,
    }
}

/// The value of an unsigned 8-bit integer, as `u8::from_str` reads it.
pub fn parse_u8_text(f: &Vec<char>) -> (r: Option<u8>)
    ensures
        r matches Some(v) ==> u8_text(f@) == Some(v as nat),
        r is None ==> u8_text(f@) is None,
{
    let d = if f.len() > 0 && f[0] == '+' {
        sub_chars(f, 1, f.len())
    } else {
        sub_chars(f, 0, f.len())
    };
    proof {
        if f@.len() > 0 && f@[0] == '+' {
            assert(d@ =~= f@.drop_first());
        } else {
            assert(d@ =~= f@);
        }
    }
    match digits_within(&d, 10, 255) {
        Some(v) => Some(v as u8),
        None => None,
    }
}

/// `split_on` always yields at least one field.
pub proof fn lemma_split_on_len(s: Seq<char>, sep: char)
    ensures
        split_on(s, sep).len() >= 1,
    decreases s.len(),
{
    if s.len() > 0 {
        lemma_split_on_len(s.drop_last(), sep);
    }
}

/// The IPv4 address written as `s`, as its integer value.
pub fn parse_ipv4_chars(s: &Vec<char>) -> (r: Option<u32>)
    ensures
        r matches Some(v) ==> ipv4_text(s@) == Some(v as nat),
        r is None ==> ipv4_text(s@) is None,
{
    let f = split_chars(s, '.');
    let ghost fs = f@.map_values(|v: Vec<char>| v@);
    if f.len() != 4 {
        return None;
    }
    assert(f@[0]@ == fs[0] && f@[1]@ == fs[1] && f@[2]@ == fs[2] && f@[3]@ == fs[3]);
    let a = match parse_octet(&f[0]) {
        Some(a) => a,
        None => return None,
    };
    let b = match parse_octet(&f[1]) {
        Some(b) => b,
        None => return None,
    };
    let c = match parse_octet(&f[2]) {
        Some(c) => c,
        None => return None,
    };
    let d = match parse_octet(&f[3]) {
        Some(d) => d,
        None => return None,
    };
    Some((a as u32) * 0x100_0000 + (b as u32) * 0x1_0000 + (c as u32) * 0x100 + d as u32)
}

/// The fields of `f`, each as its character sequence.
pub open spec fn field_seqs(f: Seq<Vec<char>>) -> Seq<Seq<char>> {
    f.map_values(|v: Vec<char>| v@)
}

/// 16-bit groups as natural numbers.
pub open spec fn group_nats(g: Seq<u16>) -> Seq<nat> {
    g.map_values(|x: u16| x as nat)
}

/// Once a field fails to be a hex group, every longer list of fields fails.
pub proof fn lemma_hex_fields_none_extends(f: Seq<Seq<char>>, m: int, n: int)
    requires
        0 <= m <= n <= f.len(),
        hex_fields(f.take(m)) is None,
    ensures
        hex_fields(f.take(n)) is None,
    decreases n - m,
{
    if m < n {
        assert(f.take(m + 1).drop_last() =~= f.take(m));
        lemma_hex_fields_none_extends(f, m + 1, n);
    }
}

/// The hex groups of the first `n` fields.
pub fn parse_hex_fields(f: &Vec<Vec<char>>, n: usize) -> (r: Option<Vec<u16>>)
    requires
        n <= f@.len(),
    ensures
        r matches Some(g) ==> hex_fields(field_seqs(f@).take(n as int)) == Some(group_nats(g@)),
        r is None ==> hex_fields(field_seqs(f@).take(n as int)) is None,
{
    let ghost fs = field_seqs(f@);
    let mut g: Vec<u16> = Vec::new();
    let mut i: usize = 0;
    proof {
        assert(fs.take(0) =~= Seq::<Seq<char>>::empty());
        assert(group_nats(g@) =~= Seq::<nat>::empty());
    }
    while i < n
        invariant
            i <= n <= f@.len(),
            fs == field_seqs(f@),
            hex_fields(fs.take(i as int)) == Some(group_nats(g@)),
        decreases n - i,
    {
        proof {
            assert(fs.take(i + 1).drop_last() =~= fs.take(i as int));
            assert(fs.take(i + 1).last() == f@[i as int]@);
        }
        match parse_hex_group(&f[i]) {
            Some(v) => {
                let ghost before = g@;
                g.push(v);
                proof {
                    assert(group_nats(g@) =~= group_nats(before).push(v as nat));
                }
            },
            None => {
                proof {
                    lemma_hex_fields_none_extends(fs, i + 1, n as int);
                }
                return None;
            },
        }
        i = i + 1;
    }
    Some(g)
}

/// The groups written as `s` (see `groups_text`).
pub fn parse_groups(s: &Vec<char>, allow_v4: bool) -> (r: Option<Vec<u16>>)
    ensures
        r matches Some(g) ==> groups_text(s@, allow_v4) == Some(group_nats(g@)),
        r is None ==> groups_text(s@, allow_v4) is None,
{
    if s.len() == 0 {
        let g: Vec<u16> = Vec::new();
        proof {
            assert(group_nats(g@) =~= Seq::<nat>::empty());
        }
        return Some(g);
    }
    let f = split_chars(s, ':');
    let ghost fs = field_seqs(f@);
    proof {
        assert(fs == split_on(s@, ':'));
        lemma_split_on_len(s@, ':');
        assert(fs.take(f@.len() as int) =~= fs);
        assert(fs.take(f@.len() - 1) =~= fs.drop_last());
        assert(fs.last() == f@[f@.len() - 1]@);
    }
    match parse_hex_fields(&f, f.len()) {
        Some(g) => return Some(g),
        None => {},
    }
    if !allow_v4 {
        return None;
    }
    let head = parse_hex_fields(&f, f.len() - 1);
    let v4 = parse_ipv4_chars(&f[f.len() - 1]);
    match (head, v4) {
        (Some(g), Some(v)) => {
            let mut g = g;
            let ghost before = g@;
            g.push((v / 0x1_0000) as u16);
            g.push((v % 0x1_0000) as u16);
            proof {
                assert(group_nats(g@) =~= group_nats(before).push(v as nat / 0x1_0000).push(
                    v as nat % 0x1_0000,
                ));
            }
            Some(g)
        },
        _ => None,
    }
}

/// A first `::` within a prefix is the first `::` of the whole.
pub proof fn lemma_find_double_colon_extends(s: Seq<char>, n: int)
    requires
        0 <= n <= s.len(),
        find_double_colon(s.take(n)) is Some,
    ensures
        find_double_colon(s) == find_double_colon(s.take(n)),
    decreases s.len() - n,
{
    if n < s.len() {
        assert(s.take(n + 1).drop_last() =~= s.take(n));
        lemma_find_double_colon_extends(s, n + 1);
    } else {
        assert(s.take(n) =~= s);
    }
}

/// The index of the first `::` in `s`.
pub fn find_double_colon_index(s: &Vec<char>) -> (r: Option<usize>)
    ensures
        r matches Some(k) ==> find_double_colon(s@) == Some(k as int) && k + 2 <= s@.len(),
        r is None ==> find_double_colon(s@) is None,
{
    if s.len() < 2 {
        return None;
    }
    let mut i: usize = 0;
    while i < s.len() - 1
        invariant
            s@.len() >= 2,
            i + 1 <= s@.len(),
            find_double_colon(s@.take(i + 1)) is None,
        decreases s@.len() - i,
    {
        proof {
            assert(s@.take(i + 2).drop_last() =~= s@.take(i + 1));
            assert(s@.take(i + 2)[i as int] == s@[i as int]);
        }
        if s[i] == ':' && s[i + 1] == ':' {
            proof {
                lemma_find_double_colon_extends(s@, i + 2);
            }
            return Some(i);
        }
        i = i + 1;
    }
    proof {
        assert(s@.take(s@.len() as int) =~= s@);
    }
    None
}

/// The groups' value equals the value of the same 16-bit groups.
pub proof fn lemma_groups_value_segments(g: Seq<u16>)
    ensures
        groups_value(group_nats(g)) == crate::addr::value_of_segments(g),
    decreases g.len(),
{
    if g.len() > 0 {
        assert(group_nats(g).drop_last() =~= group_nats(g.drop_last()));
        lemma_groups_value_segments(g.drop_last());
    }
}

/// The IPv6 address written as `s`, as its integer value.
pub fn parse_ipv6_chars(s: &Vec<char>) -> (r: Option<u128>)
    ensures
        r matches Some(v) ==> ipv6_text(s@) == Some(v as nat),
        r is None ==> ipv6_text(s@) is None,
{
    match find_double_colon_index(s) {
        Some(k) => {
            let n = s.len();
            let hs = sub_chars(s, 0, k);
            let ts = sub_chars(s, k + 2, n);
            let h = match parse_groups(&hs, false) {
                Some(h) => h,
                None => return None,
            };
            let t = match parse_groups(&ts, true) {
                Some(t) => t,
                None => return None,
            };
            if h.len() > 7 || t.len() > 7 - h.len() {
                return None;
            }
            let zeros: usize = 8 - h.len() - t.len();
            let ghost hn = group_nats(h@);
            let ghost tn = group_nats(t@);
            let mut full = h;
            let mut j: usize = 0;
            while j < zeros
                invariant
                    j <= zeros,
                    group_nats(full@) == hn + Seq::new(j as nat, |i: int| 0nat),
                decreases zeros - j,
            {
                let ghost before = full@;
                full.push(0);
                proof {
                    assert(group_nats(full@) =~= group_nats(before).push(0nat));
                    assert(Seq::new((j + 1) as nat, |i: int| 0nat) =~= Seq::new(j as nat, |i: int| 0nat).push(0nat));
                }
                j = j + 1;
            }
            let mut m: usize = 0;
            while m < t.len()
                invariant
                    m <= t@.len(),
                    tn == group_nats(t@),
                    group_nats(full@) == hn + Seq::new(zeros as nat, |i: int| 0nat) + tn.take(m as int),
                decreases t@.len() - m,
            {
                let ghost before = full@;
                full.push(t[m]);
                proof {
                    assert(tn.take(m + 1) =~= tn.take(m as int).push(t@[m as int] as nat));
                    assert(group_nats(full@) =~= group_nats(before).push(t@[m as int] as nat));
                }
                m = m + 1;
            }
            proof {
                assert(tn.take(t@.len() as int) =~= tn);
                lemma_groups_value_segments(full@);
            }
            Some(crate::addr::segments_value(&full))
        },
        None => {
            let g = match parse_groups(s, true) {
                Some(g) => g,
                None => return None,
            };
            if g.len() != 8 {
                return None;
            }
            proof {
                lemma_groups_value_segments(g@);
            }
            Some(crate::addr::segments_value(&g))
        },
    }
}

} // verus!
