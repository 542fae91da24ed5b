//! Writing addresses, blocks, ranges and targets as text, in the notation
//! that the readers accept: dotted decimal for IPv4, and for IPv6 lowercase
//! hex groups with the first longest run of two or more zero groups written
//! as `::` (IPv4-mapped addresses as `::ffff:a.b.c.d`).

use vstd::prelude::*;

use crate::addr::{pow2_16k, IpAddr, Ipv4Addr, Ipv6Addr};
use crate::cidr::{IpCidr, Ipv4Cidr, Ipv6Cidr};
use crate::parse::group_nats;
use crate::range::{IpRange, Ipv4Range, Ipv6Range};
use crate::set::IpSet;
use crate::text::{push_digits, radix_digits, string_of};

verus! {

// ---------------------------------------------------------------------------
// The notation
// ---------------------------------------------------------------------------

/// Dotted-decimal text of a 32-bit address value.
pub open spec fn v4_text_of(v: nat) -> Seq<char> {
    radix_digits(v / 0x100_0000 % 0x100, 10) + seq!['.'] + radix_digits(v / 0x1_0000 % 0x100, 10)
        + seq!['.'] + radix_digits(v / 0x100 % 0x100, 10) + seq!['.'] + radix_digits(v % 0x100, 10)
}

/// The eight 16-bit groups of a 128-bit address value, most significant first.
pub open spec fn v6_groups(v: nat) -> Seq<nat> {
    Seq::new(8, |i: int| (v / pow2_16k((7 - i) as nat)) % 0x1_0000)
}

/// Groups in lowercase hex, separated by colons.
pub open spec fn hex_join(g: Seq<nat>) -> Seq<char>
    decreases g.len(),
{
    if g.len() == 0 {
        Seq::empty()
    } else if g.len() == 1 {
        radix_digits(g[0], 16)
    } else {
        hex_join(g.drop_last()) + seq![':'] + radix_digits(g.last(), 16)
    }
}

/// The number of consecutive zero groups starting at `i`.
pub open spec fn zero_run(g: Seq<nat>, i: int) -> nat
    decreases g.len() - i,
{
    if 0 <= i < g.len() && g[i] == 0 {
        1 + zero_run(g, i + 1)
    } else {
        0
    }
}

/// `(start, length)` of the first longest run of zero groups starting
/// before `n`.
pub open spec fn longest_zero_run(g: Seq<nat>, n: nat) -> (nat, nat)
    decreases n,
{
    if n == 0 {
        (0, 0)
    } else {
        let b = longest_zero_run(g, (n - 1) as nat);
        let l = zero_run(g, n - 1);
        if l > b.1 {
            ((n - 1) as nat, l)
        } else {
            b
        }
    }
}

/// Standard text of a 128-bit address value.
pub open spec fn v6_text_of(v: nat) -> Seq<char> {
    let g = v6_groups(v);
    if g[0] == 0 && g[1] == 0 && g[2] == 0 && g[3] == 0 && g[4] == 0 && g[5] == 0xffff {
        seq![':', ':', 'f', 'f', 'f', 'f', ':'] + v4_text_of(v % 0x1_0000_0000)
    } else {
        let b = longest_zero_run(g, 8);
        if b.1 > 1 {
            hex_join(g.take(b.0 as int)) + seq![':', ':'] + hex_join(g.skip((b.0 + b.1) as int))
        } else {
            hex_join(g)
        }
    }
}

/// Text of an address value of a `width`-bit family.
pub open spec fn addr_text_of(width: nat, v: nat) -> Seq<char> {
    if width == 32 {
        v4_text_of(v)
    } else {
        v6_text_of(v)
    }
}

/// Text of a block: `network/prefix`.
pub open spec fn cidr_text_of(width: nat, network: nat, prefix: nat) -> Seq<char> {
    addr_text_of(width, network) + seq!['/'] + radix_digits(prefix, 10)
}

/// Text of a range: `start-end`.
pub open spec fn range_text_of(width: nat, start: nat, end: nat) -> Seq<char> {
    addr_text_of(width, start) + seq!['-'] + addr_text_of(width, end)
}

// ---------------------------------------------------------------------------
// Writing
// ---------------------------------------------------------------------------

/// Appends the dotted-decimal text of `v`.
fn push_v4_text(out: &mut Vec<char>, v: u32)
    ensures
        final(out)@ == old(out)@ + v4_text_of(v as nat),
{
    push_digits(out, (v / 0x100_0000 % 0x100) as u128, 10);
    out.push('.');
    push_digits(out, (v / 0x1_0000 % 0x100) as u128, 10);
    out.push('.');
    push_digits(out, (v / 0x100 % 0x100) as u128, 10);
    out.push('.');
    push_digits(out, (v % 0x100) as u128, 10);
    proof {
        assert(final(out)@ =~= old(out)@ + v4_text_of(v as nat));
    }
}

/// The eight groups of `v`, most significant first.
fn groups_of(v: u128) -> (r: Vec<u16>)
    ensures
        r@.len() == 8,
        group_nats(r@) == v6_groups(v as nat),
{
    let mut rev: Vec<u16> = Vec::new();
    let mut cur: u128 = v;
    let mut k: usize = 0;
    assert(pow2_16k(0) == 1);
    assert(v as nat / 1 == v);
    while k < 8
        invariant
            k <= 8,
            rev@.len() == k,
            cur == v as nat / pow2_16k(k as nat),
            forall|j: int| 0 <= j < k ==> #[trigger] rev@[j] == (v as nat / pow2_16k(j as nat)) % 0x1_0000,
        decreases 8 - k,
    {
        proof {
            crate::addr::lemma_pow2_16k_pos(k as nat);
            vstd::arithmetic::div_mod::lemma_div_denominator(v as int, pow2_16k(k as nat) as int, 0x1_0000);
            assert(pow2_16k((k + 1) as nat) == pow2_16k(k as nat) * 0x1_0000);
        }
        rev.push((cur % 0x1_0000) as u16);
        cur = cur / 0x1_0000;
        k = k + 1;
    }
    let mut g: Vec<u16> = Vec::new();
    let mut i: usize = 0;
    while i < 8
        invariant
            i <= 8,
            rev@.len() == 8,
            g@.len() == i,
            forall|j: int| 0 <= j < 8 ==> #[trigger] rev@[j] == (v as nat / pow2_16k(j as nat)) % 0x1_0000,
            forall|j: int| 0 <= j < i ==> #[trigger] g@[j] == rev@[7 - j],
        decreases 8 - i,
    {
        g.push(rev[7 - i]);
        i = i + 1;
    }
    proof {
        assert forall|j: int| 0 <= j < 8 implies #[trigger] group_nats(g@)[j] == v6_groups(v as nat)[j] by {
            assert(g@[j] == rev@[7 - j]);
        }
        assert(group_nats(g@) =~= v6_groups(v as nat));
    }
    g
}

/// Appends groups `lo..hi` in hex, separated by colons.
fn push_hex_join(out: &mut Vec<char>, g: &Vec<u16>, lo: usize, hi: usize)
    requires
        lo <= hi <= g@.len(),
    ensures
        final(out)@ == old(out)@ + hex_join(group_nats(g@).subrange(lo as int, hi as int)),
{
    let ghost gn = group_nats(g@);
    let mut i = lo;
    proof {
        assert(gn.subrange(lo as int, lo as int) =~= Seq::<nat>::empty());
    }
    while i < hi
        invariant
            lo <= i <= hi <= g@.len(),
            gn == group_nats(g@),
            out@ == old(out)@ + hex_join(gn.subrange(lo as int, i as int)),
        decreases hi - i,
    {
        let ghost before = out@;
        if i > lo {
            out.push(':');
        }
        push_digits(out, g[i] as u128, 16);
        proof {
            let s = gn.subrange(lo as int, i + 1);
            assert(s.drop_last() =~= gn.subrange(lo as int, i as int));
            assert(s.last() == g@[i as int] as nat);
            if i == lo {
                assert(s.len() == 1);
            }
            assert(out@ =~= old(out)@ + hex_join(s));
        }
        i = i + 1;
    }
}

/// The run of zeros starting at `i` ends at the first nonzero group.
proof fn lemma_zero_run(g: Seq<nat>, i: int, j: int)
    requires
        0 <= i <= j <= g.len(),
        forall|k: int| i <= k < j ==> #[trigger] g[k] == 0,
        j == g.len() || g[j] != 0,
    ensures
        zero_run(g, i) == j - i,
    decreases j - i,
{
    if i < j {
        lemma_zero_run(g, i + 1, j);
    }
}

/// The first longest run of zero groups among all eight.
fn longest_run(g: &Vec<u16>) -> (r: (usize, usize))
    requires
        g@.len() == 8,
    ensures
        r.0 as nat == longest_zero_run(group_nats(g@), 8).0,
        r.1 as nat == longest_zero_run(group_nats(g@), 8).1,
        r.0 + r.1 <= 8,
{
    let ghost gn = group_nats(g@);
    let mut best_start: usize = 0;
    let mut best_len: usize = 0;
    let mut i: usize = 0;
    while i < 8
        invariant
            i <= 8,
            g@.len() == 8,
            gn == group_nats(g@),
            best_start as nat == longest_zero_run(gn, i as nat).0,
            best_len as nat == longest_zero_run(gn, i as nat).1,
            best_start + best_len <= 8,
        decreases 8 - i,
    {
        let mut j = i;
        while j < 8 && g[j] == 0
            invariant
                i <= j <= 8,
                g@.len() == 8,
                gn == group_nats(g@),
                forall|k: int| i <= k < j ==> #[trigger] gn[k] == 0,
            decreases 8 - j,
        {
            j = j + 1;
        }
        proof {
            lemma_zero_run(gn, i as int, j as int);
        }
        if j - i > best_len {
            best_start = i;
            best_len = j - i;
        }
        i = i + 1;
    }
    (best_start, best_len)
}

/// Appends the standard text of `v`.
fn push_v6_text(out: &mut Vec<char>, v: u128)
    ensures
        final(out)@ == old(out)@ + v6_text_of(v as nat),
{
    let g = groups_of(v);
    let ghost gn = group_nats(g@);
    proof {
        assert(gn[0] == g@[0] as nat && gn[1] == g@[1] as nat && gn[2] == g@[2] as nat);
        assert(gn[3] == g@[3] as nat && gn[4] == g@[4] as nat && gn[5] == g@[5] as nat);
    }
    if g[0] == 0 && g[1] == 0 && g[2] == 0 && g[3] == 0 && g[4] == 0 && g[5] == 0xffff {
        out.push(':');
        out.push(':');
        out.push('f');
        out.push('f');
        out.push('f');
        out.push('f');
        out.push(':');
        push_v4_text(out, (v % 0x1_0000_0000) as u32);
        proof {
            assert(final(out)@ =~= old(out)@ + v6_text_of(v as nat));
        }
        return;
    }
    let (start, len) = longest_run(&g);
    if len > 1 {
        push_hex_join(out, &g, 0, start);
        out.push(':');
        out.push(':');
        push_hex_join(out, &g, start + len, 8);
        proof {
            assert(gn.subrange(0, start as int) =~= gn.take(start as int));
            assert(gn.subrange(start + len, 8) =~= gn.skip(start + len));
            assert(final(out)@ =~= old(out)@ + v6_text_of(v as nat));
        }
    } else {
        push_hex_join(out, &g, 0, 8);
        proof {
            assert(gn.subrange(0, 8) =~= gn);
        }
    }
}

impl Ipv4Addr {
    /// The dotted-decimal text of the address.
    pub fn to_string(&self) -> (r: String)
        ensures
            r@ == v4_text_of(self@ as nat),
    {
        let mut v: Vec<char> = Vec::new();
        push_v4_text(&mut v, self.to_bits());
        string_of(&v)
    }
}

impl Ipv6Addr {
    /// The standard text of the address.
    pub fn to_string(&self) -> (r: String)
        ensures
            r@ == v6_text_of(self@ as nat),
    {
        let mut v: Vec<char> = Vec::new();
        push_v6_text(&mut v, self.to_bits());
        string_of(&v)
    }
}

impl IpAddr {
    /// The text of the address in its family's notation.
    pub fn to_string(&self) -> (r: String)
        ensures
            r@ == addr_text_of(self.width(), self.value()),
    {
        match self {
            IpAddr::V4(a) => a.to_string(),
            IpAddr::V6(a) => a.to_string(),
        }
    }
}

impl Ipv4Cidr {
    /// The text `network/prefix`.
    pub fn to_string(&self) -> (r: String)
        ensures
            r@ == cidr_text_of(32, self@.network, self@.prefix),
    {
        let mut v: Vec<char> = Vec::new();
        push_v4_text(&mut v, self.network().to_bits());
        v.push('/');
        push_digits(&mut v, self.prefix_len() as u128, 10);
        proof {
            assert(v@ =~= cidr_text_of(32, self@.network, self@.prefix));
        }
        string_of(&v)
    }
}

impl Ipv6Cidr {
    /// The text `network/prefix`.
    pub fn to_string(&self) -> (r: String)
        ensures
            r@ == cidr_text_of(128, self@.network, self@.prefix),
    {
        let mut v: Vec<char> = Vec::new();
        push_v6_text(&mut v, self.network().to_bits());
        v.push('/');
        push_digits(&mut v, self.prefix_len() as u128, 10);
        proof {
            assert(v@ =~= cidr_text_of(128, self@.network, self@.prefix));
        }
        string_of(&v)
    }
}

impl IpCidr {
    /// The text `network/prefix`.
    pub fn to_string(&self) -> (r: String)
        ensures
            r@ == cidr_text_of(self@.width, self@.network, self@.prefix),
    {
        self.well_formed();
        match self {
            IpCidr::V4(c) => c.to_string(),
            IpCidr::V6(c) => c.to_string(),
        }
    }
}

impl Ipv4Range {
    /// The text `start-end`.
    pub fn to_string(&self) -> (r: String)
        ensures
            r@ == range_text_of(32, self@.0, self@.1),
    {
        let mut v: Vec<char> = Vec::new();
        push_v4_text(&mut v, self.start().to_bits());
        v.push('-');
        push_v4_text(&mut v, self.end().to_bits());
        proof {
            assert(v@ =~= range_text_of(32, self@.0, self@.1));
        }
        string_of(&v)
    }
}

impl Ipv6Range {
    /// The text `start-end`.
    pub fn to_string(&self) -> (r: String)
        ensures
            r@ == range_text_of(128, self@.0, self@.1),
    {
        let mut v: Vec<char> = Vec::new();
        push_v6_text(&mut v, self.start().to_bits());
        v.push('-');
        push_v6_text(&mut v, self.end().to_bits());
        proof {
            assert(v@ =~= range_text_of(128, self@.0, self@.1));
        }
        string_of(&v)
    }
}

impl IpRange {
    /// The text `start-end`.
    pub fn to_string(&self) -> (r: String)
        ensures
            r@ == range_text_of(self.width(), self.span().0, self.span().1),
    {
        match self {
            IpRange::V4(g) => g.to_string(),
            IpRange::V6(g) => g.to_string(),
        }
    }
}

impl IpSet {
    /// The text of the block or range.
    pub fn to_string(&self) -> (r: String)
        ensures
            r@ == match self {
                IpSet::Cidr(c) => cidr_text_of(c@.width, c@.network, c@.prefix),
                IpSet::Range(g) => range_text_of(g.width(), g.span().0, g.span().1),
            },
    {
        match self {
            IpSet::Cidr(c) => c.to_string(),
            IpSet::Range(g) => g.to_string(),
        }
    }
}

} // verus!
