//! Address values of both families, held as plain integers.

use vstd::prelude::*;

verus! {

/// An IPv4 address, held as its 32-bit big-endian integer value.
#[derive(Debug, Clone, Copy, PartialEq, Eq, Structural, Hash, PartialOrd, Ord)]
pub struct Ipv4Addr {
    bits: u32,
}

/// An IPv6 address, held as its 128-bit big-endian integer value.
#[derive(Debug, Clone, Copy, PartialEq, Eq, Structural, Hash, PartialOrd, Ord)]
pub struct Ipv6Addr {
    bits: u128,
}

/// An address of either family.
#[derive(Debug, Clone, Copy, PartialEq, Eq, Structural, Hash, PartialOrd, Ord)]
pub enum IpAddr {
    /// An IPv4 address.
    V4(Ipv4Addr),
    /// An IPv6 address.
    V6(Ipv6Addr),
}

impl View for Ipv4Addr {
    type V = u32;

    closed spec fn view(&self) -> u32 {
        self.bits
    }
}

impl View for Ipv6Addr {
    type V = u128;

    closed spec fn view(&self) -> u128 {
        self.bits
    }
}

impl Ipv4Addr {
    /// The address `a.b.c.d`.
    pub fn new(a: u8, b: u8, c: u8, d: u8) -> (r: Ipv4Addr)
        ensures
            r@ == a * 0x100_0000 + b * 0x1_0000 + c * 0x100 + d,
    {
        Ipv4Addr { bits: (a as u32) * 0x100_0000 + (b as u32) * 0x1_0000 + (c as u32) * 0x100 + d as u32 }
    }

    /// The address whose integer value is `bits`.
    pub fn from_bits(bits: u32) -> (r: Ipv4Addr)
        ensures
            r@ == bits,
    {
        Ipv4Addr { bits }
    }

    /// The integer value of the address.
    pub fn to_bits(self) -> (r: u32)
        ensures
            r == self@,
    {
        self.bits
    }

    /// The four octets, most significant first.
    pub fn octets(self) -> (r: [u8; 4])
        ensures
            r@ == octets_of(self@),
    {
        let b = self.bits;
        [(b / 0x100_0000) as u8, (b / 0x1_0000 % 0x100) as u8, (b / 0x100 % 0x100) as u8, (b % 0x100) as u8]
    }
}

/// The four octets of a 32-bit value, most significant first.
pub open spec fn octets_of(b: u32) -> Seq<u8> {
    seq![(b / 0x100_0000) as u8, (b / 0x1_0000 % 0x100) as u8, (b / 0x100 % 0x100) as u8, (b % 0x100) as u8]
}

impl Ipv6Addr {
    /// The address with the given eight 16-bit groups, most significant first.
    pub fn new(a: u16, b: u16, c: u16, d: u16, e: u16, f: u16, g: u16, h: u16) -> (r: Ipv6Addr)
        ensures
            r@ == value_of_segments(seq![a, b, c, d, e, f, g, h]),
    {
        let segs = vec![a, b, c, d, e, f, g, h];
        proof {
            assert(segs@ =~= seq![a, b, c, d, e, f, g, h]);
        }
        Ipv6Addr { bits: segments_value(&segs) }
    }

    /// The address whose integer value is `bits`.
    pub fn from_bits(bits: u128) -> (r: Ipv6Addr)
        ensures
            r@ == bits,
    {
        Ipv6Addr { bits }
    }

    /// The integer value of the address.
    pub fn to_bits(self) -> (r: u128)
        ensures
            r == self@,
    {
        self.bits
    }
}

/// The 128-bit value of eight 16-bit groups, most significant first.
pub(crate) fn segments_value(segs: &Vec<u16>) -> (r: u128)
    requires
        segs@.len() == 8,
    ensures
        r == value_of_segments(segs@),
{
    let mut acc: u128 = 0;
    let mut i: usize = 0;
    while i < 8
        invariant
            i <= 8,
            segs@.len() == 8,
            acc == value_of_segments(segs@.take(i as int)),
            acc < pow2_16k(i as nat),
        decreases 8 - i,
    {
        proof {
            lemma_value_of_segments_step(segs@, i as nat);
            lemma_pow2_16k_step(i as nat);
        }
        acc = acc * 0x1_0000 + segs[i] as u128;
        i = i + 1;
    }
    proof {
        assert(segs@.take(8) =~= segs@);
    }
    acc
}

/// The value of a sequence of 16-bit groups, most significant first.
pub open spec fn value_of_segments(s: Seq<u16>) -> nat
    decreases s.len(),
{
    if s.len() == 0 {
        0
    } else {
        value_of_segments(s.drop_last()) * 0x1_0000 + s.last() as nat
    }
}

/// `pow2(16 * k)`, as a product of group sizes.
pub open spec fn pow2_16k(k: nat) -> nat
    decreases k,
{
    if k == 0 {
        1
    } else {
        pow2_16k((k - 1) as nat) * 0x1_0000
    }
}

/// `pow2_16k` is positive.
pub proof fn lemma_pow2_16k_pos(k: nat)
    ensures
        pow2_16k(k) > 0,
    decreases k,
{
    if k > 0 {
        lemma_pow2_16k_pos((k - 1) as nat);
    }
}

proof fn lemma_pow2_16k_step(k: nat)
    requires
        k < 8,
    ensures
        pow2_16k(k + 1) == pow2_16k(k) * 0x1_0000,
        pow2_16k(k) * 0x1_0000 <= 0x1_0000_0000_0000_0000_0000_0000_0000_0000,
    decreases k,
{
    reveal_with_fuel(pow2_16k, 9);
}

proof fn lemma_value_of_segments_step(s: Seq<u16>, i: nat)
    requires
        i < s.len(),
    ensures
        value_of_segments(s.take(i as int + 1)) == value_of_segments(s.take(i as int)) * 0x1_0000
            + s[i as int],
{
    assert(s.take(i as int + 1).drop_last() =~= s.take(i as int));
}

impl IpAddr {
    /// The address width of the family: 32 or 128.
    pub open spec fn width(self) -> nat {
        match self {
            IpAddr::V4(_) => 32,
            IpAddr::V6(_) => 128,
        }
    }

    /// The integer value of the address.
    pub open spec fn value(self) -> nat {
        match self {
            IpAddr::V4(a) => a@ as nat,
            IpAddr::V6(a) => a@ as nat,
        }
    }

    /// `true` for an IPv4 address.
    pub fn is_ipv4(&self) -> (r: bool)
        ensures
            r == (self is V4),
    {
        matches!(self, IpAddr::V4(_))
    }

    /// `true` for an IPv6 address.
    pub fn is_ipv6(&self) -> (r: bool)
        ensures
            r == (self is V6),
    {
        matches!(self, IpAddr::V6(_))
    }
}

} // verus!
