//! The arithmetic model shared by both address families.
//!
//! An address of a `width`-bit family is a natural number below
//! `pow2(width)`. A CIDR block of prefix length `p` is the run of
//! `pow2(width - p)` addresses starting at a multiple of that size.
//! Every operation of the library is stated over this model; the exec
//! helpers here compute it on `u128` for both widths (32 and 128).

use vstd::prelude::*;
use vstd::arithmetic::power2::*;
use vstd::arithmetic::div_mod::*;

verus! {

/// The abstract shape of a CIDR block.
pub struct Block {
    /// Address width of the family: 32 for IPv4, 128 for IPv6.
    pub width: nat,
    /// The network (lowest) address.
    pub network: nat,
    /// The prefix length.
    pub prefix: nat,
}

impl Block {
    /// Number of addresses in the block.
    pub open spec fn size(self) -> nat {
        pow2((self.width - self.prefix) as nat)
    }

    /// The highest address in the block.
    pub open spec fn last(self) -> int {
        self.network + self.size() - 1
    }

    /// A block is well formed when its prefix fits the family, it lies inside
    /// the address space, and its network is aligned to its size.
    pub open spec fn wf(self) -> bool {
        &&& self.width == 32 || self.width == 128
        &&& self.prefix <= self.width
        &&& self.network + self.size() <= pow2(self.width)
        &&& self.network % self.size() == 0
    }

    /// Membership of an address in the block.
    pub open spec fn contains(self, a: int) -> bool {
        self.network <= a <= self.last()
    }

    /// Every address of `other` is an address of `self`.
    pub open spec fn contains_block(self, other: Block) -> bool {
        self.network <= other.network && other.last() <= self.last()
    }

    /// The two blocks share at least one address.
    pub open spec fn overlaps(self, other: Block) -> bool {
        self.network <= other.last() && other.network <= self.last()
    }

    /// The lower half of the block (one prefix bit longer).
    pub open spec fn lower_half(self) -> Block {
        Block { width: self.width, network: self.network, prefix: self.prefix + 1 }
    }

    /// The upper half of the block (one prefix bit longer).
    pub open spec fn upper_half(self) -> Block {
        Block {
            width: self.width,
            network: self.network + pow2((self.width - self.prefix - 1) as nat),
            prefix: self.prefix + 1,
        }
    }
}

/// A raw `(network, prefix)` pair of a `width`-bit family, read as a block.
pub open spec fn raw(width: nat, t: (u128, u8)) -> Block {
    Block { width, network: t.0 as nat, prefix: t.1 as nat }
}

/// A sequence of raw pairs, read as blocks.
pub open spec fn raw_blocks(width: nat, s: Seq<(u128, u8)>) -> Seq<Block> {
    s.map_values(|t: (u128, u8)| raw(width, t))
}

/// Every block of the sequence is well formed.
pub open spec fn all_wf(s: Seq<Block>) -> bool {
    forall|i: int| 0 <= i < s.len() ==> #[trigger] s[i].wf()
}

/// The blocks are in strictly ascending address order and pairwise disjoint.
pub open spec fn ascending(s: Seq<Block>) -> bool {
    forall|i: int, j: int| 0 <= i < j < s.len() ==> #[trigger] s[i].last() < #[trigger] s[j].network
}

/// Some block of the sequence holds address `x`.
pub open spec fn covers(s: Seq<Block>, x: int) -> bool {
    exists|i: int| 0 <= i < s.len() && #[trigger] s[i].contains(x)
}

/// The block of prefix length `prefix` that contains address `a`.
pub open spec fn block_of(width: nat, a: nat, prefix: nat) -> Block {
    Block {
        width,
        network: (a - a % pow2((width - prefix) as nat)) as nat,
        prefix,
    }
}

/// `pow2(32)` and `pow2(128)` as literals.
pub proof fn lemma_pow2_widths()
    ensures
        pow2(32) == 0x1_0000_0000,
        pow2(64) == 0x1_0000_0000_0000_0000,
        pow2(128) == 0x1_0000_0000_0000_0000_0000_0000_0000_0000,
{
    lemma2_to64();
    lemma_pow2_adds(64, 64);
}

/// Shifting one left by `k` is `pow2(k)` on `u128`.
pub proof fn lemma_u128_shl_one(k: u128)
    requires
        k < 128,
    ensures
        (1u128 << k) == pow2(k as nat),
        pow2(k as nat) < pow2(128),
    decreases k,
{
    lemma_pow2_widths();
    lemma_pow2_strictly_increases(k as nat, 128);
    if k == 0 {
        assert(1u128 << 0u128 == 1u128) by (bit_vector);
        lemma2_to64();
    } else {
        let km1 = (k - 1) as u128;
        assert(1u128 << k == (1u128 << km1) * 2) by (bit_vector)
            requires
                0 < k < 128,
                km1 == k - 1,
        ;
        lemma_u128_shl_one((k - 1) as u128);
        lemma_pow2_unfold(k as nat);
        lemma_pow2_strictly_increases((k - 1) as nat, 127);
        lemma_pow2_adds(127, 1);
        lemma2_to64();
    }
}

/// Rounding down to a multiple of `s`.
pub proof fn lemma_align_down(a: int, s: int)
    requires
        a >= 0,
        s > 0,
    ensures
        (a - a % s) % s == 0,
        0 <= a % s < s,
        0 <= a - a % s <= a < a - a % s + s,
{
    lemma_fundamental_div_mod(a, s);
    lemma_mod_bound(a, s);
    lemma_mod_multiples_basic(a / s, s);
    lemma_div_pos_is_pos(a, s);
    assert(a - a % s == (a / s) * s) by (nonlinear_arith)
        requires
            a == s * (a / s) + a % s,
    ;
    assert((a / s) * s >= 0) by (nonlinear_arith)
        requires
            a / s >= 0,
            s > 0,
    ;
}

/// Sums of multiples of `s` are multiples of `s`.
pub proof fn lemma_sum_multiple(a: int, b: int, s: int)
    requires
        s > 0,
        a % s == 0,
        b % s == 0,
    ensures
        (a + b) % s == 0,
{
    vstd::arithmetic::div_mod::lemma_fundamental_div_mod(a, s);
    vstd::arithmetic::div_mod::lemma_fundamental_div_mod(b, s);
    let q = a / s + b / s;
    assert(a + b == q * s) by (nonlinear_arith)
        requires
            a == s * (a / s) + a % s,
            b == s * (b / s) + b % s,
            a % s == 0,
            b % s == 0,
            q == a / s + b / s,
    ;
    vstd::arithmetic::div_mod::lemma_mod_multiples_basic(q, s);
}

/// Sizes of nested blocks divide each other.
pub proof fn lemma_pow2_divides(small: nat, big: nat)
    requires
        small <= big,
    ensures
        pow2(big) % pow2(small) == 0,
        pow2(big) == pow2(small) * pow2((big - small) as nat),
        pow2(small) <= pow2(big),
{
    lemma_pow2_adds(small, (big - small) as nat);
    lemma_pow2_pos(small);
    lemma_pow2_pos((big - small) as nat);
    lemma_mod_multiples_basic(pow2((big - small) as nat) as int, pow2(small) as int);
    vstd::arithmetic::mul::lemma_mul_is_commutative(pow2(small) as int, pow2((big - small) as nat) as int);
    vstd::arithmetic::mul::lemma_mul_increases(pow2((big - small) as nat) as int, pow2(small) as int);
}

/// A multiple of a larger power of two is a multiple of a smaller one.
pub proof fn lemma_mod_pow2_weaken(a: int, small: nat, big: nat)
    requires
        small <= big,
        a % (pow2(big) as int) == 0,
    ensures
        a % (pow2(small) as int) == 0,
{
    lemma_pow2_divides(small, big);
    lemma_pow2_pos(small);
    lemma_pow2_pos(big);
    let q = pow2((big - small) as nat) as int;
    let sm = pow2(small) as int;
    lemma_fundamental_div_mod(a, pow2(big) as int);
    let k = a / (pow2(big) as int);
    assert(a == (k * q) * sm) by (nonlinear_arith)
        requires
            a == (pow2(big) as int) * k + 0,
            (pow2(big) as int) == sm * q,
    ;
    lemma_mod_multiples_basic(k * q, sm);
}

/// `pow2(width - prefix)` as a `u128`, or `None` when it is `pow2(128)`.
pub fn size_u128(width: u8, prefix: u8) -> (r: Option<u128>)
    requires
        width == 32 || width == 128,
        prefix <= width,
    ensures
        match r {
            Some(s) => s == pow2((width - prefix) as nat) && s > 0,
            None => width == 128 && prefix == 0,
        },
        pow2((width - prefix) as nat) <= pow2(128),
{
    proof {
        lemma_pow2_widths();
        lemma_pow2_divides((width - prefix) as nat, 128);
    }
    let k = width - prefix;
    if k >= 128 {
        None
    } else {
        proof {
            lemma_u128_shl_one(k as u128);
            lemma_pow2_pos(k as nat);
        }
        Some(1u128 << (k as u128))
    }
}

/// `pow2(width - prefix) - 1`: the host part of a block, as a raw integer.
pub fn host_span(width: u8, prefix: u8) -> (r: u128)
    requires
        width == 32 || width == 128,
        prefix <= width,
    ensures
        r == pow2((width - prefix) as nat) - 1,
{
    proof {
        lemma_pow2_widths();
    }
    match size_u128(width, prefix) {
        Some(s) => s - 1,
        None => u128::MAX,
    }
}

/// The network address of the `prefix`-length block holding `a`.
pub fn align_down(width: u8, a: u128, prefix: u8) -> (r: u128)
    requires
        width == 32 || width == 128,
        prefix <= width,
        a < pow2(width as nat),
    ensures
        r == block_of(width as nat, a as nat, prefix as nat).network,
        block_of(width as nat, a as nat, prefix as nat).wf(),
        block_of(width as nat, a as nat, prefix as nat).contains(a as int),
{
    let ghost s = pow2((width - prefix) as nat);
    proof {
        lemma_pow2_pos((width - prefix) as nat);
        lemma_align_down(a as int, s as int);
        lemma_pow2_divides((width - prefix) as nat, width as nat);
        lemma_pow2_widths();
        // a - a % s + s <= pow2(width): both are multiples of s and a < pow2(width)
        lemma_round_up_within(a as int, s as int, pow2(width as nat) as int);
    }
    match size_u128(width, prefix) {
        Some(sz) => a - a % sz,
        None => {
            proof {
                lemma_small_mod(a as nat, s);
            }
            0
        },
    }
}

/// If `a < m`, `m` is a multiple of `s`, then the block of `a` ends within `m`.
proof fn lemma_round_up_within(a: int, s: int, m: int)
    requires
        0 <= a < m,
        s > 0,
        m % s == 0,
    ensures
        a - a % s + s <= m,
{
    lemma_fundamental_div_mod(a, s);
    lemma_fundamental_div_mod(m, s);
    lemma_mod_pos_bound(a, s);
    let qa = a / s;
    let qm = m / s;
    assert(qa < qm) by (nonlinear_arith)
        requires
            a == s * qa + a % s,
            m == s * qm,
            0 <= a % s < s,
            a < m,
            s > 0,
    ;
    assert(s * qa + s <= s * qm) by (nonlinear_arith)
        requires
            qa < qm,
            s > 0,
    ;
}

} // verus!

verus! {

/// Two multiples of `s` that differ are at least `s` apart.
pub proof fn lemma_multiples_gap(x: int, y: int, s: int)
    requires
        s > 0,
        x >= 0,
        y >= 0,
        x % s == 0,
        y % s == 0,
        x < y,
    ensures
        x + s <= y,
{
    lemma_fundamental_div_mod(x, s);
    lemma_fundamental_div_mod(y, s);
    let qx = x / s;
    let qy = y / s;
    assert(qx < qy) by (nonlinear_arith)
        requires
            x == s * qx,
            y == s * qy,
            x < y,
            s > 0,
    ;
    assert(s * qx + s <= s * qy) by (nonlinear_arith)
        requires
            qx < qy,
            s > 0,
    ;
}

/// An address inside an aligned block rounds down to the block's network.
pub proof fn lemma_round_down_in_block(n: int, x: int, s: int)
    requires
        s > 0,
        n >= 0,
        n % s == 0,
        n <= x < n + s,
    ensures
        x % s == x - n,
        x - x % s == n,
{
    lemma_fundamental_div_mod(n, s);
    let q = n / s;
    assert(x == q * s + (x - n)) by (nonlinear_arith)
        requires
            n == s * q + 0,
    ;
    lemma_fundamental_div_mod_converse_mod(x, s, q, x - n);
}

/// Facts about a well-formed block: its end fits the address space, and a
/// shorter-or-equal prefix size is a multiple of its size.
pub proof fn lemma_wf_facts(b: Block)
    requires
        b.wf(),
    ensures
        b.size() > 0,
        b.network <= b.last(),
        b.last() < pow2(b.width),
        pow2(b.width) <= pow2(128),
        ((b.network + b.size()) as int) % (b.size() as int) == 0,
        b.width == 128 ==> pow2(b.width) == 0x1_0000_0000_0000_0000_0000_0000_0000_0000,
        b.width == 32 ==> pow2(b.width) == 0x1_0000_0000,
{
    lemma_pow2_pos((b.width - b.prefix) as nat);
    lemma_pow2_widths();
    lemma_pow2_divides(b.width, 128);
    lemma_mod_adds(b.network as int, b.size() as int, b.size() as int);
    lemma_mod_self_0(b.size() as int);
}

/// A block of prefix `p` at network `n` is nested in or disjoint from any
/// block whose prefix is not longer.
pub proof fn lemma_nested_or_disjoint(a: Block, b: Block)
    requires
        a.wf(),
        b.wf(),
        a.width == b.width,
        a.prefix <= b.prefix,
    ensures
        a.contains_block(b) || b.last() < a.network || a.last() < b.network,
        a.contains(b.network as int) ==> a.contains_block(b),
{
    lemma_wf_facts(a);
    lemma_wf_facts(b);
    lemma_pow2_divides((b.width - b.prefix) as nat, (a.width - a.prefix) as nat);
    lemma_mod_pow2_weaken(a.network as int, (b.width - b.prefix) as nat, (a.width - a.prefix) as nat);
    lemma_mod_pow2_weaken(
        (a.network + a.size()) as int,
        (b.width - b.prefix) as nat,
        (a.width - a.prefix) as nat,
    );
    if b.network < a.network {
        lemma_multiples_gap(b.network as int, a.network as int, b.size() as int);
    } else if b.network <= a.last() {
        lemma_multiples_gap(b.network as int, (a.network + a.size()) as int, b.size() as int);
    }
}

/// Containment of blocks, characterised by prefixes: `a` holds `b` exactly
/// when `b`'s prefix is not shorter and `b`'s network rounds down to `a`'s.
pub proof fn lemma_contains_block_iff(a: Block, b: Block)
    requires
        a.wf(),
        b.wf(),
        a.width == b.width,
    ensures
        a.contains_block(b) <==> (a.prefix <= b.prefix && block_of(a.width, b.network, a.prefix).network
            == a.network),
{
    lemma_wf_facts(a);
    lemma_wf_facts(b);
    if a.contains_block(b) {
        if a.prefix > b.prefix {
            lemma_pow2_strictly_increases((a.width - a.prefix) as nat, (b.width - b.prefix) as nat);
        }
        lemma_round_down_in_block(a.network as int, b.network as int, a.size() as int);
    }
    if a.prefix <= b.prefix && block_of(a.width, b.network, a.prefix).network == a.network {
        lemma_align_down(b.network as int, a.size() as int);
        lemma_nested_or_disjoint(a, b);
    }
}

/// Splitting a block gives two well-formed, adjacent halves that exactly
/// cover it.
pub proof fn lemma_halves(b: Block)
    requires
        b.wf(),
        b.prefix < b.width,
    ensures
        b.lower_half().wf(),
        b.upper_half().wf(),
        b.lower_half().size() * 2 == b.size(),
        b.lower_half().last() + 1 == b.upper_half().network,
        b.upper_half().last() == b.last(),
        b.lower_half().network == b.network,
        forall|x: int| b.contains(x) <==> (b.lower_half().contains(x) || b.upper_half().contains(x)),
{
    let k = (b.width - b.prefix - 1) as nat;
    lemma_pow2_unfold((k + 1) as nat);
    lemma_pow2_pos(k);
    lemma_mod_pow2_weaken(b.network as int, k, (k + 1) as nat);
    lemma_mod_adds(b.network as int, pow2(k) as int, pow2(k) as int);
    lemma_mod_self_0(pow2(k) as int);
}

/// Blocks of an address-ascending sequence are pairwise disjoint.
pub proof fn lemma_ascending_disjoint(s: Seq<Block>, i: int, j: int, x: int)
    requires
        all_wf(s),
        ascending(s),
        0 <= i < s.len(),
        0 <= j < s.len(),
        i != j,
        s[i].contains(x),
    ensures
        !s[j].contains(x),
{
    if i < j {
        assert(s[i].last() < s[j].network);
    } else {
        assert(s[j].last() < s[i].network);
    }
}

} // verus!

verus! {

/// The highest address of a well-formed block.
pub fn last_raw(width: u8, network: u128, prefix: u8) -> (r: u128)
    requires
        raw(width as nat, (network, prefix)).wf(),
    ensures
        r == raw(width as nat, (network, prefix)).last(),
{
    proof {
        lemma_wf_facts(raw(width as nat, (network, prefix)));
    }
    network + host_span(width, prefix)
}

/// Whether block `a` holds every address of block `b`.
pub fn contains_block_raw(width: u8, a: (u128, u8), b: (u128, u8)) -> (r: bool)
    requires
        raw(width as nat, a).wf(),
        raw(width as nat, b).wf(),
    ensures
        r == raw(width as nat, a).contains_block(raw(width as nat, b)),
{
    proof {
        lemma_contains_block_iff(raw(width as nat, a), raw(width as nat, b));
        lemma_wf_facts(raw(width as nat, b));
    }
    a.1 <= b.1 && align_down(width, b.0, a.1) == a.0
}

/// Whether blocks `a` and `b` share an address.
pub fn overlaps_raw(width: u8, a: (u128, u8), b: (u128, u8)) -> (r: bool)
    requires
        raw(width as nat, a).wf(),
        raw(width as nat, b).wf(),
    ensures
        r == raw(width as nat, a).overlaps(raw(width as nat, b)),
{
    a.0 <= last_raw(width, b.0, b.1) && b.0 <= last_raw(width, a.0, a.1)
}

/// Subtract block `b` from block `a`: the aligned blocks covering exactly the
/// addresses of `a` outside `b`, in ascending order.
pub fn exclude_raw(width: u8, a: (u128, u8), b: (u128, u8)) -> (r: Vec<(u128, u8)>)
    requires
        raw(width as nat, a).wf(),
        raw(width as nat, b).wf(),
    ensures
        all_wf(raw_blocks(width as nat, r@)),
        ascending(raw_blocks(width as nat, r@)),
        forall|x: int|
            covers(raw_blocks(width as nat, r@), x) <==> (raw(width as nat, a).contains(x) && !raw(
                width as nat,
                b,
            ).contains(x)),
        !raw(width as nat, a).overlaps(raw(width as nat, b)) ==> r@ == seq![a],
        raw(width as nat, b).contains_block(raw(width as nat, a)) ==> r@.len() == 0,
        raw(width as nat, a).overlaps(raw(width as nat, b)) && !raw(width as nat, b).contains_block(
            raw(width as nat, a),
        ) ==> r@.len() == b.1 - a.1,
{
    let ghost w = width as nat;
    let ghost ba = raw(w, a);
    let ghost bb = raw(w, b);
    proof {
        lemma_wf_facts(ba);
        lemma_wf_facts(bb);
    }
    if !overlaps_raw(width, a, b) {
        let r = vec![a];
        proof {
            let rb = raw_blocks(w, r@);
            assert(rb[0] == ba);
            assert forall|x: int| covers(rb, x) <==> (ba.contains(x) && !bb.contains(x)) by {
                if ba.contains(x) {
                    assert(rb[0].contains(x));
                }
            }
        }
        return r;
    }
    if contains_block_raw(width, b, a) {
        let r: Vec<(u128, u8)> = Vec::new();
        proof {
            let rb = raw_blocks(w, r@);
            assert forall|x: int| covers(rb, x) <==> (ba.contains(x) && !bb.contains(x)) by {}
        }
        return r;
    }
    // `b` is a strict sub-block of `a`: blocks never partially overlap.
    proof {
        if ba.prefix <= bb.prefix {
            lemma_nested_or_disjoint(ba, bb);
        } else {
            lemma_nested_or_disjoint(bb, ba);
        }
        assert(ba.contains_block(bb));
        if ba.prefix >= bb.prefix {
            lemma_contains_block_iff(bb, ba);
            lemma_contains_block_iff(ba, bb);
            assert(false);
        }
    }
    let mut lows: Vec<(u128, u8)> = Vec::new();
    let mut highs: Vec<(u128, u8)> = Vec::new();
    let mut cur_n = a.0;
    let mut cur_p = a.1;
    while cur_p < b.1
        invariant
            w == width as nat,
            ba == raw(w, a),
            bb == raw(w, b),
            ba.wf(),
            bb.wf(),
            raw(w, (cur_n, cur_p)).wf(),
            raw(w, (cur_n, cur_p)).contains_block(bb),
            ba.contains_block(raw(w, (cur_n, cur_p))),
            a.1 <= cur_p <= b.1,
            all_wf(raw_blocks(w, lows@)),
            all_wf(raw_blocks(w, highs@)),
            ascending(raw_blocks(w, lows@)),
            ascending(raw_blocks(w, highs@)),
            forall|i: int|
                0 <= i < lows@.len() ==> #[trigger] raw(w, lows@[i]).last() < cur_n,
            forall|i: int|
                0 <= i < highs@.len() ==> #[trigger] raw(w, highs@[i]).network > raw(
                    w,
                    (cur_n, cur_p),
                ).last(),
            forall|x: int|
                (covers(raw_blocks(w, lows@), x) || covers(raw_blocks(w, highs@), x)) <==> (
                ba.contains(x) && !raw(w, (cur_n, cur_p)).contains(x)),
            lows@.len() + highs@.len() == cur_p - a.1,
        decreases b.1 - cur_p,
    {
        let ghost cur = raw(w, (cur_n, cur_p));
        let ghost old_lows = lows@;
        let ghost old_highs = highs@;
        proof {
            lemma_halves(cur);
            lemma_wf_facts(cur);
        }
        let child = cur_p + 1;
        let half = match size_u128(width, child) {
            Some(s) => s,
            None => {
                proof {
                    assert(false);
                }
                0
            },
        };
        let upper_n = cur_n + half;
        let ghost lower = cur.lower_half();
        let ghost upper = cur.upper_half();
        assert(raw(w, (cur_n, child)) == lower);
        assert(raw(w, (upper_n, child)) == upper);
        if b.0 >= upper_n {
            proof {
                lemma_nested_or_disjoint(upper, bb);
            }
            lows.push((cur_n, child));
            cur_n = upper_n;
            cur_p = child;
            proof {
                let lb = raw_blocks(w, lows@);
                let olb = raw_blocks(w, old_lows);
                assert(lb =~= olb.push(lower));
                assert forall|i: int, j: int| 0 <= i < j < lb.len() implies #[trigger] lb[i].last()
                    < #[trigger] lb[j].network by {
                    if j < olb.len() {
                        assert(olb[i].last() < olb[j].network);
                    } else {
                        assert(raw(w, old_lows[i]).last() < cur.network);
                    }
                }
                assert forall|i: int| 0 <= i < lows@.len() implies #[trigger] raw(
                    w,
                    lows@[i],
                ).last() < cur_n by {
                    if i < old_lows.len() {
                        assert(raw(w, old_lows[i]).last() < cur.network);
                    }
                }
                let hb = raw_blocks(w, highs@);
                assert forall|x: int|
                    (covers(lb, x) || covers(hb, x)) <==> (ba.contains(x) && !upper.contains(
                        x,
                    )) by {
                    if covers(lb, x) {
                        let i = choose|i: int| 0 <= i < lb.len() && #[trigger] lb[i].contains(x);
                        if i < olb.len() {
                            assert(olb[i].contains(x));
                        }
                    }
                    if ba.contains(x) && !upper.contains(x) {
                        if lower.contains(x) {
                            assert(lb[lb.len() - 1].contains(x));
                        } else if covers(olb, x) {
                            let i = choose|i: int| 0 <= i < olb.len() && #[trigger] olb[i].contains(x);
                            assert(lb[i].contains(x));
                        }
                    }
                }
            }
        } else {
            proof {
                lemma_nested_or_disjoint(lower, bb);
            }
            highs.insert(0, (upper_n, child));
            cur_p = child;
            proof {
                let hb = raw_blocks(w, highs@);
                let ohb = raw_blocks(w, old_highs);
                assert(hb =~= seq![upper] + ohb);
                assert forall|i: int, j: int| 0 <= i < j < hb.len() implies #[trigger] hb[i].last()
                    < #[trigger] hb[j].network by {
                    if i > 0 {
                        assert(ohb[i - 1].last() < ohb[j - 1].network);
                    } else {
                        assert(raw(w, old_highs[j - 1]).network > cur.last());
                    }
                }
                assert forall|i: int| 0 <= i < highs@.len() implies #[trigger] raw(
                    w,
                    highs@[i],
                ).network > raw(w, (cur_n, cur_p)).last() by {
                    if i > 0 {
                        assert(raw(w, old_highs[i - 1]).network > cur.last());
                    }
                }
                let lb = raw_blocks(w, lows@);
                assert forall|x: int|
                    (covers(lb, x) || covers(hb, x)) <==> (ba.contains(x) && !lower.contains(
                        x,
                    )) by {
                    if covers(hb, x) {
                        let i = choose|i: int| 0 <= i < hb.len() && #[trigger] hb[i].contains(x);
                        if i > 0 {
                            assert(ohb[i - 1].contains(x));
                        }
                    }
                    if ba.contains(x) && !lower.contains(x) {
                        if upper.contains(x) {
                            assert(hb[0].contains(x));
                        } else {
                            if covers(ohb, x) {
                                let i = choose|i: int|
                                    0 <= i < ohb.len() && #[trigger] ohb[i].contains(x);
                                assert(hb[i + 1].contains(x));
                            }
                        }
                    }
                }
            }
        }
    }
    proof {
        let cur = raw(w, (cur_n, cur_p));
        assert(cur == bb);
        let lb = raw_blocks(w, lows@);
        let hb = raw_blocks(w, highs@);
        let ghost_l = lows@;
        let ghost_h = highs@;
        assert(raw_blocks(w, ghost_l + ghost_h) =~= lb + hb);
    }
    let ghost ghost_l = lows@;
    let ghost ghost_h = highs@;
    lows.append(&mut highs);
    proof {
        let lb = raw_blocks(w, ghost_l);
        let hb = raw_blocks(w, ghost_h);
        let rb = raw_blocks(w, lows@);
        assert(rb =~= lb + hb);
        assert forall|i: int, j: int| 0 <= i < j < rb.len() implies #[trigger] rb[i].last()
            < #[trigger] rb[j].network by {
            if j < lb.len() {
                assert(lb[i].last() < lb[j].network);
            } else if i >= lb.len() {
                assert(hb[i - lb.len()].last() < hb[j - lb.len()].network);
            } else {
                assert(raw(w, ghost_l[i]).last() < cur_n);
                assert(raw(w, ghost_h[j - lb.len()]).network > bb.last());
            }
        }
        assert forall|x: int| covers(rb, x) <==> (covers(lb, x) || covers(hb, x)) by {
            if covers(rb, x) {
                let i = choose|i: int| 0 <= i < rb.len() && #[trigger] rb[i].contains(x);
                if i < lb.len() {
                    assert(lb[i].contains(x));
                } else {
                    assert(hb[i - lb.len()].contains(x));
                }
            }
            if covers(lb, x) {
                let i = choose|i: int| 0 <= i < lb.len() && #[trigger] lb[i].contains(x);
                assert(rb[i].contains(x));
            }
            if covers(hb, x) {
                let i = choose|i: int| 0 <= i < hb.len() && #[trigger] hb[i].contains(x);
                assert(rb[i + lb.len()].contains(x));
            }
        }
    }
    lows
}

} // verus!

verus! {

/// A block of `pow2(k)` addresses can start at `cur` and still end by `end`.
pub open spec fn fits(cur: int, end: int, k: nat) -> bool {
    cur % (pow2(k) as int) == 0 && cur + pow2(k) - 1 <= end
}

/// `b` is the largest aligned block that starts at its network and ends by `end`.
pub open spec fn maximal_within(b: Block, end: int) -> bool {
    &&& fits(b.network as int, end, (b.width - b.prefix) as nat)
    &&& (b.prefix == 0 || !fits(b.network as int, end, (b.width - b.prefix + 1) as nat))
}

/// The blocks follow each other without a gap.
pub open spec fn consecutive(s: Seq<Block>) -> bool {
    forall|i: int| 0 <= i < s.len() - 1 ==> #[trigger] s[i].last() + 1 == s[i + 1].network
}

/// A sequence of blocks that follow each other is in ascending order.
pub proof fn lemma_consecutive_ascending(s: Seq<Block>)
    requires
        all_wf(s),
        consecutive(s),
    ensures
        ascending(s),
        s.len() > 0 ==> forall|x: int|
            covers(s, x) <==> s[0].network <= x <= s[s.len() - 1].last(),
    decreases s.len(),
{
    if s.len() > 0 {
        let t = s.drop_last();
        assert(all_wf(t));
        assert(consecutive(t));
        lemma_consecutive_ascending(t);
        let n = s.len() - 1;
        lemma_wf_facts(s[n]);
        // every earlier block ends before the last one starts
        assert forall|i: int| 0 <= i < n implies #[trigger] s[i].last() < s[n].network by {
            if n > 0 {
                lemma_wf_facts(s[n - 1]);
                if i < n - 1 {
                    assert(t[i].last() < t[n - 1].network);
                }
            }
        }
        assert forall|i: int, j: int| 0 <= i < j < s.len() implies #[trigger] s[i].last()
            < #[trigger] s[j].network by {
            if j < n {
                assert(t[i].last() < t[j].network);
            }
        }
        assert forall|x: int| covers(s, x) <==> s[0].network <= x <= s[n].last() by {
            if covers(s, x) {
                let i = choose|i: int| 0 <= i < s.len() && #[trigger] s[i].contains(x);
                lemma_wf_facts(s[0]);
                if i < n {
                    assert(t[i].contains(x));
                    assert(covers(t, x));
                    lemma_wf_facts(s[n - 1]);
                } else if n > 0 {
                    assert(s[0].last() < s[n].network);
                }
            }
            if s[0].network <= x <= s[n].last() {
                if x >= s[n].network {
                    assert(s[n].contains(x));
                } else {
                    assert(n > 0);
                    lemma_wf_facts(s[n - 1]);
                    assert(t[0] == s[0]);
                    assert(covers(t, x));
                    let i = choose|i: int| 0 <= i < t.len() && #[trigger] t[i].contains(x);
                    assert(s[i].contains(x));
                }
            }
        }
    }
}

/// Whether a block of `pow2(k)` addresses fits at `cur` within `end`.
fn fits_exec(width: u8, cur: u128, end: u128, k: u8) -> (r: bool)
    requires
        width == 32 || width == 128,
        1 <= k <= width,
        cur <= end,
        end < pow2(width as nat),
    ensures
        r == fits(cur as int, end as int, k as nat),
{
    proof {
        lemma_pow2_widths();
        lemma_pow2_pos(k as nat);
    }
    if k >= 128 {
        proof {
            if cur != 0 {
                lemma_small_mod(cur as nat, pow2(128));
            }
        }
        cur == 0 && end == u128::MAX
    } else {
        proof {
            lemma_u128_shl_one(k as u128);
        }
        let s = 1u128 << (k as u128);
        cur % s == 0 && s - 1 <= end - cur
    }
}

/// Decompose `start..=end` into the aligned blocks chosen greedily: at each
/// step the largest block that starts at the current address and fits.
pub fn range_to_blocks(width: u8, start: u128, end: u128) -> (r: Vec<(u128, u8)>)
    requires
        width == 32 || width == 128,
        start <= end,
        end < pow2(width as nat),
    ensures
        r@.len() > 0,
        all_wf(raw_blocks(width as nat, r@)),
        consecutive(raw_blocks(width as nat, r@)),
        ascending(raw_blocks(width as nat, r@)),
        raw_blocks(width as nat, r@)[0].network == start,
        raw_blocks(width as nat, r@)[r@.len() - 1].last() == end,
        forall|i: int|
            0 <= i < r@.len() ==> maximal_within(#[trigger] raw_blocks(width as nat, r@)[i], end as int),
        forall|x: int| covers(raw_blocks(width as nat, r@), x) <==> start <= x <= end,
{
    let ghost w = width as nat;
    let mut out: Vec<(u128, u8)> = Vec::new();
    let mut cur = start;
    proof {
        lemma_pow2_widths();
    }
    loop
        invariant_except_break
            w == width as nat,
            width == 32 || width == 128,
            start <= cur <= end,
            end < pow2(w),
            all_wf(raw_blocks(w, out@)),
            consecutive(raw_blocks(w, out@)),
            out@.len() == 0 ==> cur == start,
            out@.len() > 0 ==> raw_blocks(w, out@)[0].network == start,
            out@.len() > 0 ==> raw_blocks(w, out@)[out@.len() - 1].last() + 1 == cur,
            forall|i: int|
                0 <= i < out@.len() ==> maximal_within(#[trigger] raw_blocks(w, out@)[i], end as int),
        ensures
            out@.len() > 0,
            all_wf(raw_blocks(w, out@)),
            consecutive(raw_blocks(w, out@)),
            raw_blocks(w, out@)[0].network == start,
            raw_blocks(w, out@)[out@.len() - 1].last() == end,
            forall|i: int|
                0 <= i < out@.len() ==> maximal_within(#[trigger] raw_blocks(w, out@)[i], end as int),
        decreases end - cur,
    {
        let mut k: u8 = 0;
        proof {
            lemma2_to64();
        }
        while k < width && fits_exec(width, cur, end, k + 1)
            invariant
                width == 32 || width == 128,
                k <= width,
                cur <= end,
                end < pow2(width as nat),
                fits(cur as int, end as int, k as nat),
            decreases width - k,
        {
            k = k + 1;
        }
        let ghost old_out = out@;
        let ghost blk = Block { width: w, network: cur as nat, prefix: (width - k) as nat };
        proof {
            lemma_pow2_pos(k as nat);
            lemma_pow2_divides(k as nat, w);
            assert(blk.size() == pow2(k as nat));
            assert(blk.wf());
            lemma_wf_facts(blk);
            assert(maximal_within(blk, end as int));
        }
        out.push((cur, width - k));
        proof {
            let ob = raw_blocks(w, old_out);
            let nb = raw_blocks(w, out@);
            assert(nb =~= ob.push(blk));
            assert(all_wf(nb));
            assert forall|i: int| 0 <= i < nb.len() - 1 implies #[trigger] nb[i].last() + 1
                == nb[i + 1].network by {
                if i < ob.len() - 1 {
                    assert(ob[i].last() + 1 == ob[i + 1].network);
                }
            }
            assert forall|i: int| 0 <= i < nb.len() implies maximal_within(
                #[trigger] nb[i],
                end as int,
            ) by {
                if i < ob.len() {
                    assert(maximal_within(ob[i], end as int));
                }
            }
        }
        let span = host_span(width, width - k);
        if end - cur == span {
            break;
        }
        cur = cur + span + 1;
    }
    proof {
        lemma_consecutive_ascending(raw_blocks(w, out@));
    }
    out
}

} // verus!

verus! {

/// Lexicographic order on pairs, as `std` compares tuples.
pub open spec fn pair_le(a: (u128, u128), b: (u128, u128)) -> bool {
    a.0 < b.0 || (a.0 == b.0 && a.1 <= b.1)
}

/// Sorts pairs with `slice::sort_unstable`. Its documentation promises that
/// the slice ends up in ascending order (tuples compare lexicographically)
/// and that only the order of the elements changes.
#[verifier::external_body]
fn sort_pairs(v: &mut Vec<(u128, u128)>)
    ensures
        final(v)@.to_multiset() == old(v)@.to_multiset(),
        forall|i: int, j: int| 0 <= i < j < final(v)@.len() ==> pair_le(final(v)@[i], final(v)@[j]),
{
    v.sort_unstable();
}

/// Some span `(first, last)` of the sequence holds `x`.
pub open spec fn span_covers(s: Seq<(u128, u128)>, x: int) -> bool {
    exists|i: int| 0 <= i < s.len() && #[trigger] s[i].0 <= x && x <= s[i].1
}

/// Every address of `lo..=hi` is held by some block of `s`.
pub open spec fn covered_run(s: Seq<Block>, lo: int, hi: int) -> bool {
    forall|x: int| lo <= x <= hi ==> covers(s, x)
}

/// `b` cannot be doubled: the block twice its size at the same network is
/// misaligned or holds an address outside the union of `s`.
pub open spec fn maximal_in(b: Block, s: Seq<Block>) -> bool {
    let twice = pow2((b.width - b.prefix + 1) as nat) as int;
    b.prefix == 0 || !((b.network as int) % twice == 0 && covered_run(s, b.network as int, b.network + twice - 1))
}

/// Spans read from blocks cover what the blocks cover.
proof fn lemma_spans_of_blocks(spans: Seq<(u128, u128)>, ib: Seq<Block>)
    requires
        spans.len() == ib.len(),
        forall|j: int|
            #![trigger spans[j]]
            0 <= j < spans.len() ==> spans[j].0 == ib[j].network && spans[j].1 == ib[j].last(),
    ensures
        forall|x: int| span_covers(spans, x) <==> covers(ib, x),
{
    assert forall|x: int| span_covers(spans, x) <==> covers(ib, x) by {
        if span_covers(spans, x) {
            let j = choose|j: int| 0 <= j < spans.len() && #[trigger] spans[j].0 <= x && x <= spans[j].1;
            assert(0 <= j < spans.len());
            assert(spans[j].0 <= x && x <= spans[j].1);
            assert(spans[j].0 == ib[j].network);
            assert(ib[j].contains(x));
        }
        if covers(ib, x) {
            let j = choose|j: int| 0 <= j < ib.len() && #[trigger] ib[j].contains(x);
            let sp = spans[j];
            assert(sp.0 == ib[j].network && sp.1 == ib[j].last());
            assert(spans[j].0 <= x && x <= spans[j].1);
        }
    }
}

/// Reordering spans keeps what they cover and their bounds.
proof fn lemma_sorted_spans(spans: Seq<(u128, u128)>, unsorted: Seq<(u128, u128)>, ib: Seq<Block>, w: nat)
    requires
        spans.to_multiset() == unsorted.to_multiset(),
        unsorted.len() == ib.len(),
        all_wf(ib),
        forall|j: int| 0 <= j < ib.len() ==> #[trigger] ib[j].width == w,
        forall|j: int|
            0 <= j < unsorted.len() ==> #[trigger] unsorted[j].0 == ib[j].network && unsorted[j].1
                == ib[j].last(),
        forall|x: int| span_covers(unsorted, x) <==> covers(ib, x),
    ensures
        forall|x: int| span_covers(spans, x) <==> covers(ib, x),
        forall|j: int| 0 <= j < spans.len() ==> #[trigger] spans[j].0 <= spans[j].1 && spans[j].1 < pow2(w),
{
    unsorted.to_multiset_ensures();
    spans.to_multiset_ensures();
    assert forall|x: int| span_covers(spans, x) <==> span_covers(unsorted, x) by {
        if span_covers(spans, x) {
            let j = choose|j: int| 0 <= j < spans.len() && #[trigger] spans[j].0 <= x && x <= spans[j].1;
            assert(spans.contains(spans[j]));
            assert(spans.to_multiset().count(spans[j]) > 0);
            assert(unsorted.to_multiset().count(spans[j]) > 0);
            assert(unsorted.contains(spans[j]));
            let k = choose|k: int| 0 <= k < unsorted.len() && unsorted[k] == spans[j];
            assert(unsorted[k].0 <= x && x <= unsorted[k].1);
        }
        if span_covers(unsorted, x) {
            let j = choose|j: int| 0 <= j < unsorted.len() && #[trigger] unsorted[j].0 <= x && x <= unsorted[j].1;
            assert(unsorted.contains(unsorted[j]));
            assert(unsorted.to_multiset().count(unsorted[j]) > 0);
            assert(spans.to_multiset().count(unsorted[j]) > 0);
            assert(spans.contains(unsorted[j]));
            let k = choose|k: int| 0 <= k < spans.len() && spans[k] == unsorted[j];
            assert(spans[k].0 <= x && x <= spans[k].1);
        }
    }
    assert forall|j: int| 0 <= j < spans.len() implies #[trigger] spans[j].0 <= spans[j].1 && spans[j].1 < pow2(w) by {
        assert(spans.contains(spans[j]));
        assert(spans.to_multiset().count(spans[j]) > 0);
        assert(unsorted.to_multiset().count(spans[j]) > 0);
        assert(unsorted.contains(spans[j]));
        let k = choose|k: int| 0 <= k < unsorted.len() && unsorted[k] == spans[j];
        assert(ib[k].wf());
        assert(ib[k].width == w);
        lemma_wf_facts(ib[k]);
    }
}

/// Merge a list of blocks into the minimal equivalent list: overlapping and
/// adjacent blocks are joined into runs, and each run is decomposed greedily.
pub fn aggregate_raw(width: u8, blocks: &Vec<(u128, u8)>) -> (r: Vec<(u128, u8)>)
    requires
        width == 32 || width == 128,
        all_wf(raw_blocks(width as nat, blocks@)),
    ensures
        all_wf(raw_blocks(width as nat, r@)),
        ascending(raw_blocks(width as nat, r@)),
        forall|x: int|
            covers(raw_blocks(width as nat, r@), x) <==> covers(raw_blocks(width as nat, blocks@), x),
        forall|i: int|
            0 <= i < r@.len() ==> maximal_in(
                #[trigger] raw_blocks(width as nat, r@)[i],
                raw_blocks(width as nat, blocks@),
            ),
{
    let ghost w = width as nat;
    let ghost ib = raw_blocks(w, blocks@);
    proof {
        lemma_pow2_widths();
    }
    // Reduce to inclusive spans.
    let mut spans: Vec<(u128, u128)> = Vec::new();
    let mut i: usize = 0;
    while i < blocks.len()
        invariant
            w == width as nat,
            ib == raw_blocks(w, blocks@),
            all_wf(ib),
            i <= blocks.len(),
            spans@.len() == i,
            forall|j: int|
                0 <= j < i ==> #[trigger] spans@[j].0 == ib[j].network && spans@[j].1 == ib[j].last(),
        decreases blocks.len() - i,
    {
        let (n, p) = blocks[i];
        proof {
            assert(ib[i as int].wf());
            lemma_wf_facts(ib[i as int]);
        }
        let ghost old_spans = spans@;
        spans.push((n, last_raw(width, n, p)));
        proof {
            assert forall|j: int| 0 <= j < i + 1 implies #[trigger] spans@[j].0 == ib[j].network && spans@[j].1 == ib[j].last() by {
                if j < i {
                    assert(old_spans[j].0 == ib[j].network && old_spans[j].1 == ib[j].last());
                }
            }
        }
        i = i + 1;
    }
    proof {
        lemma_spans_of_blocks(spans@, ib);
    }
    let ghost unsorted = spans@;
    sort_pairs(&mut spans);
    proof {
        lemma_sorted_spans(spans@, unsorted, ib, w);
    }
    // Merge overlapping or adjacent spans.
    let mut merged: Vec<(u128, u128)> = Vec::new();
    let mut i: usize = 0;
    while i < spans.len()
        invariant
            w == width as nat,
            i <= spans@.len(),
            forall|j: int| 0 <= j < spans@.len() ==> #[trigger] spans@[j].0 <= spans@[j].1 && spans@[j].1 < pow2(w),
            forall|a: int, b: int| 0 <= a < b < spans@.len() ==> pair_le(spans@[a], spans@[b]),
            merged@.len() == 0 <==> i == 0,
            forall|j: int| 0 <= j < merged@.len() ==> #[trigger] merged@[j].0 <= merged@[j].1 && merged@[j].1 < pow2(w),
            forall|a: int, b: int| 0 <= a < b < merged@.len() ==> #[trigger] merged@[a].1 + 1 < #[trigger] merged@[b].0,
            merged@.len() > 0 ==> forall|j: int| i <= j < spans@.len() ==> merged@[merged@.len() - 1].0 <= #[trigger] spans@[j].0,
            forall|x: int| span_covers(merged@, x) <==> span_covers(spans@.take(i as int), x),
        decreases spans@.len() - i,
    {
        let (s, e) = spans[i];
        let ghost old_m = merged@;
        let ghost taken = spans@.take(i as int);
        let ghost taken1 = spans@.take(i as int + 1);
        proof {
            assert(taken1 =~= taken.push((s, e)));
            assert(pair_le(spans@[i as int], spans@[i as int]) || true);
        }
        let len = merged.len();
        if len > 0 && (merged[len - 1].1 == u128::MAX || s <= merged[len - 1].1 + 1) {
            let (ls, le) = merged[len - 1];
            let ne = if e > le { e } else { le };
            merged.set(len - 1, (ls, ne));
            proof {
                assert forall|x: int| span_covers(merged@, x) <==> span_covers(taken1, x) by {
                    if span_covers(merged@, x) {
                        let j = choose|j: int| 0 <= j < merged@.len() && #[trigger] merged@[j].0 <= x && x <= merged@[j].1;
                        if j < len - 1 {
                            assert(old_m[j].0 <= x && x <= old_m[j].1);
                            assert(span_covers(old_m, x));
                            assert(span_covers(taken, x));
                            let k = choose|k: int| 0 <= k < taken.len() && #[trigger] taken[k].0 <= x && x <= taken[k].1;
                            assert(taken1[k].0 <= x && x <= taken1[k].1);
                        } else if x <= le {
                            assert(old_m[len - 1].0 <= x && x <= old_m[len - 1].1);
                            assert(span_covers(old_m, x));
                            assert(span_covers(taken, x));
                            let k = choose|k: int| 0 <= k < taken.len() && #[trigger] taken[k].0 <= x && x <= taken[k].1;
                            assert(taken1[k].0 <= x && x <= taken1[k].1);
                        } else {
                            assert(taken1[i as int].0 <= x && x <= taken1[i as int].1);
                        }
                    }
                    if span_covers(taken1, x) {
                        let k = choose|k: int| 0 <= k < taken1.len() && #[trigger] taken1[k].0 <= x && x <= taken1[k].1;
                        if k < i {
                            assert(taken[k].0 <= x && x <= taken[k].1);
                            assert(span_covers(old_m, x));
                            let j = choose|j: int| 0 <= j < old_m.len() && #[trigger] old_m[j].0 <= x && x <= old_m[j].1;
                            if j < len - 1 {
                                assert(merged@[j].0 <= x && x <= merged@[j].1);
                            } else {
                                assert(merged@[len - 1].0 <= x && x <= merged@[len - 1].1);
                            }
                        } else {
                            assert(merged@[len - 1].0 <= x && x <= merged@[len - 1].1);
                        }
                    }
                }
                assert forall|a: int, b: int| 0 <= a < b < merged@.len() implies #[trigger] merged@[a].1 + 1 < #[trigger] merged@[b].0 by {
                    assert(old_m[a].1 + 1 < old_m[b].0);
                }
            }
        } else {
            merged.push((s, e));
            proof {
                assert forall|x: int| span_covers(merged@, x) <==> span_covers(taken1, x) by {
                    if span_covers(merged@, x) {
                        let j = choose|j: int| 0 <= j < merged@.len() && #[trigger] merged@[j].0 <= x && x <= merged@[j].1;
                        if j < len {
                            assert(old_m[j].0 <= x && x <= old_m[j].1);
                            assert(span_covers(old_m, x));
                            assert(span_covers(taken, x));
                            let k = choose|k: int| 0 <= k < taken.len() && #[trigger] taken[k].0 <= x && x <= taken[k].1;
                            assert(taken1[k].0 <= x && x <= taken1[k].1);
                        } else {
                            assert(taken1[i as int].0 <= x && x <= taken1[i as int].1);
                        }
                    }
                    if span_covers(taken1, x) {
                        let k = choose|k: int| 0 <= k < taken1.len() && #[trigger] taken1[k].0 <= x && x <= taken1[k].1;
                        if k < i {
                            assert(taken[k].0 <= x && x <= taken[k].1);
                            assert(span_covers(old_m, x));
                            let j = choose|j: int| 0 <= j < old_m.len() && #[trigger] old_m[j].0 <= x && x <= old_m[j].1;
                            assert(merged@[j].0 <= x && x <= merged@[j].1);
                        } else {
                            assert(merged@[len as int].0 <= x && x <= merged@[len as int].1);
                        }
                    }
                }
                assert forall|a: int, b: int| 0 <= a < b < merged@.len() implies #[trigger] merged@[a].1 + 1 < #[trigger] merged@[b].0 by {
                    if b < len {
                        assert(old_m[a].1 + 1 < old_m[b].0);
                    } else if a < len - 1 {
                        assert(old_m[a].1 + 1 < old_m[len - 1].0);
                        assert(old_m[len - 1].0 <= old_m[len - 1].1);
                    }
                }
            }
        }
        proof {
            assert forall|j: int| i + 1 <= j < spans@.len() implies merged@[merged@.len() - 1].0 <= #[trigger] spans@[j].0 by {
                assert(pair_le(spans@[i as int], spans@[j]));
            }
        }
        i = i + 1;
    }
    proof {
        assert(spans@.take(spans@.len() as int) =~= spans@);
    }
    // Decompose each merged span into aligned blocks.
    let mut out: Vec<(u128, u8)> = Vec::new();
    let mut k: usize = 0;
    while k < merged.len()
        invariant
            w == width as nat,
            width == 32 || width == 128,
            ib == raw_blocks(w, blocks@),
            k <= merged@.len(),
            forall|j: int| 0 <= j < merged@.len() ==> #[trigger] merged@[j].0 <= merged@[j].1 && merged@[j].1 < pow2(w),
            forall|a: int, b: int| 0 <= a < b < merged@.len() ==> #[trigger] merged@[a].1 + 1 < #[trigger] merged@[b].0,
            forall|x: int| span_covers(merged@, x) <==> covers(ib, x),
            all_wf(raw_blocks(w, out@)),
            ascending(raw_blocks(w, out@)),
            k == 0 ==> out@.len() == 0,
            k > 0 ==> forall|j: int| 0 <= j < out@.len() ==> #[trigger] raw_blocks(w, out@)[j].last() <= merged@[k - 1].1,
            forall|x: int| covers(raw_blocks(w, out@), x) <==> span_covers(merged@.take(k as int), x),
            forall|j: int| 0 <= j < out@.len() ==> maximal_in(#[trigger] raw_blocks(w, out@)[j], ib),
        decreases merged@.len() - k,
    {
        let (s, e) = merged[k];
        let mut piece = range_to_blocks(width, s, e);
        let ghost old_out = out@;
        let ghost pb = raw_blocks(w, piece@);
        let ghost ob = raw_blocks(w, old_out);
        proof {
            // each block of the piece cannot be doubled within the union
            assert forall|j: int| 0 <= j < pb.len() implies maximal_in(#[trigger] pb[j], ib) by {
                let b = pb[j];
                assert(maximal_within(b, e as int));
                assert(b.contains(b.network as int)) by { lemma_wf_facts(b); }
                assert(covers(pb, b.network as int));
                if b.prefix != 0 {
                    let twice = pow2((b.width - b.prefix + 1) as nat) as int;
                    if (b.network as int) % twice == 0 && covered_run(ib, b.network as int, b.network + twice - 1) {
                        // the doubled block would fit inside this run
                        assert(!fits(b.network as int, e as int, (b.width - b.prefix + 1) as nat));
                        assert(b.network + twice - 1 > e);
                        let y = e + 1;
                        assert(covers(ib, y));
                        assert(span_covers(merged@, y));
                        let m = choose|m: int| 0 <= m < merged@.len() && #[trigger] merged@[m].0 <= y && y <= merged@[m].1;
                        if m > k {
                            assert(merged@[k as int].1 + 1 < merged@[m].0);
                        } else if m < k {
                            assert(merged@[m].1 + 1 < merged@[k as int].0);
                        }
                    }
                }
            }
        }
        out.append(&mut piece);
        proof {
            let nb = raw_blocks(w, out@);
            assert(nb =~= ob + pb);
            assert(all_wf(nb));
            assert forall|a: int, b: int| 0 <= a < b < nb.len() implies #[trigger] nb[a].last() < #[trigger] nb[b].network by {
                if b < ob.len() {
                    assert(ob[a].last() < ob[b].network);
                } else if a >= ob.len() {
                    assert(pb[a - ob.len()].last() < pb[b - ob.len()].network);
                } else {
                    assert(ob[a].last() <= merged@[k - 1].1);
                    assert(merged@[k - 1].1 + 1 < merged@[k as int].0);
                    assert(covers(pb, pb[b - ob.len()].network as int)) by {
                        lemma_wf_facts(pb[b - ob.len()]);
                        assert(pb[b - ob.len()].contains(pb[b - ob.len()].network as int));
                    }
                }
            }
            assert forall|j: int| 0 <= j < nb.len() implies #[trigger] nb[j].last() <= merged@[k as int].1 by {
                if j < ob.len() {
                    assert(ob[j].last() <= merged@[k - 1].1);
                    assert(merged@[k - 1].1 + 1 < merged@[k as int].0);
                } else {
                    lemma_wf_facts(pb[j - ob.len()]);
                    assert(covers(pb, pb[j - ob.len()].last()) ) by {
                        assert(pb[j - ob.len()].contains(pb[j - ob.len()].last()));
                    }
                }
            }
            let t0 = merged@.take(k as int);
            let t1 = merged@.take(k as int + 1);
            assert(t1 =~= t0.push((s, e)));
            assert forall|x: int| covers(nb, x) <==> span_covers(t1, x) by {
                if covers(nb, x) {
                    let j = choose|j: int| 0 <= j < nb.len() && #[trigger] nb[j].contains(x);
                    if j < ob.len() {
                        assert(ob[j].contains(x));
                        assert(covers(ob, x));
                        assert(span_covers(t0, x));
                        let m = choose|m: int| 0 <= m < t0.len() && #[trigger] t0[m].0 <= x && x <= t0[m].1;
                        assert(t1[m].0 <= x && x <= t1[m].1);
                    } else {
                        assert(pb[j - ob.len()].contains(x));
                        assert(covers(pb, x));
                        assert(t1[k as int].0 <= x && x <= t1[k as int].1);
                    }
                }
                if span_covers(t1, x) {
                    let m = choose|m: int| 0 <= m < t1.len() && #[trigger] t1[m].0 <= x && x <= t1[m].1;
                    if m < k {
                        assert(t0[m].0 <= x && x <= t0[m].1);
                        assert(covers(ob, x));
                        let j = choose|j: int| 0 <= j < ob.len() && #[trigger] ob[j].contains(x);
                        assert(nb[j].contains(x));
                    } else {
                        assert(covers(pb, x));
                        let j = choose|j: int| 0 <= j < pb.len() && #[trigger] pb[j].contains(x);
                        assert(nb[j + ob.len()].contains(x));
                    }
                }
            }
            assert forall|j: int| 0 <= j < nb.len() implies maximal_in(#[trigger] nb[j], ib) by {
                if j < ob.len() {
                    assert(maximal_in(ob[j], ib));
                } else {
                    assert(maximal_in(pb[j - ob.len()], ib));
                }
            }
        }
        k = k + 1;
    }
    proof {
        assert(merged@.take(merged@.len() as int) =~= merged@);
    }
    out
}

} // verus!
