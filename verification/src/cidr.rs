//! CIDR blocks for IPv4 and IPv6, plus the address-family-agnostic [`IpCidr`].
//!
//! The stored network address is always canonical: host bits below the
//! prefix are cleared on construction, so two equal blocks compare equal
//! regardless of how they were written.

use vstd::prelude::*;
use vstd::arithmetic::power2::*;

use crate::addr::{IpAddr, Ipv4Addr, Ipv6Addr};
use crate::set::IpSetIter;
use crate::block::{
    align_down, all_wf, size_u128, ascending, block_of, contains_block_raw, covers, exclude_raw, host_span,
    last_raw, lemma_halves, lemma_mod_pow2_weaken, lemma_pow2_divides, lemma_pow2_widths,
    lemma_wf_facts, overlaps_raw, raw, raw_blocks, Block,
};
use crate::error::ParseError;
use crate::text::{decimal_string, radix_digits};

verus! {

/// The all-ones network mask of a `width`-bit family for prefix `p`.
pub open spec fn mask_value(width: nat, p: nat) -> nat {
    (pow2(width) - pow2((width - p) as nat)) as nat
}

/// The views of a sequence of IPv6 blocks.
pub open spec fn v6_blocks(s: Seq<Ipv6Cidr>) -> Seq<Block> {
    s.map_values(|c: Ipv6Cidr| c@)
}

/// The views of a sequence of IPv4 blocks.
pub open spec fn v4_blocks(s: Seq<Ipv4Cidr>) -> Seq<Block> {
    s.map_values(|c: Ipv4Cidr| c@)
}

// ---------------------------------------------------------------------------
// IPv4
// ---------------------------------------------------------------------------

/// An IPv4 CIDR block: a network address paired with a prefix length.
#[derive(Debug, Clone, Copy, PartialEq, Eq, Structural, Hash, PartialOrd, Ord)]
pub struct Ipv4Cidr {
    // Field order matters: derived ordering sorts by network first, then by
    // prefix length, which is the natural order for CIDR blocks.
    network: u32,
    prefix_len: u8,
}

impl View for Ipv4Cidr {
    type V = Block;

    closed spec fn view(&self) -> Block {
        Block { width: 32, network: self.network as nat, prefix: self.prefix_len as nat }
    }
}

impl Ipv4Cidr {
    #[verifier::type_invariant]
    spec fn inv(self) -> bool {
        self@.wf()
    }

    /// The maximum prefix length for this family.
    pub const MAX_PREFIX_LEN: u8 = 32;

    /// The block for a well-formed raw `(network, prefix)` pair.
    pub(crate) fn from_raw(network: u128, prefix: u8) -> (r: Ipv4Cidr)
        requires
            raw(32, (network, prefix)).wf(),
        ensures
            r@ == raw(32, (network, prefix)),
    {
        proof {
            lemma_wf_facts(raw(32, (network, prefix)));
        }
        Ipv4Cidr { network: network as u32, prefix_len: prefix }
    }

    /// The raw `(network, prefix)` pair of the block.
    pub(crate) fn to_raw(&self) -> (r: (u128, u8))
        ensures
            raw(32, r) == self@,
            self@.wf(),
    {
        proof {
            use_type_invariant(self);
        }
        (self.network as u128, self.prefix_len)
    }

    /// Build a block from an address and prefix length, masking off any host
    /// bits so the stored network is canonical.
    ///
    /// Returns [`ParseError::BadPrefix`] if `prefix_len` exceeds 32.
    pub fn new(addr: Ipv4Addr, prefix_len: u8) -> (r: Result<Ipv4Cidr, ParseError>)
        ensures
            prefix_len <= 32 <==> r is Ok,
            r matches Ok(c) ==> c@ == block_of(32, addr@ as nat, prefix_len as nat),
            r matches Err(e) ==> (e matches ParseError::BadPrefix(s) && s@ == radix_digits(
                prefix_len as nat,
                10,
            )),
    {
        if prefix_len > 32 {
            return Err(ParseError::BadPrefix(decimal_string(prefix_len as u128)));
        }
        proof {
            lemma_pow2_widths();
        }
        let n = align_down(32, addr.to_bits() as u128, prefix_len);
        Ok(Ipv4Cidr::from_raw(n, prefix_len))
    }

    /// Convert a dotted network mask (e.g. `255.255.255.0`) to a prefix
    /// length, or `None` if it is not a contiguous run of leading ones.
    pub fn mask_to_prefix_len(mask: Ipv4Addr) -> (r: Option<u8>)
        ensures
            r matches Some(p) ==> p <= 32 && mask@ == mask_value(32, p as nat),
            r is None ==> forall|p: nat| p <= 32 ==> mask@ != #[trigger] mask_value(32, p),
    {
        proof {
            lemma_pow2_widths();
        }
        let m = mask.to_bits() as u128;
        let mut p: u8 = 0;
        while p <= 32
            invariant
                p <= 33,
                m == mask@,
                pow2(32) == 0x1_0000_0000,
                forall|q: nat| q < p ==> m != #[trigger] mask_value(32, q),
            decreases 33 - p,
        {
            let span = host_span(32, p);
            proof {
                lemma_pow2_divides((32 - p) as nat, 32);
            }
            if m == 0xffff_ffffu128 - span {
                return Some(p);
            }
            p = p + 1;
        }
        None
    }

    /// The wildcard mask (`!netmask`), e.g. `0.0.0.255` for a `/24`.
    pub fn wildcard_mask(&self) -> (r: Ipv4Addr)
        ensures
            r@ == self@.size() - 1,
    {
        proof {
            use_type_invariant(self);
            lemma_wf_facts(self@);
        }
        Ipv4Addr::from_bits(host_span(32, self.prefix_len) as u32)
    }

    /// The prefix length (number of leading network bits).
    pub fn prefix_len(&self) -> (r: u8)
        ensures
            r == self@.prefix,
            self@.wf(),
    {
        proof {
            use_type_invariant(self);
        }
        self.prefix_len
    }

    /// The network address (lowest address in the block).
    pub fn network(&self) -> (r: Ipv4Addr)
        ensures
            r@ == self@.network,
            self@.wf(),
    {
        proof {
            use_type_invariant(self);
        }
        Ipv4Addr::from_bits(self.network)
    }

    /// The network mask as an address (e.g. `255.255.255.0`).
    pub fn netmask(&self) -> (r: Ipv4Addr)
        ensures
            r@ == mask_value(32, self@.prefix),
    {
        proof {
            use_type_invariant(self);
            lemma_pow2_widths();
            lemma_pow2_divides((32 - self.prefix_len) as nat, 32);
        }
        Ipv4Addr::from_bits((0xffff_ffffu128 - host_span(32, self.prefix_len)) as u32)
    }

    /// The highest address in the block (all host bits set).
    pub fn last_address(&self) -> (r: Ipv4Addr)
        ensures
            r@ == self@.last(),
            self@.wf(),
    {
        proof {
            use_type_invariant(self);
            lemma_wf_facts(self@);
        }
        Ipv4Addr::from_bits(last_raw(32, self.network as u128, self.prefix_len) as u32)
    }

    /// Returns `true` if `addr` falls inside this block.
    pub fn contains(&self, addr: Ipv4Addr) -> (r: bool)
        ensures
            r == self@.contains(addr@ as int),
    {
        proof {
            use_type_invariant(self);
        }
        let a = addr.to_bits() as u128;
        let n = self.network as u128;
        n <= a && a <= last_raw(32, n, self.prefix_len)
    }

    /// The total number of addresses in the block, `2^(32 - prefix_len)`.
    pub fn address_count(&self) -> (r: u128)
        ensures
            r == self@.size(),
    {
        proof {
            use_type_invariant(self);
            lemma_wf_facts(self@);
        }
        host_span(32, self.prefix_len) + 1
    }

    /// The address at offset `index` from the network address, or `None` if
    /// `index` is past the end of the block.
    pub fn nth_address(&self, index: u128) -> (r: Option<Ipv4Addr>)
        ensures
            index < self@.size() ==> (r matches Some(a) && a@ == self@.network + index),
            index >= self@.size() ==> r is None,
    {
        proof {
            use_type_invariant(self);
            lemma_wf_facts(self@);
        }
        if index >= self.address_count() {
            return None;
        }
        Some(Ipv4Addr::from_bits((self.network as u128 + index) as u32))
    }

    /// Iterate over every address in the block, lowest to highest.
    pub fn addresses(&self) -> (r: Ipv4AddrIter)
        ensures
            r@ == interval(self@.network as int, self@.last()),
    {
        proof {
            use_type_invariant(self);
            lemma_wf_facts(self@);
        }
        Ipv4AddrIter::bounded(self.network, self.last_address().to_bits())
    }

    /// The immediately enclosing block, one prefix bit shorter, or `None` for
    /// a `/0`.
    pub fn supernet(&self) -> (r: Option<Ipv4Cidr>)
        ensures
            self@.prefix == 0 <==> r is None,
            r matches Some(s) ==> s@ == block_of(32, self@.network, (self@.prefix - 1) as nat),
    {
        proof {
            use_type_invariant(self);
        }
        if self.prefix_len == 0 {
            return None;
        }
        self.supernet_at(self.prefix_len - 1)
    }

    /// The enclosing block of prefix length `new_prefix`, or `None` if
    /// `new_prefix` is longer than this block's prefix.
    pub fn supernet_at(&self, new_prefix: u8) -> (r: Option<Ipv4Cidr>)
        ensures
            new_prefix <= self@.prefix <==> r is Some,
            r matches Some(s) ==> s@ == block_of(32, self@.network, new_prefix as nat),
    {
        proof {
            use_type_invariant(self);
            lemma_wf_facts(self@);
        }
        if new_prefix > self.prefix_len {
            return None;
        }
        let n = align_down(32, self.network as u128, new_prefix);
        Some(Ipv4Cidr::from_raw(n, new_prefix))
    }

    /// Split this block into the sub-blocks of length `new_prefix`.
    ///
    /// The iterator is empty if `new_prefix` is shorter than this block's
    /// prefix or longer than 32; `new_prefix` equal to the prefix yields the
    /// block itself.
    pub fn subnets(&self, new_prefix: u8) -> (r: Ipv4Subnets)
        ensures
            (new_prefix < self@.prefix || new_prefix > 32) ==> r@.len() == 0,
            !(new_prefix < self@.prefix || new_prefix > 32) ==> r@ == sub_blocks(self@, new_prefix as nat),
    {
        proof {
            use_type_invariant(self);
            lemma_wf_facts(self@);
        }
        if new_prefix < self.prefix_len || new_prefix > 32 {
            return Ipv4Subnets::empty(new_prefix);
        }
        Ipv4Subnets::covering(self.network, self.prefix_len, new_prefix)
    }

    /// The number of `new_prefix`-length sub-blocks, without enumerating them;
    /// `0` if `new_prefix` is shorter than this block's prefix or above 32.
    pub fn subnet_count(&self, new_prefix: u8) -> (r: u128)
        ensures
            (new_prefix < self@.prefix || new_prefix > 32) ==> r == 0,
            !(new_prefix < self@.prefix || new_prefix > 32) ==> r == pow2((new_prefix - self@.prefix) as nat),
    {
        proof {
            use_type_invariant(self);
        }
        if new_prefix < self.prefix_len || new_prefix > 32 {
            return 0;
        }
        proof {
            lemma_pow2_widths();
            lemma_pow2_divides((new_prefix - self.prefix_len) as nat, 32);
        }
        host_span(32, 32 - (new_prefix - self.prefix_len)) + 1
    }

    /// Split this block into its two equal halves, or `None` for a `/32`.
    pub fn split(&self) -> (r: Option<(Ipv4Cidr, Ipv4Cidr)>)
        ensures
            self@.prefix == 32 <==> r is None,
            r matches Some((lo, hi)) ==> lo@ == self@.lower_half() && hi@ == self@.upper_half(),
    {
        proof {
            use_type_invariant(self);
        }
        if self.prefix_len >= 32 {
            return None;
        }
        proof {
            lemma_halves(self@);
            lemma_wf_facts(self@);
        }
        let child = self.prefix_len + 1;
        let half = host_span(32, child) + 1;
        Some((Ipv4Cidr::from_raw(self.network as u128, child), Ipv4Cidr::from_raw(self.network as u128 + half, child)))
    }

    /// Returns `true` if `other` is fully contained in this block.
    pub fn contains_subnet(&self, other: &Ipv4Cidr) -> (r: bool)
        ensures
            r == self@.contains_block(other@),
    {
        contains_block_raw(32, self.to_raw(), other.to_raw())
    }

    /// Returns `true` if this block encloses `other`.
    pub fn is_supernet_of(&self, other: &Ipv4Cidr) -> (r: bool)
        ensures
            r == self@.contains_block(other@),
    {
        self.contains_subnet(other)
    }

    /// Returns `true` if this block is enclosed by `other`.
    pub fn is_subnet_of(&self, other: &Ipv4Cidr) -> (r: bool)
        ensures
            r == other@.contains_block(self@),
    {
        other.contains_subnet(self)
    }

    /// Returns `true` if the two blocks share at least one address.
    pub fn overlaps(&self, other: &Ipv4Cidr) -> (r: bool)
        ensures
            r == self@.overlaps(other@),
    {
        overlaps_raw(32, self.to_raw(), other.to_raw())
    }

    /// Remove `other` from this block, returning the minimal set of blocks
    /// covering the remaining addresses, sorted ascending.
    pub fn exclude(&self, other: &Ipv4Cidr) -> (r: Vec<Ipv4Cidr>)
        ensures
            all_wf(v4_blocks(r@)),
            ascending(v4_blocks(r@)),
            forall|x: int| covers(v4_blocks(r@), x) <==> (self@.contains(x) && !other@.contains(x)),
            !self@.overlaps(other@) ==> r@ == seq![*self],
            other@.contains_block(self@) ==> r@.len() == 0,
            self@.overlaps(other@) && !other@.contains_block(self@) ==> r@.len() == other@.prefix
                - self@.prefix,
    {
        let a = self.to_raw();
        let b = other.to_raw();
        let raw_r = exclude_raw(32, a, b);
        let r = v4_from_raw_vec(&raw_r);
        proof {
            if !self@.overlaps(other@) {
                assert(raw_r@ == seq![a]);
                assert(raw_blocks(32, raw_r@)[0] == raw(32, a));
                assert(v4_blocks(r@)[0] == r@[0]@);
                assert(r@[0]@ == self@);
                lemma_v4_view_injective(r@[0], *self);
                assert(r@ =~= seq![*self]);
            }
        }
        r
    }
}

// ---------------------------------------------------------------------------
// IPv6
// ---------------------------------------------------------------------------

/// An IPv6 CIDR block: a network address paired with a prefix length.
#[derive(Debug, Clone, Copy, PartialEq, Eq, Structural, Hash, PartialOrd, Ord)]
pub struct Ipv6Cidr {
    // Field order matters: derived ordering sorts by network first, then by
    // prefix length, which is the natural order for CIDR blocks.
    network: u128,
    prefix_len: u8,
}

impl View for Ipv6Cidr {
    type V = Block;

    closed spec fn view(&self) -> Block {
        Block { width: 128, network: self.network as nat, prefix: self.prefix_len as nat }
    }
}

impl Ipv6Cidr {
    #[verifier::type_invariant]
    spec fn inv(self) -> bool {
        self@.wf()
    }

    /// The maximum prefix length for this family.
    pub const MAX_PREFIX_LEN: u8 = 128;

    /// The block for a well-formed raw `(network, prefix)` pair.
    pub(crate) fn from_raw(network: u128, prefix: u8) -> (r: Ipv6Cidr)
        requires
            raw(128, (network, prefix)).wf(),
        ensures
            r@ == raw(128, (network, prefix)),
    {
        proof {
            lemma_wf_facts(raw(128, (network, prefix)));
        }
        Ipv6Cidr { network: network as u128, prefix_len: prefix }
    }

    /// The raw `(network, prefix)` pair of the block.
    pub(crate) fn to_raw(&self) -> (r: (u128, u8))
        ensures
            raw(128, r) == self@,
            self@.wf(),
    {
        proof {
            use_type_invariant(self);
        }
        (self.network as u128, self.prefix_len)
    }

    /// Build a block from an address and prefix length, masking off any host
    /// bits so the stored network is canonical.
    ///
    /// Returns [`ParseError::BadPrefix`] if `prefix_len` exceeds 128.
    pub fn new(addr: Ipv6Addr, prefix_len: u8) -> (r: Result<Ipv6Cidr, ParseError>)
        ensures
            prefix_len <= 128 <==> r is Ok,
            r matches Ok(c) ==> c@ == block_of(128, addr@ as nat, prefix_len as nat),
            r matches Err(e) ==> (e matches ParseError::BadPrefix(s) && s@ == radix_digits(
                prefix_len as nat,
                10,
            )),
    {
        if prefix_len > 128 {
            return Err(ParseError::BadPrefix(decimal_string(prefix_len as u128)));
        }
        proof {
            lemma_pow2_widths();
        }
        let n = align_down(128, addr.to_bits() as u128, prefix_len);
        Ok(Ipv6Cidr::from_raw(n, prefix_len))
    }

    /// Convert a dotted network mask (e.g. `255.255.255.0`) to a prefix
    /// length, or `None` if it is not a contiguous run of leading ones.
    pub fn mask_to_prefix_len(mask: Ipv6Addr) -> (r: Option<u8>)
        ensures
            r matches Some(p) ==> p <= 128 && mask@ == mask_value(128, p as nat),
            r is None ==> forall|p: nat| p <= 128 ==> mask@ != #[trigger] mask_value(128, p),
    {
        proof {
            lemma_pow2_widths();
        }
        let m = mask.to_bits() as u128;
        let mut p: u8 = 0;
        while p <= 128
            invariant
                p <= 129,
                m == mask@,
                pow2(128) == 0x1_0000_0000_0000_0000_0000_0000_0000_0000,
                forall|q: nat| q < p ==> m != #[trigger] mask_value(128, q),
            decreases 129 - p,
        {
            let span = host_span(128, p);
            proof {
                lemma_pow2_divides((128 - p) as nat, 128);
            }
            if m == u128::MAX - span {
                return Some(p);
            }
            p = p + 1;
        }
        None
    }

    /// The wildcard mask (`!netmask`), e.g. `0.0.0.255` for a `/24`.
    pub fn wildcard_mask(&self) -> (r: Ipv6Addr)
        ensures
            r@ == self@.size() - 1,
    {
        proof {
            use_type_invariant(self);
            lemma_wf_facts(self@);
        }
        Ipv6Addr::from_bits(host_span(128, self.prefix_len) as u128)
    }

    /// The prefix length (number of leading network bits).
    pub fn prefix_len(&self) -> (r: u8)
        ensures
            r == self@.prefix,
            self@.wf(),
    {
        proof {
            use_type_invariant(self);
        }
        self.prefix_len
    }

    /// The network address (lowest address in the block).
    pub fn network(&self) -> (r: Ipv6Addr)
        ensures
            r@ == self@.network,
            self@.wf(),
    {
        proof {
            use_type_invariant(self);
        }
        Ipv6Addr::from_bits(self.network)
    }

    /// The network mask as an address (e.g. `255.255.255.0`).
    pub fn netmask(&self) -> (r: Ipv6Addr)
        ensures
            r@ == mask_value(128, self@.prefix),
    {
        proof {
            use_type_invariant(self);
            lemma_pow2_widths();
            lemma_pow2_divides((128 - self.prefix_len) as nat, 128);
        }
        Ipv6Addr::from_bits((u128::MAX - host_span(128, self.prefix_len)) as u128)
    }

    /// The highest address in the block (all host bits set).
    pub fn last_address(&self) -> (r: Ipv6Addr)
        ensures
            r@ == self@.last(),
            self@.wf(),
    {
        proof {
            use_type_invariant(self);
            lemma_wf_facts(self@);
        }
        Ipv6Addr::from_bits(last_raw(128, self.network as u128, self.prefix_len) as u128)
    }

    /// Returns `true` if `addr` falls inside this block.
    pub fn contains(&self, addr: Ipv6Addr) -> (r: bool)
        ensures
            r == self@.contains(addr@ as int),
    {
        proof {
            use_type_invariant(self);
        }
        let a = addr.to_bits() as u128;
        let n = self.network as u128;
        n <= a && a <= last_raw(128, n, self.prefix_len)
    }

    /// The total number of addresses in the block, `2^(128 - prefix_len)`,
    /// saturating to `u128::MAX` for the `/0` (whose count does not fit).
    pub fn address_count(&self) -> (r: u128)
        ensures
            self@.prefix > 0 ==> r == self@.size(),
            self@.prefix == 0 ==> r == u128::MAX,
    {
        proof {
            use_type_invariant(self);
            lemma_wf_facts(self@);
        }
        match size_u128(128, self.prefix_len) {
            Some(s) => s,
            None => u128::MAX,
        }
    }

    /// The address at offset `index` from the network address, or `None` if
    /// `index` is past the end of the block.
    pub fn nth_address(&self, index: u128) -> (r: Option<Ipv6Addr>)
        ensures
            index < self@.size() ==> (r matches Some(a) && a@ == self@.network + index),
            index >= self@.size() ==> r is None,
    {
        proof {
            use_type_invariant(self);
            lemma_wf_facts(self@);
        }
        if index > host_span(128, self.prefix_len) {
            return None;
        }
        Some(Ipv6Addr::from_bits((self.network as u128 + index) as u128))
    }

    /// Iterate over every address in the block, lowest to highest.
    pub fn addresses(&self) -> (r: Ipv6AddrIter)
        ensures
            r@ == interval(self@.network as int, self@.last()),
    {
        proof {
            use_type_invariant(self);
            lemma_wf_facts(self@);
        }
        Ipv6AddrIter::bounded(self.network, self.last_address().to_bits())
    }

    /// The immediately enclosing block, one prefix bit shorter, or `None` for
    /// a `/0`.
    pub fn supernet(&self) -> (r: Option<Ipv6Cidr>)
        ensures
            self@.prefix == 0 <==> r is None,
            r matches Some(s) ==> s@ == block_of(128, self@.network, (self@.prefix - 1) as nat),
    {
        proof {
            use_type_invariant(self);
        }
        if self.prefix_len == 0 {
            return None;
        }
        self.supernet_at(self.prefix_len - 1)
    }

    /// The enclosing block of prefix length `new_prefix`, or `None` if
    /// `new_prefix` is longer than this block's prefix.
    pub fn supernet_at(&self, new_prefix: u8) -> (r: Option<Ipv6Cidr>)
        ensures
            new_prefix <= self@.prefix <==> r is Some,
            r matches Some(s) ==> s@ == block_of(128, self@.network, new_prefix as nat),
    {
        proof {
            use_type_invariant(self);
            lemma_wf_facts(self@);
        }
        if new_prefix > self.prefix_len {
            return None;
        }
        let n = align_down(128, self.network as u128, new_prefix);
        Some(Ipv6Cidr::from_raw(n, new_prefix))
    }

    /// Split this block into the sub-blocks of length `new_prefix`.
    ///
    /// The iterator is empty if `new_prefix` is shorter than this block's
    /// prefix or longer than 128; `new_prefix` equal to the prefix yields the
    /// block itself.
    pub fn subnets(&self, new_prefix: u8) -> (r: Ipv6Subnets)
        ensures
            (new_prefix < self@.prefix || new_prefix > 128) ==> r@.len() == 0,
            !(new_prefix < self@.prefix || new_prefix > 128) ==> r@ == sub_blocks(self@, new_prefix as nat),
    {
        proof {
            use_type_invariant(self);
            lemma_wf_facts(self@);
        }
        if new_prefix < self.prefix_len || new_prefix > 128 {
            return Ipv6Subnets::empty(new_prefix);
        }
        Ipv6Subnets::covering(self.network, self.prefix_len, new_prefix)
    }

    /// The number of `new_prefix`-length sub-blocks, without enumerating them;
    /// `0` if `new_prefix` is shorter than this block's prefix or above 128.
    pub fn subnet_count(&self, new_prefix: u8) -> (r: u128)
        ensures
            (new_prefix < self@.prefix || new_prefix > 128) ==> r == 0,
            !(new_prefix < self@.prefix || new_prefix > 128) && new_prefix - self@.prefix < 128 ==> r
                == pow2((new_prefix - self@.prefix) as nat),
            !(new_prefix < self@.prefix || new_prefix > 128) && new_prefix - self@.prefix == 128 ==> r
                == u128::MAX,
    {
        proof {
            use_type_invariant(self);
        }
        if new_prefix < self.prefix_len || new_prefix > 128 {
            return 0;
        }
        proof {
            lemma_pow2_widths();
        }
        match size_u128(128, 128 - (new_prefix - self.prefix_len)) {
            Some(s) => s,
            None => u128::MAX,
        }
    }

    /// Split this block into its two equal halves, or `None` for a `/128`.
    pub fn split(&self) -> (r: Option<(Ipv6Cidr, Ipv6Cidr)>)
        ensures
            self@.prefix == 128 <==> r is None,
            r matches Some((lo, hi)) ==> lo@ == self@.lower_half() && hi@ == self@.upper_half(),
    {
        proof {
            use_type_invariant(self);
        }
        if self.prefix_len >= 128 {
            return None;
        }
        proof {
            lemma_halves(self@);
            lemma_wf_facts(self@);
        }
        let child = self.prefix_len + 1;
        let half = host_span(128, child) + 1;
        Some((Ipv6Cidr::from_raw(self.network as u128, child), Ipv6Cidr::from_raw(self.network as u128 + half, child)))
    }

    /// Returns `true` if `other` is fully contained in this block.
    pub fn contains_subnet(&self, other: &Ipv6Cidr) -> (r: bool)
        ensures
            r == self@.contains_block(other@),
    {
        contains_block_raw(128, self.to_raw(), other.to_raw())
    }

    /// Returns `true` if this block encloses `other`.
    pub fn is_supernet_of(&self, other: &Ipv6Cidr) -> (r: bool)
        ensures
            r == self@.contains_block(other@),
    {
        self.contains_subnet(other)
    }

    /// Returns `true` if this block is enclosed by `other`.
    pub fn is_subnet_of(&self, other: &Ipv6Cidr) -> (r: bool)
        ensures
            r == other@.contains_block(self@),
    {
        other.contains_subnet(self)
    }

    /// Returns `true` if the two blocks share at least one address.
    pub fn overlaps(&self, other: &Ipv6Cidr) -> (r: bool)
        ensures
            r == self@.overlaps(other@),
    {
        overlaps_raw(128, self.to_raw(), other.to_raw())
    }

    /// Remove `other` from this block, returning the minimal set of blocks
    /// covering the remaining addresses, sorted ascending.
    pub fn exclude(&self, other: &Ipv6Cidr) -> (r: Vec<Ipv6Cidr>)
        ensures
            all_wf(v6_blocks(r@)),
            ascending(v6_blocks(r@)),
            forall|x: int| covers(v6_blocks(r@), x) <==> (self@.contains(x) && !other@.contains(x)),
            !self@.overlaps(other@) ==> r@ == seq![*self],
            other@.contains_block(self@) ==> r@.len() == 0,
            self@.overlaps(other@) && !other@.contains_block(self@) ==> r@.len() == other@.prefix
                - self@.prefix,
    {
        let a = self.to_raw();
        let b = other.to_raw();
        let raw_r = exclude_raw(128, a, b);
        let r = v6_from_raw_vec(&raw_r);
        proof {
            if !self@.overlaps(other@) {
                assert(raw_r@ == seq![a]);
                assert(raw_blocks(128, raw_r@)[0] == raw(128, a));
                assert(v6_blocks(r@)[0] == r@[0]@);
                assert(r@[0]@ == self@);
                lemma_v6_view_injective(r@[0], *self);
                assert(r@ =~= seq![*self]);
            }
        }
        r
    }
}


/// Two IPv6 blocks with the same view are the same block.
pub proof fn lemma_v6_view_injective(a: Ipv6Cidr, b: Ipv6Cidr)
    requires
        a@ == b@,
    ensures
        a == b,
{
}

/// Convert well-formed raw IPv6 pairs into blocks.
pub(crate) fn v6_from_raw_vec(v: &Vec<(u128, u8)>) -> (r: Vec<Ipv6Cidr>)
    requires
        all_wf(raw_blocks(128, v@)),
    ensures
        v6_blocks(r@) == raw_blocks(128, v@),
        r@.len() == v@.len(),
{
    let mut r: Vec<Ipv6Cidr> = Vec::new();
    let mut i: usize = 0;
    while i < v.len()
        invariant
            i <= v@.len(),
            all_wf(raw_blocks(128, v@)),
            r@.len() == i,
            forall|j: int| 0 <= j < i ==> #[trigger] r@[j]@ == raw(128, v@[j]),
        decreases v@.len() - i,
    {
        proof {
            assert(raw_blocks(128, v@)[i as int].wf());
        }
        let c = Ipv6Cidr::from_raw(v[i].0, v[i].1);
        r.push(c);
        i = i + 1;
    }
    proof {
        assert(v6_blocks(r@) =~= raw_blocks(128, v@));
    }
    r
}


/// Iterator over a contiguous run of IPv6 addresses, from either end.
#[derive(Debug)]
pub struct Ipv6AddrIter {
    front: u128,
    back: u128,
    done: bool,
}

impl View for Ipv6AddrIter {
    type V = Seq<int>;

    /// The addresses not yet yielded, lowest first.
    closed spec fn view(&self) -> Seq<int> {
        if self.done {
            Seq::empty()
        } else {
            interval(self.front as int, self.back as int)
        }
    }
}

impl Clone for Ipv6AddrIter {
    fn clone(&self) -> (r: Ipv6AddrIter)
        ensures
            r@ == self@,
    {
        proof {
            use_type_invariant(self);
        }
        Ipv6AddrIter { front: self.front, back: self.back, done: self.done }
    }
}

impl Ipv6AddrIter {
    #[verifier::type_invariant]
    spec fn inv(self) -> bool {
        !self.done ==> self.front <= self.back
    }

    /// An inclusive iterator over `first..=last` (empty when `first > last`).
    pub(crate) fn bounded(first: u128, last: u128) -> (r: Ipv6AddrIter)
        ensures
            r@ == interval(first as int, last as int),
    {
        let r = Ipv6AddrIter { front: first, back: last, done: first > last };
        proof {
            if first > last {
                assert(r@ =~= interval(first as int, last as int));
            }
        }
        r
    }

    /// The next address from the low end.
    pub fn next(&mut self) -> (r: Option<Ipv6Addr>)
        ensures
            old(self)@.len() == 0 ==> r is None && final(self)@ == old(self)@,
            old(self)@.len() > 0 ==> (r matches Some(a) && a@ == old(self)@[0] && final(self)@
                == old(self)@.drop_first()),
    {
        proof {
            use_type_invariant(&*self);
        }
        if self.done {
            return None;
        }
        let cur = self.front;
        if cur == self.back {
            self.done = true;
        } else {
            self.front = cur + 1;
        }
        proof {
            assert(self@ =~= old(self)@.drop_first());
        }
        Some(Ipv6Addr::from_bits(cur))
    }

    /// The next address from the high end.
    pub fn next_back(&mut self) -> (r: Option<Ipv6Addr>)
        ensures
            old(self)@.len() == 0 ==> r is None && final(self)@ == old(self)@,
            old(self)@.len() > 0 ==> (r matches Some(a) && a@ == old(self)@.last() && final(self)@
                == old(self)@.drop_last()),
    {
        proof {
            use_type_invariant(&*self);
        }
        if self.done {
            return None;
        }
        let cur = self.back;
        if cur == self.front {
            self.done = true;
        } else {
            self.back = cur - 1;
        }
        proof {
            assert(self@ =~= old(self)@.drop_last());
        }
        Some(Ipv6Addr::from_bits(cur))
    }

    /// Bounds on the number of addresses left: exact whenever the count fits
    /// in `usize`.
    pub fn size_hint(&self) -> (r: (usize, Option<usize>))
        ensures
            self@.len() <= usize::MAX ==> r == (self@.len() as usize, Some(self@.len() as usize)),
            self@.len() > usize::MAX ==> r == (usize::MAX, None::<usize>),
    {
        proof {
            use_type_invariant(self);
        }
        if self.done {
            return (0, Some(0));
        }
        let span = (self.back - self.front) as u128;
        if span < usize::MAX as u128 {
            ((span + 1) as usize, Some((span + 1) as usize))
        } else {
            (usize::MAX, None)
        }
    }
}


/// Every address of block `b` lies in the span `lo..=hi`.
pub open spec fn within(b: Block, lo: nat, hi: nat) -> bool {
    lo <= b.network && b.last() <= hi
}

/// The block is the loopback address `::1` alone.
pub open spec fn v6_loopback(b: Block) -> bool {
    within(b, 1, 1)
}

/// The block lies in multicast space `ff00::/8`.
pub open spec fn v6_multicast(b: Block) -> bool {
    within(b, 0xff00_0000_0000_0000_0000_0000_0000_0000, 0xffff_ffff_ffff_ffff_ffff_ffff_ffff_ffff)
}

/// The block is the unspecified address `::` alone.
pub open spec fn v6_unspecified(b: Block) -> bool {
    within(b, 0, 0)
}

/// The block lies in unique-local space `fc00::/7` (RFC 4193).
pub open spec fn v6_unique_local(b: Block) -> bool {
    within(b, 0xfc00_0000_0000_0000_0000_0000_0000_0000, 0xfdff_ffff_ffff_ffff_ffff_ffff_ffff_ffff)
}

/// The block lies in link-local space `fe80::/10` (RFC 4291).
pub open spec fn v6_link_local(b: Block) -> bool {
    within(b, 0xfe80_0000_0000_0000_0000_0000_0000_0000, 0xfebf_ffff_ffff_ffff_ffff_ffff_ffff_ffff)
}

/// The block lies in documentation space `2001:db8::/32` (RFC 3849).
pub open spec fn v6_documentation(b: Block) -> bool {
    within(b, 0x2001_0db8_0000_0000_0000_0000_0000_0000, 0x2001_0db8_ffff_ffff_ffff_ffff_ffff_ffff)
}

impl Ipv6Cidr {
    /// The first and last address of the block, as integers.
    fn bounds(&self) -> (r: (u128, u128))
        ensures
            r.0 == self@.network,
            r.1 == self@.last(),
    {
        (self.network().to_bits(), self.last_address().to_bits())
    }

    /// `true` if the block is the IPv6 loopback address (`::1`).
    pub fn is_loopback(&self) -> (r: bool)
        ensures
            r == v6_loopback(self@),
    {
        let (lo, hi) = self.bounds();
        1 <= lo && hi <= 1
    }

    /// `true` if the block lies in IPv6 multicast space (`ff00::/8`).
    pub fn is_multicast(&self) -> (r: bool)
        ensures
            r == v6_multicast(self@),
    {
        let (lo, hi) = self.bounds();
        0xff00_0000_0000_0000_0000_0000_0000_0000 <= lo && hi <= 0xffff_ffff_ffff_ffff_ffff_ffff_ffff_ffff
    }

    /// `true` if the block is the unspecified address (`::`).
    pub fn is_unspecified(&self) -> (r: bool)
        ensures
            r == v6_unspecified(self@),
    {
        let (lo, hi) = self.bounds();
        hi == 0
    }

    /// `true` if the block lies in the unique-local range `fc00::/7`.
    pub fn is_unique_local(&self) -> (r: bool)
        ensures
            r == v6_unique_local(self@),
    {
        let (lo, hi) = self.bounds();
        0xfc00_0000_0000_0000_0000_0000_0000_0000 <= lo && hi <= 0xfdff_ffff_ffff_ffff_ffff_ffff_ffff_ffff
    }

    /// `true` if the block lies in the link-local range `fe80::/10`.
    pub fn is_link_local(&self) -> (r: bool)
        ensures
            r == v6_link_local(self@),
    {
        let (lo, hi) = self.bounds();
        0xfe80_0000_0000_0000_0000_0000_0000_0000 <= lo && hi <= 0xfebf_ffff_ffff_ffff_ffff_ffff_ffff_ffff
    }

    /// `true` if the block lies in the documentation range `2001:db8::/32`.
    pub fn is_documentation(&self) -> (r: bool)
        ensures
            r == v6_documentation(self@),
    {
        let (lo, hi) = self.bounds();
        0x2001_0db8_0000_0000_0000_0000_0000_0000 <= lo && hi <= 0x2001_0db8_ffff_ffff_ffff_ffff_ffff_ffff
    }

    /// Iterate over the host addresses: IPv6 has no broadcast address, so
    /// this is every address of the block.
    pub fn hosts(&self) -> (r: Ipv6AddrIter)
        ensures
            r@ == interval(self@.network as int, self@.last()),
    {
        self.addresses()
    }
}

/// The block lies in RFC 1918 private space: `10/8`, `172.16/12` or
/// `192.168/16`.
pub open spec fn v4_private(b: Block) -> bool {
    within(b, 0x0a00_0000, 0x0aff_ffff) || within(b, 0xac10_0000, 0xac1f_ffff) || within(
        b,
        0xc0a8_0000,
        0xc0a8_ffff,
    )
}

/// The block lies in loopback space `127/8`.
pub open spec fn v4_loopback(b: Block) -> bool {
    within(b, 0x7f00_0000, 0x7fff_ffff)
}

/// The block lies in link-local space `169.254/16`.
pub open spec fn v4_link_local(b: Block) -> bool {
    within(b, 0xa9fe_0000, 0xa9fe_ffff)
}

/// The block lies in documentation space: `192.0.2/24`, `198.51.100/24` or
/// `203.0.113/24`.
pub open spec fn v4_documentation(b: Block) -> bool {
    within(b, 0xc000_0200, 0xc000_02ff) || within(b, 0xc633_6400, 0xc633_64ff) || within(
        b,
        0xcb00_7100,
        0xcb00_71ff,
    )
}

/// The block lies in multicast space `224/4`.
pub open spec fn v4_multicast(b: Block) -> bool {
    within(b, 0xe000_0000, 0xefff_ffff)
}

impl Ipv4Cidr {
    /// The IPv4 broadcast address (highest address in the block).
    pub fn broadcast(&self) -> (r: Ipv4Addr)
        ensures
            r@ == self@.last(),
    {
        self.last_address()
    }

    /// The number of usable host addresses: `/31` has 2 (RFC 3021), `/32`
    /// has 1, every other block its size minus network and broadcast.
    pub fn host_count(&self) -> (r: u64)
        ensures
            self@.prefix == 32 ==> r == 1,
            self@.prefix == 31 ==> r == 2,
            self@.prefix <= 30 ==> r == self@.size() - 2,
    {
        proof {
            use_type_invariant(self);
            lemma_wf_facts(self@);
            lemma_pow2_widths();
            lemma_pow2_divides((32 - self.prefix_len) as nat, 32);
            if self.prefix_len <= 30 {
                lemma_pow2_strictly_increases(1, (32 - self.prefix_len) as nat);
                lemma2_to64();
            }
        }
        let total = self.address_count() as u64;
        match self.prefix_len {
            32 => 1,
            31 => 2,
            _ => total - 2,
        }
    }

    /// The first and last address of the block, as integers.
    fn bounds(&self) -> (r: (u32, u32))
        ensures
            r.0 == self@.network,
            r.1 == self@.last(),
    {
        (self.network().to_bits(), self.last_address().to_bits())
    }

    /// `true` if the block lies in RFC 1918 private space (`10/8`,
    /// `172.16/12`, `192.168/16`).
    pub fn is_private(&self) -> (r: bool)
        ensures
            r == v4_private(self@),
    {
        let (lo, hi) = self.bounds();
        (0x0a00_0000 <= lo && hi <= 0x0aff_ffff) || (0xac10_0000 <= lo && hi <= 0xac1f_ffff) || (
        0xc0a8_0000 <= lo && hi <= 0xc0a8_ffff)
    }

    /// `true` if the block lies in the loopback range (`127/8`).
    pub fn is_loopback(&self) -> (r: bool)
        ensures
            r == v4_loopback(self@),
    {
        let (lo, hi) = self.bounds();
        0x7f00_0000 <= lo && hi <= 0x7fff_ffff
    }

    /// `true` if the block lies in the link-local range (`169.254/16`).
    pub fn is_link_local(&self) -> (r: bool)
        ensures
            r == v4_link_local(self@),
    {
        let (lo, hi) = self.bounds();
        0xa9fe_0000 <= lo && hi <= 0xa9fe_ffff
    }

    /// `true` if the block lies in documentation space (`192.0.2/24`,
    /// `198.51.100/24`, `203.0.113/24`).
    pub fn is_documentation(&self) -> (r: bool)
        ensures
            r == v4_documentation(self@),
    {
        let (lo, hi) = self.bounds();
        (0xc000_0200 <= lo && hi <= 0xc000_02ff) || (0xc633_6400 <= lo && hi <= 0xc633_64ff) || (
        0xcb00_7100 <= lo && hi <= 0xcb00_71ff)
    }

    /// `true` if the block lies in multicast space (`224/4`).
    pub fn is_multicast(&self) -> (r: bool)
        ensures
            r == v4_multicast(self@),
    {
        let (lo, hi) = self.bounds();
        0xe000_0000 <= lo && hi <= 0xefff_ffff
    }

    /// The wildcard mask (inverse netmask), as used in Cisco ACLs.
    pub fn wildcard(&self) -> (r: Ipv4Addr)
        ensures
            r@ == self@.size() - 1,
    {
        self.wildcard_mask()
    }

    /// The first usable host: the address above the network for `/30` and
    /// shorter, the network itself for `/31` and `/32`.
    pub fn first_host(&self) -> (r: Ipv4Addr)
        ensures
            self@.prefix <= 30 ==> r@ == self@.network + 1,
            self@.prefix > 30 ==> r@ == self@.network,
    {
        proof {
            use_type_invariant(self);
            lemma_wf_facts(self@);
            if self.prefix_len <= 30 {
                lemma_pow2_strictly_increases(1, (32 - self.prefix_len) as nat);
                lemma2_to64();
            }
        }
        if self.prefix_len <= 30 {
            Ipv4Addr::from_bits(self.network + 1)
        } else {
            Ipv4Addr::from_bits(self.network)
        }
    }

    /// The last usable host: the address below the broadcast for `/30` and
    /// shorter, the broadcast itself for `/31` and `/32`.
    pub fn last_host(&self) -> (r: Ipv4Addr)
        ensures
            self@.prefix <= 30 ==> r@ == self@.last() - 1,
            self@.prefix > 30 ==> r@ == self@.last(),
    {
        proof {
            use_type_invariant(self);
            lemma_wf_facts(self@);
            if self.prefix_len <= 30 {
                lemma_pow2_strictly_increases(1, (32 - self.prefix_len) as nat);
                lemma2_to64();
            }
        }
        let last = self.last_address().to_bits();
        if self.prefix_len <= 30 {
            Ipv4Addr::from_bits(last - 1)
        } else {
            Ipv4Addr::from_bits(last)
        }
    }

    /// Iterate over the usable hosts: without the network and broadcast
    /// addresses for `/30` and shorter, every address for `/31` and `/32`.
    pub fn hosts(&self) -> (r: Ipv4AddrIter)
        ensures
            self@.prefix <= 30 ==> r@ == interval(self@.network + 1int, self@.last() - 1),
            self@.prefix > 30 ==> r@ == interval(self@.network as int, self@.last()),
    {
        proof {
            use_type_invariant(self);
            lemma_wf_facts(self@);
            if self.prefix_len <= 30 {
                lemma_pow2_strictly_increases(1, (32 - self.prefix_len) as nat);
                lemma2_to64();
            }
        }
        let first = self.network;
        let last = self.last_address().to_bits();
        if self.prefix_len <= 30 {
            Ipv4AddrIter::bounded(first + 1, last - 1)
        } else {
            Ipv4AddrIter::bounded(first, last)
        }
    }
}

/// Two IPv4 blocks with the same view are the same block.
pub proof fn lemma_v4_view_injective(a: Ipv4Cidr, b: Ipv4Cidr)
    requires
        a@ == b@,
    ensures
        a == b,
{
}

/// Convert well-formed raw IPv4 pairs into blocks.
pub(crate) fn v4_from_raw_vec(v: &Vec<(u128, u8)>) -> (r: Vec<Ipv4Cidr>)
    requires
        all_wf(raw_blocks(32, v@)),
    ensures
        v4_blocks(r@) == raw_blocks(32, v@),
        r@.len() == v@.len(),
{
    let mut r: Vec<Ipv4Cidr> = Vec::new();
    let mut i: usize = 0;
    while i < v.len()
        invariant
            i <= v@.len(),
            all_wf(raw_blocks(32, v@)),
            r@.len() == i,
            forall|j: int| 0 <= j < i ==> #[trigger] r@[j]@ == raw(32, v@[j]),
        decreases v@.len() - i,
    {
        proof {
            assert(raw_blocks(32, v@)[i as int].wf());
        }
        let c = Ipv4Cidr::from_raw(v[i].0, v[i].1);
        r.push(c);
        i = i + 1;
    }
    proof {
        assert(v4_blocks(r@) =~= raw_blocks(32, v@));
    }
    r
}

/// The addresses `first..=last`, in order (empty when `first > last`).
pub open spec fn interval(first: int, last: int) -> Seq<int> {
    Seq::new(if first <= last { (last - first + 1) as nat } else { 0 }, |i: int| first + i)
}

/// The sub-blocks of prefix `p` of a block, in ascending order.
pub open spec fn sub_blocks(b: Block, p: nat) -> Seq<Block> {
    Seq::new(
        pow2((p - b.prefix) as nat),
        |i: int| Block { width: b.width, network: (b.network + i * pow2((b.width - p) as nat)) as nat, prefix: p },
    )
}

/// Iterator over a contiguous run of IPv4 addresses, from either end.
#[derive(Debug)]
pub struct Ipv4AddrIter {
    front: u32,
    back: u32,
    done: bool,
}

impl View for Ipv4AddrIter {
    type V = Seq<int>;

    /// The addresses not yet yielded, lowest first.
    closed spec fn view(&self) -> Seq<int> {
        if self.done {
            Seq::empty()
        } else {
            interval(self.front as int, self.back as int)
        }
    }
}

impl Clone for Ipv4AddrIter {
    fn clone(&self) -> (r: Ipv4AddrIter)
        ensures
            r@ == self@,
    {
        proof {
            use_type_invariant(self);
        }
        Ipv4AddrIter { front: self.front, back: self.back, done: self.done }
    }
}

impl Ipv4AddrIter {
    #[verifier::type_invariant]
    spec fn inv(self) -> bool {
        !self.done ==> self.front <= self.back
    }

    /// An inclusive iterator over `first..=last` (empty when `first > last`).
    pub(crate) fn bounded(first: u32, last: u32) -> (r: Ipv4AddrIter)
        ensures
            r@ == interval(first as int, last as int),
    {
        let r = Ipv4AddrIter { front: first, back: last, done: first > last };
        proof {
            if first > last {
                assert(r@ =~= interval(first as int, last as int));
            }
        }
        r
    }

    /// The next address from the low end.
    pub fn next(&mut self) -> (r: Option<Ipv4Addr>)
        ensures
            old(self)@.len() == 0 ==> r is None && final(self)@ == old(self)@,
            old(self)@.len() > 0 ==> (r matches Some(a) && a@ == old(self)@[0] && final(self)@
                == old(self)@.drop_first()),
    {
        proof {
            use_type_invariant(&*self);
        }
        if self.done {
            return None;
        }
        let cur = self.front;
        if cur == self.back {
            self.done = true;
        } else {
            self.front = cur + 1;
        }
        proof {
            assert(self@ =~= old(self)@.drop_first());
        }
        Some(Ipv4Addr::from_bits(cur))
    }

    /// The next address from the high end.
    pub fn next_back(&mut self) -> (r: Option<Ipv4Addr>)
        ensures
            old(self)@.len() == 0 ==> r is None && final(self)@ == old(self)@,
            old(self)@.len() > 0 ==> (r matches Some(a) && a@ == old(self)@.last() && final(self)@
                == old(self)@.drop_last()),
    {
        proof {
            use_type_invariant(&*self);
        }
        if self.done {
            return None;
        }
        let cur = self.back;
        if cur == self.front {
            self.done = true;
        } else {
            self.back = cur - 1;
        }
        proof {
            assert(self@ =~= old(self)@.drop_last());
        }
        Some(Ipv4Addr::from_bits(cur))
    }

    /// Bounds on the number of addresses left: exact whenever the count fits
    /// in `usize`, so always for IPv4 on 64-bit targets.
    pub fn size_hint(&self) -> (r: (usize, Option<usize>))
        ensures
            self@.len() <= usize::MAX ==> r == (self@.len() as usize, Some(self@.len() as usize)),
            self@.len() > usize::MAX ==> r == (usize::MAX, None::<usize>),
    {
        proof {
            use_type_invariant(self);
        }
        if self.done {
            return (0, Some(0));
        }
        let span = (self.back - self.front) as u128;
        if span < usize::MAX as u128 {
            ((span + 1) as usize, Some((span + 1) as usize))
        } else {
            (usize::MAX, None)
        }
    }
}

/// Iterator over the sub-blocks of an IPv4 block.
#[derive(Debug)]
pub struct Ipv4Subnets {
    next: u32,
    remaining: u64,
    prefix: u8,
}

impl View for Ipv4Subnets {
    type V = Seq<Block>;

    /// The sub-blocks not yet yielded, in ascending order.
    closed spec fn view(&self) -> Seq<Block> {
        Seq::new(
            self.remaining as nat,
            |i: int|
                Block {
                    width: 32,
                    network: (self.next + i * pow2((32 - self.prefix) as nat)) as nat,
                    prefix: self.prefix as nat,
                },
        )
    }
}

impl Clone for Ipv4Subnets {
    fn clone(&self) -> (r: Ipv4Subnets)
        ensures
            r@ == self@,
    {
        proof {
            use_type_invariant(self);
        }
        Ipv4Subnets { next: self.next, remaining: self.remaining, prefix: self.prefix }
    }
}

impl Ipv4Subnets {
    #[verifier::type_invariant]
    spec fn inv(self) -> bool {
        &&& self.prefix <= 32
        &&& (self.next as nat) % pow2((32 - self.prefix) as nat) == 0
        &&& self.next + self.remaining * pow2((32 - self.prefix) as nat) <= pow2(32)
    }

    fn empty(prefix: u8) -> (r: Ipv4Subnets)
        ensures
            r@.len() == 0,
    {
        let p = if prefix > 32 { 32 } else { prefix };
        proof {
            lemma_pow2_widths();
            lemma_pow2_pos((32 - p) as nat);
            vstd::arithmetic::div_mod::lemma_small_mod(0, pow2((32 - p) as nat));
            assert(0 * pow2((32 - p) as nat) == 0);
        }
        Ipv4Subnets { next: 0, remaining: 0, prefix: p }
    }

    fn covering(network: u32, prefix: u8, new_prefix: u8) -> (r: Ipv4Subnets)
        requires
            (Block { width: 32, network: network as nat, prefix: prefix as nat }).wf(),
            prefix <= new_prefix <= 32,
        ensures
            r@ == sub_blocks(Block { width: 32, network: network as nat, prefix: prefix as nat }, new_prefix as nat),
    {
        let ghost b = Block { width: 32, network: network as nat, prefix: prefix as nat };
        proof {
            lemma_wf_facts(b);
            lemma_pow2_divides((32 - new_prefix) as nat, (32 - prefix) as nat);
            lemma_mod_pow2_weaken(network as int, (32 - new_prefix) as nat, (32 - prefix) as nat);
            lemma_pow2_divides((new_prefix - prefix) as nat, 32);
            lemma_pow2_adds((new_prefix - prefix) as nat, (32 - new_prefix) as nat);
            vstd::arithmetic::mul::lemma_mul_is_commutative(
                pow2((new_prefix - prefix) as nat) as int,
                pow2((32 - new_prefix) as nat) as int,
            );
        }
        let count = host_span(32, 32 - (new_prefix - prefix)) + 1;
        let r = Ipv4Subnets { next: network, remaining: count as u64, prefix: new_prefix };
        proof {
            assert(r@ =~= sub_blocks(b, new_prefix as nat));
        }
        r
    }

    /// The next sub-block.
    pub fn next(&mut self) -> (r: Option<Ipv4Cidr>)
        ensures
            old(self)@.len() == 0 ==> r is None && final(self)@ == old(self)@,
            old(self)@.len() > 0 ==> (r matches Some(c) && c@ == old(self)@[0] && final(self)@
                == old(self)@.drop_first()),
    {
        proof {
            use_type_invariant(&*self);
        }
        if self.remaining == 0 {
            return None;
        }
        let ghost s = pow2((32 - self.prefix) as nat);
        let cur = self.next;
        proof {
            lemma_pow2_pos((32 - self.prefix) as nat);
            lemma_pow2_widths();
            assert(self.remaining * s >= s) by (nonlinear_arith)
                requires
                    self.remaining >= 1,
                    s > 0,
            ;
            assert((self.remaining - 1) * s == self.remaining * s - s) by (nonlinear_arith);
            let blk = Block { width: 32, network: cur as nat, prefix: self.prefix as nat };
            assert(blk.wf());
        }
        let step = host_span(32, self.prefix) + 1;
        let c = Ipv4Cidr::from_raw(cur as u128, self.prefix);
        let rem = self.remaining;
        let pfx = self.prefix;
        if rem == 1 {
            *self = Ipv4Subnets { next: cur, remaining: 0, prefix: pfx };
        } else {
            proof {
                assert(cur + s + (rem - 1) * s <= pow2(32));
                assert((rem - 1) * s >= s) by (nonlinear_arith)
                    requires
                        rem >= 2,
                        s > 0,
                ;
                vstd::arithmetic::div_mod::lemma_mod_adds(cur as int, s as int, s as int);
                vstd::arithmetic::div_mod::lemma_mod_self_0(s as int);
            }
            *self = Ipv4Subnets { next: (cur as u128 + step) as u32, remaining: rem - 1, prefix: pfx };
        }
        proof {
            assert forall|i: int| 0 <= i < self@.len() implies #[trigger] self@[i] == old(self)@.drop_first()[i] by {
                assert(cur + (i + 1) * s == (cur + s) + i * s) by (nonlinear_arith);
            }
            assert(self@ =~= old(self)@.drop_first());
        }
        Some(c)
    }
}

} // verus!

verus! {

/// Iterator over the sub-blocks of an IPv6 block.
#[derive(Debug)]
pub struct Ipv6Subnets {
    next: u128,
    // the number of blocks left, minus one (a `/0` split to `/128` has 2^128)
    rem_m1: u128,
    done: bool,
    prefix: u8,
}

impl View for Ipv6Subnets {
    type V = Seq<Block>;

    /// The sub-blocks not yet yielded, in ascending order.
    closed spec fn view(&self) -> Seq<Block> {
        if self.done {
            Seq::empty()
        } else {
            Seq::new(
                (self.rem_m1 + 1) as nat,
                |i: int|
                    Block {
                        width: 128,
                        network: (self.next + i * pow2((128 - self.prefix) as nat)) as nat,
                        prefix: self.prefix as nat,
                    },
            )
        }
    }
}

impl Clone for Ipv6Subnets {
    fn clone(&self) -> (r: Ipv6Subnets)
        ensures
            r@ == self@,
    {
        proof {
            use_type_invariant(self);
        }
        Ipv6Subnets { next: self.next, rem_m1: self.rem_m1, done: self.done, prefix: self.prefix }
    }
}

impl Ipv6Subnets {
    #[verifier::type_invariant]
    spec fn inv(self) -> bool {
        &&& self.prefix <= 128
        &&& (self.next as nat) % pow2((128 - self.prefix) as nat) == 0
        &&& !self.done ==> self.next + (self.rem_m1 + 1) * pow2((128 - self.prefix) as nat) <= pow2(128)
    }

    fn empty(prefix: u8) -> (r: Ipv6Subnets)
        ensures
            r@.len() == 0,
    {
        let p = if prefix > 128 { 128 } else { prefix };
        proof {
            lemma_pow2_pos((128 - p) as nat);
            vstd::arithmetic::div_mod::lemma_small_mod(0, pow2((128 - p) as nat));
        }
        Ipv6Subnets { next: 0, rem_m1: 0, done: true, prefix: p }
    }

    fn covering(network: u128, prefix: u8, new_prefix: u8) -> (r: Ipv6Subnets)
        requires
            (Block { width: 128, network: network as nat, prefix: prefix as nat }).wf(),
            prefix <= new_prefix <= 128,
        ensures
            r@ == sub_blocks(Block { width: 128, network: network as nat, prefix: prefix as nat }, new_prefix as nat),
    {
        let ghost b = Block { width: 128, network: network as nat, prefix: prefix as nat };
        proof {
            lemma_wf_facts(b);
            lemma_pow2_divides((128 - new_prefix) as nat, (128 - prefix) as nat);
            lemma_mod_pow2_weaken(network as int, (128 - new_prefix) as nat, (128 - prefix) as nat);
            lemma_pow2_divides((new_prefix - prefix) as nat, 128);
            lemma_pow2_adds((new_prefix - prefix) as nat, (128 - new_prefix) as nat);
            vstd::arithmetic::mul::lemma_mul_is_commutative(
                pow2((new_prefix - prefix) as nat) as int,
                pow2((128 - new_prefix) as nat) as int,
            );
            lemma_pow2_pos((new_prefix - prefix) as nat);
        }
        let rem_m1 = host_span(128, 128 - (new_prefix - prefix));
        let r = Ipv6Subnets { next: network, rem_m1, done: false, prefix: new_prefix };
        proof {
            assert(r@ =~= sub_blocks(b, new_prefix as nat));
        }
        r
    }

    /// The next sub-block.
    pub fn next(&mut self) -> (r: Option<Ipv6Cidr>)
        ensures
            old(self)@.len() == 0 ==> r is None && final(self)@ == old(self)@,
            old(self)@.len() > 0 ==> (r matches Some(c) && c@ == old(self)@[0] && final(self)@
                == old(self)@.drop_first()),
    {
        proof {
            use_type_invariant(&*self);
        }
        if self.done {
            return None;
        }
        let ghost s = pow2((128 - self.prefix) as nat);
        let cur = self.next;
        let rem = self.rem_m1;
        let pfx = self.prefix;
        proof {
            lemma_pow2_pos((128 - self.prefix) as nat);
            lemma_pow2_widths();
            assert((rem + 1) * s >= s) by (nonlinear_arith)
                requires
                    rem >= 0,
                    s > 0,
            ;
            let blk = Block { width: 128, network: cur as nat, prefix: pfx as nat };
            assert(blk.wf());
        }
        let c = Ipv6Cidr::from_raw(cur, pfx);
        if rem == 0 {
            *self = Ipv6Subnets { next: cur, rem_m1: 0, done: true, prefix: pfx };
        } else {
            proof {
                assert((rem + 1) * s == rem * s + s) by (nonlinear_arith);
                assert(rem * s >= s) by (nonlinear_arith)
                    requires
                        rem >= 1,
                        s > 0,
                ;
                assert(cur + s + rem * s <= pow2(128));
                vstd::arithmetic::div_mod::lemma_mod_adds(cur as int, s as int, s as int);
                vstd::arithmetic::div_mod::lemma_mod_self_0(s as int);
                if pfx == 0 {
                    lemma_pow2_divides(0, 128);
                }
            }
            let step = match size_u128(128, pfx) {
                Some(st) => st,
                None => {
                    proof {
                        assert(false);
                    }
                    0
                },
            };
            *self = Ipv6Subnets { next: cur + step, rem_m1: rem - 1, done: false, prefix: pfx };
        }
        proof {
            assert forall|i: int| 0 <= i < self@.len() implies #[trigger] self@[i] == old(self)@.drop_first()[i] by {
                assert(cur + (i + 1) * s == (cur + s) + i * s) by (nonlinear_arith);
            }
            assert(self@ =~= old(self)@.drop_first());
        }
        Some(c)
    }
}

} // verus!

verus! {

/// An address-family-agnostic CIDR block: either IPv4 or IPv6.
#[derive(Debug, Clone, Copy, PartialEq, Eq, Structural, Hash, PartialOrd, Ord)]
pub enum IpCidr {
    /// An IPv4 block.
    V4(Ipv4Cidr),
    /// An IPv6 block.
    V6(Ipv6Cidr),
}

impl View for IpCidr {
    type V = Block;

    open spec fn view(&self) -> Block {
        match self {
            IpCidr::V4(c) => c@,
            IpCidr::V6(c) => c@,
        }
    }
}

impl IpCidr {
    /// Facts every block of either family satisfies.
    pub fn well_formed(&self) -> (r: bool)
        ensures
            r,
            self@.wf(),
            self is V4 <==> self@.width == 32,
            self is V6 <==> self@.width == 128,
    {
        match self {
            IpCidr::V4(c) => {
                let _ = c.prefix_len();
            },
            IpCidr::V6(c) => {
                let _ = c.prefix_len();
            },
        }
        true
    }

    /// Build a block from any address and a prefix length.
    pub fn new(addr: IpAddr, prefix_len: u8) -> (r: Result<IpCidr, ParseError>)
        ensures
            prefix_len <= addr.width() <==> r is Ok,
            r matches Ok(c) ==> c@ == block_of(addr.width(), addr.value(), prefix_len as nat),
            r matches Err(e) ==> (e matches ParseError::BadPrefix(s) && s@ == radix_digits(
                prefix_len as nat,
                10,
            )),
    {
        match addr {
            IpAddr::V4(a) => match Ipv4Cidr::new(a, prefix_len) {
                Ok(c) => Ok(IpCidr::V4(c)),
                Err(e) => Err(e),
            },
            IpAddr::V6(a) => match Ipv6Cidr::new(a, prefix_len) {
                Ok(c) => Ok(IpCidr::V6(c)),
                Err(e) => Err(e),
            },
        }
    }

    /// The prefix length of the underlying block.
    pub fn prefix_len(&self) -> (r: u8)
        ensures
            r == self@.prefix,
    {
        match self {
            IpCidr::V4(c) => c.prefix_len(),
            IpCidr::V6(c) => c.prefix_len(),
        }
    }

    /// The network address of the underlying block.
    pub fn network(&self) -> (r: IpAddr)
        ensures
            r.width() == self@.width && r.value() == self@.network,
    {
        match self {
            IpCidr::V4(c) => IpAddr::V4(c.network()),
            IpCidr::V6(c) => IpAddr::V6(c.network()),
        }
    }

    /// The highest address in the block.
    pub fn last_address(&self) -> (r: IpAddr)
        ensures
            r.width() == self@.width && r.value() == self@.last(),
    {
        match self {
            IpCidr::V4(c) => IpAddr::V4(c.last_address()),
            IpCidr::V6(c) => IpAddr::V6(c.last_address()),
        }
    }

    /// The network mask as an address.
    pub fn netmask(&self) -> (r: IpAddr)
        ensures
            r.width() == self@.width && r.value() == mask_value(self@.width, self@.prefix),
    {
        match self {
            IpCidr::V4(c) => IpAddr::V4(c.netmask()),
            IpCidr::V6(c) => IpAddr::V6(c.netmask()),
        }
    }

    /// The wildcard mask (inverse netmask) as an address.
    pub fn wildcard_mask(&self) -> (r: IpAddr)
        ensures
            r.width() == self@.width && r.value() == self@.size() - 1,
    {
        match self {
            IpCidr::V4(c) => IpAddr::V4(c.wildcard_mask()),
            IpCidr::V6(c) => IpAddr::V6(c.wildcard_mask()),
        }
    }

    /// The immediately enclosing block, or `None` for a `/0`.
    pub fn supernet(&self) -> (r: Option<IpCidr>)
        ensures
            self@.prefix == 0 <==> r is None,
            r matches Some(s) ==> s@ == block_of(self@.width, self@.network, (self@.prefix - 1) as nat)
                && (s is V4 <==> self is V4),
    {
        match self {
            IpCidr::V4(c) => match c.supernet() {
                Some(s) => Some(IpCidr::V4(s)),
                None => None,
            },
            IpCidr::V6(c) => match c.supernet() {
                Some(s) => Some(IpCidr::V6(s)),
                None => None,
            },
        }
    }

    /// The enclosing block of prefix length `new_prefix`, or `None` if it is
    /// longer than this block's prefix.
    pub fn supernet_at(&self, new_prefix: u8) -> (r: Option<IpCidr>)
        ensures
            new_prefix <= self@.prefix <==> r is Some,
            r matches Some(s) ==> s@ == block_of(self@.width, self@.network, new_prefix as nat) && (s is V4
                <==> self is V4),
    {
        match self {
            IpCidr::V4(c) => match c.supernet_at(new_prefix) {
                Some(s) => Some(IpCidr::V4(s)),
                None => None,
            },
            IpCidr::V6(c) => match c.supernet_at(new_prefix) {
                Some(s) => Some(IpCidr::V6(s)),
                None => None,
            },
        }
    }

    /// Split this block into its two equal halves, or `None` if it is a
    /// single address.
    pub fn split(&self) -> (r: Option<(IpCidr, IpCidr)>)
        ensures
            self@.prefix == self@.width <==> r is None,
            r matches Some((lo, hi)) ==> lo@ == self@.lower_half() && hi@ == self@.upper_half() && (lo is V4
                <==> self is V4) && (hi is V4 <==> self is V4),
    {
        self.well_formed();
        match self {
            IpCidr::V4(c) => match c.split() {
                Some((a, b)) => Some((IpCidr::V4(a), IpCidr::V4(b))),
                None => None,
            },
            IpCidr::V6(c) => match c.split() {
                Some((a, b)) => Some((IpCidr::V6(a), IpCidr::V6(b))),
                None => None,
            },
        }
    }

    /// The number of `new_prefix`-length sub-blocks this block splits into.
    pub fn subnet_count(&self, new_prefix: u8) -> (r: u128)
        ensures
            (new_prefix < self@.prefix || new_prefix > self@.width) ==> r == 0,
            !(new_prefix < self@.prefix || new_prefix > self@.width) && new_prefix - self@.prefix < 128
                ==> r == pow2((new_prefix - self@.prefix) as nat),
            !(new_prefix < self@.prefix || new_prefix > self@.width) && new_prefix - self@.prefix == 128
                ==> r == u128::MAX,
    {
        self.well_formed();
        match self {
            IpCidr::V4(c) => c.subnet_count(new_prefix),
            IpCidr::V6(c) => c.subnet_count(new_prefix),
        }
    }

    /// Returns `true` if `other` is fully contained in this block; a
    /// mismatched address family is never contained.
    pub fn contains_subnet(&self, other: &IpCidr) -> (r: bool)
        ensures
            r == (self@.width == other@.width && self@.contains_block(other@)),
    {
        self.well_formed();
        other.well_formed();
        match (self, other) {
            (IpCidr::V4(a), IpCidr::V4(b)) => a.contains_subnet(b),
            (IpCidr::V6(a), IpCidr::V6(b)) => a.contains_subnet(b),
            _ => false,
        }
    }

    /// Returns `true` if the two blocks share an address; a mismatched
    /// address family never does.
    pub fn overlaps(&self, other: &IpCidr) -> (r: bool)
        ensures
            r == (self@.width == other@.width && self@.overlaps(other@)),
    {
        self.well_formed();
        other.well_formed();
        match (self, other) {
            (IpCidr::V4(a), IpCidr::V4(b)) => a.overlaps(b),
            (IpCidr::V6(a), IpCidr::V6(b)) => a.overlaps(b),
            _ => false,
        }
    }

    /// Remove `other` from this block, returning the minimal covering
    /// remainder. A mismatched address family removes nothing.
    pub fn exclude(&self, other: &IpCidr) -> (r: Vec<IpCidr>)
        ensures
            all_wf(ip_blocks(r@)),
            ascending(ip_blocks(r@)),
            forall|i: int| 0 <= i < r@.len() ==> (#[trigger] r@[i] is V4 <==> self is V4),
            self@.width != other@.width ==> r@ == seq![*self],
            self@.width == other@.width ==> forall|x: int|
                covers(ip_blocks(r@), x) <==> (self@.contains(x) && !other@.contains(x)),
            self@.width == other@.width && !self@.overlaps(other@) ==> r@ == seq![*self],
            self@.width == other@.width && other@.contains_block(self@) ==> r@.len() == 0,
            self@.width == other@.width && self@.overlaps(other@) && !other@.contains_block(self@)
                ==> r@.len() == other@.prefix - self@.prefix,
    {
        self.well_formed();
        other.well_formed();
        match (self, other) {
            (IpCidr::V4(a), IpCidr::V4(b)) => {
                let v = a.exclude(b);
                let r = wrap_v4(&v);
                proof {
                    assert(ip_blocks(r@).len() == v4_blocks(v@).len());
                    if !self@.overlaps(other@) {
                        assert(r@[0] == IpCidr::V4(v@[0]));
                        assert(r@ =~= seq![*self]);
                    }
                }
                r
            },
            (IpCidr::V6(a), IpCidr::V6(b)) => {
                let v = a.exclude(b);
                let r = wrap_v6(&v);
                proof {
                    assert(ip_blocks(r@).len() == v6_blocks(v@).len());
                    if !self@.overlaps(other@) {
                        assert(r@[0] == IpCidr::V6(v@[0]));
                        assert(r@ =~= seq![*self]);
                    }
                }
                r
            },
            _ => {
                let r = vec![*self];
                proof {
                    assert(ip_blocks(r@) =~= seq![self@]);
                }
                r
            },
        }
    }

    /// The address at offset `index` from the network address, or `None` if
    /// `index` is past the end of the block.
    pub fn nth_address(&self, index: u128) -> (r: Option<IpAddr>)
        ensures
            index < self@.size() ==> (r matches Some(a) && a.width() == self@.width && a.value()
                == self@.network + index),
            index >= self@.size() ==> r is None,
    {
        match self {
            IpCidr::V4(c) => match c.nth_address(index) {
                Some(a) => Some(IpAddr::V4(a)),
                None => None,
            },
            IpCidr::V6(c) => match c.nth_address(index) {
                Some(a) => Some(IpAddr::V6(a)),
                None => None,
            },
        }
    }

    /// Iterate over every address in the block, lowest to highest.
    pub fn addresses(&self) -> (r: IpSetIter)
        ensures
            r.width() == self@.width,
            r.remaining() == interval(self@.network as int, self@.last()),
    {
        self.well_formed();
        match self {
            IpCidr::V4(c) => IpSetIter::V4(c.addresses()),
            IpCidr::V6(c) => IpSetIter::V6(c.addresses()),
        }
    }

    /// Iterate over the hosts, applying IPv4 network/broadcast conventions
    /// (every address for IPv6).
    pub fn hosts(&self) -> (r: IpSetIter)
        ensures
            r.width() == self@.width,
            self@.width == 32 && self@.prefix <= 30 ==> r.remaining() == interval(
                self@.network + 1int,
                self@.last() - 1,
            ),
            !(self@.width == 32 && self@.prefix <= 30) ==> r.remaining() == interval(
                self@.network as int,
                self@.last(),
            ),
    {
        self.well_formed();
        match self {
            IpCidr::V4(c) => IpSetIter::V4(c.hosts()),
            IpCidr::V6(c) => IpSetIter::V6(c.addresses()),
        }
    }

    /// The total number of addresses, saturating to `u128::MAX` for the IPv6
    /// `/0`.
    pub fn address_count(&self) -> (r: u128)
        ensures
            r == if self@.size() > u128::MAX { u128::MAX as nat } else { self@.size() },
    {
        self.well_formed();
        proof {
            lemma_pow2_widths();
            lemma_wf_facts(self@);
            if self@.prefix > 0 {
                lemma_pow2_strictly_increases((self@.width - self@.prefix) as nat, 128);
            }
        }
        match self {
            IpCidr::V4(c) => c.address_count(),
            IpCidr::V6(c) => c.address_count(),
        }
    }

    /// Returns `true` if `addr` is in the block; an address of the other
    /// family never is.
    pub fn contains(&self, addr: IpAddr) -> (r: bool)
        ensures
            r == (addr.width() == self@.width && self@.contains(addr.value() as int)),
    {
        self.well_formed();
        match (self, addr) {
            (IpCidr::V4(c), IpAddr::V4(a)) => c.contains(a),
            (IpCidr::V6(c), IpAddr::V6(a)) => c.contains(a),
            _ => false,
        }
    }

    /// `true` if this is an IPv4 block.
    pub fn is_ipv4(&self) -> (r: bool)
        ensures
            r == (self is V4),
    {
        matches!(self, IpCidr::V4(_))
    }

    /// `true` if this is an IPv6 block.
    pub fn is_ipv6(&self) -> (r: bool)
        ensures
            r == (self is V6),
    {
        matches!(self, IpCidr::V6(_))
    }

    /// `true` if the block is a single address (`/32` or `/128`).
    pub fn is_host(&self) -> (r: bool)
        ensures
            r == (self@.prefix == self@.width),
    {
        self.well_formed();
        match self {
            IpCidr::V4(c) => c.prefix_len() == 32,
            IpCidr::V6(c) => c.prefix_len() == 128,
        }
    }

    /// `true` if the block is the whole address space of its family (`/0`).
    pub fn is_default(&self) -> (r: bool)
        ensures
            r == (self@.prefix == 0),
    {
        self.prefix_len() == 0
    }

    /// `true` if the block lies in loopback space for its family (`127/8`,
    /// or the address `::1`).
    pub fn is_loopback(&self) -> (r: bool)
        ensures
            self is V4 ==> r == v4_loopback(self@),
            self is V6 ==> r == v6_loopback(self@),
    {
        match self {
            IpCidr::V4(c) => c.is_loopback(),
            IpCidr::V6(c) => c.is_loopback(),
        }
    }

    /// `true` if the block lies in multicast space for its family (`224/4`,
    /// `ff00::/8`).
    pub fn is_multicast(&self) -> (r: bool)
        ensures
            self is V4 ==> r == v4_multicast(self@),
            self is V6 ==> r == v6_multicast(self@),
    {
        match self {
            IpCidr::V4(c) => c.is_multicast(),
            IpCidr::V6(c) => c.is_multicast(),
        }
    }

    /// `true` if the block lies in private space for its family: RFC 1918
    /// for IPv4, unique-local `fc00::/7` for IPv6.
    pub fn is_private(&self) -> (r: bool)
        ensures
            self is V4 ==> r == v4_private(self@),
            self is V6 ==> r == v6_unique_local(self@),
    {
        match self {
            IpCidr::V4(c) => c.is_private(),
            IpCidr::V6(c) => c.is_unique_local(),
        }
    }

    /// `true` if the block lies in link-local space for its family
    /// (`169.254/16`, `fe80::/10`).
    pub fn is_link_local(&self) -> (r: bool)
        ensures
            self is V4 ==> r == v4_link_local(self@),
            self is V6 ==> r == v6_link_local(self@),
    {
        match self {
            IpCidr::V4(c) => c.is_link_local(),
            IpCidr::V6(c) => c.is_link_local(),
        }
    }

    /// `true` if the block lies in documentation space for its family.
    pub fn is_documentation(&self) -> (r: bool)
        ensures
            self is V4 ==> r == v4_documentation(self@),
            self is V6 ==> r == v6_documentation(self@),
    {
        match self {
            IpCidr::V4(c) => c.is_documentation(),
            IpCidr::V6(c) => c.is_documentation(),
        }
    }
}

/// The family of a block fixes the width of its view.
pub proof fn lemma_ipcidr_width(c: IpCidr)
    ensures
        c is V4 ==> c@.width == 32,
        c is V6 ==> c@.width == 128,
{
}

/// The views of a sequence of family-agnostic blocks.
pub open spec fn ip_blocks(s: Seq<IpCidr>) -> Seq<Block> {
    s.map_values(|c: IpCidr| c@)
}

/// Wrap IPv4 blocks as family-agnostic blocks.
pub fn wrap_v4(v: &Vec<Ipv4Cidr>) -> (r: Vec<IpCidr>)
    ensures
        ip_blocks(r@) == v4_blocks(v@),
        forall|i: int| 0 <= i < r@.len() ==> #[trigger] r@[i] is V4,
        forall|i: int| 0 <= i < r@.len() ==> #[trigger] r@[i] == IpCidr::V4(v@[i]),
{
    let mut r: Vec<IpCidr> = Vec::new();
    let mut i: usize = 0;
    while i < v.len()
        invariant
            i <= v@.len(),
            r@.len() == i,
            forall|j: int| 0 <= j < i ==> #[trigger] r@[j] == IpCidr::V4(v@[j]),
        decreases v@.len() - i,
    {
        r.push(IpCidr::V4(v[i]));
        i = i + 1;
    }
    proof {
        assert(ip_blocks(r@) =~= v4_blocks(v@));
    }
    r
}

/// Wrap IPv6 blocks as family-agnostic blocks.
pub fn wrap_v6(v: &Vec<Ipv6Cidr>) -> (r: Vec<IpCidr>)
    ensures
        ip_blocks(r@) == v6_blocks(v@),
        forall|i: int| 0 <= i < r@.len() ==> #[trigger] r@[i] is V6,
        forall|i: int| 0 <= i < r@.len() ==> #[trigger] r@[i] == IpCidr::V6(v@[i]),
{
    let mut r: Vec<IpCidr> = Vec::new();
    let mut i: usize = 0;
    while i < v.len()
        invariant
            i <= v@.len(),
            r@.len() == i,
            forall|j: int| 0 <= j < i ==> #[trigger] r@[j] == IpCidr::V6(v@[j]),
        decreases v@.len() - i,
    {
        r.push(IpCidr::V6(v[i]));
        i = i + 1;
    }
    proof {
        assert(ip_blocks(r@) =~= v6_blocks(v@));
    }
    r
}

} // verus!
