//! Inclusive address ranges for IPv4 and IPv6, plus the family-agnostic
//! [`IpRange`], range decomposition and block aggregation.
//!
//! A range is a contiguous, inclusive span `start..=end`. Unlike a CIDR block
//! it need not align to a power-of-two boundary.

use vstd::prelude::*;
use vstd::arithmetic::power2::*;

use crate::addr::{IpAddr, Ipv4Addr, Ipv6Addr};
use crate::block::{
    aggregate_raw, all_wf, ascending, consecutive, covers, lemma_pow2_widths, lemma_wf_facts,
    maximal_in, maximal_within, range_to_blocks, raw_blocks, Block,
};
use crate::cidr::{
    interval, ip_blocks, v4_blocks, v4_from_raw_vec, v6_blocks, v6_from_raw_vec, wrap_v4, wrap_v6,
    IpCidr, Ipv4AddrIter, Ipv4Cidr, Ipv6AddrIter, Ipv6Cidr,
};
use crate::error::ParseError;
use crate::set::IpSetIter;

verus! {

/// The spans `(first, last)` of a sequence of IPv4 ranges.
pub open spec fn v4_spans(s: Seq<Ipv4Range>) -> Seq<(nat, nat)> {
    s.map_values(|r: Ipv4Range| r@)
}

/// The spans `(first, last)` of a sequence of IPv6 ranges.
pub open spec fn v6_spans(s: Seq<Ipv6Range>) -> Seq<(nat, nat)> {
    s.map_values(|r: Ipv6Range| r@)
}

/// The addresses of span `a` that are not in span `b`, as at most two spans:
/// the part below `b` and the part above it.
pub open spec fn span_minus(a: (nat, nat), b: (nat, nat)) -> Seq<(nat, nat)> {
    if b.1 < a.0 || a.1 < b.0 {
        seq![a]
    } else {
        let left: Seq<(nat, nat)> = if a.0 < b.0 { seq![(a.0, (b.0 - 1) as nat)] } else { seq![] };
        let right: Seq<(nat, nat)> = if b.1 < a.1 { seq![((b.1 + 1) as nat, a.1)] } else { seq![] };
        left + right
    }
}

/// The overlap of two spans, if any.
pub open spec fn span_meet(a: (nat, nat), b: (nat, nat)) -> Option<(nat, nat)> {
    let lo = if a.0 >= b.0 { a.0 } else { b.0 };
    let hi = if a.1 <= b.1 { a.1 } else { b.1 };
    if lo <= hi {
        Some((lo, hi))
    } else {
        None
    }
}

/// Blocks decomposing `first..=last`: each is the largest aligned block that
/// starts where the previous one ended and fits.
pub open spec fn decomposes(s: Seq<Block>, first: nat, last: nat) -> bool {
    &&& s.len() > 0
    &&& all_wf(s)
    &&& consecutive(s)
    &&& ascending(s)
    &&& s[0].network == first
    &&& s[s.len() - 1].last() == last
    &&& forall|i: int| 0 <= i < s.len() ==> maximal_within(#[trigger] s[i], last as int)
    &&& forall|x: int| covers(s, x) <==> first <= x <= last
}

/// Blocks aggregating `input`: the same addresses, ascending, and no block
/// can be doubled within the union.
pub open spec fn aggregates(s: Seq<Block>, input: Seq<Block>) -> bool {
    &&& all_wf(s)
    &&& ascending(s)
    &&& forall|x: int| covers(s, x) <==> covers(input, x)
    &&& forall|i: int| 0 <= i < s.len() ==> maximal_in(#[trigger] s[i], input)
}

/// A single well-formed block decomposes its own span.
pub proof fn lemma_single_block_decomposes(b: Block)
    requires
        b.wf(),
    ensures
        decomposes(seq![b], b.network, b.last() as nat),
{
    lemma_wf_facts(b);
    let s = seq![b];
    assert(s[0] == b);
    assert forall|x: int| covers(s, x) <==> b.network <= x <= b.last() by {
        if b.network <= x <= b.last() {
            assert(s[0].contains(x));
        }
    }
    let k = (b.width - b.prefix) as nat;
    if b.prefix > 0 {
        lemma_pow2_unfold((k + 1) as nat);
        lemma_pow2_pos(k);
    }
    assert(maximal_within(s[0], b.last()));
}

// ---------------------------------------------------------------------------
// IPv4
// ---------------------------------------------------------------------------

/// An inclusive range of IPv4 addresses, `start..=end`.
#[derive(Debug, Clone, Copy, PartialEq, Eq, Structural, Hash, PartialOrd, Ord)]
pub struct Ipv4Range {
    start: u32,
    end: u32,
}

impl View for Ipv4Range {
    type V = (nat, nat);

    closed spec fn view(&self) -> (nat, nat) {
        (self.start as nat, self.end as nat)
    }
}

impl Ipv4Range {
    #[verifier::type_invariant]
    spec fn inv(self) -> bool {
        self.start <= self.end
    }

    fn from_bounds(start: u32, end: u32) -> (r: Ipv4Range)
        requires
            start <= end,
        ensures
            r@ == (start as nat, end as nat),
    {
        Ipv4Range { start, end }
    }

    /// Build a range from its inclusive endpoints, or
    /// [`ParseError::StartAfterEnd`] if `start` sorts after `end`.
    pub fn new(start: Ipv4Addr, end: Ipv4Addr) -> (r: Result<Ipv4Range, ParseError>)
        ensures
            start@ <= end@ <==> r is Ok,
            r matches Ok(v) ==> v@ == (start@ as nat, end@ as nat),
            r matches Err(e) ==> e == ParseError::StartAfterEnd,
    {
        let (s, e) = (start.to_bits(), end.to_bits());
        if s > e {
            return Err(ParseError::StartAfterEnd);
        }
        Ok(Ipv4Range::from_bounds(s, e))
    }

    /// The first (lowest) address in the range.
    pub fn start(&self) -> (r: Ipv4Addr)
        ensures
            r@ == self@.0,
            self@.0 <= self@.1 < pow2(32),
    {
        proof {
            use_type_invariant(self);
            lemma_pow2_widths();
        }
        Ipv4Addr::from_bits(self.start)
    }

    /// The last (highest) address in the range.
    pub fn end(&self) -> (r: Ipv4Addr)
        ensures
            r@ == self@.1,
            self@.0 <= self@.1 < pow2(32),
    {
        proof {
            use_type_invariant(self);
            lemma_pow2_widths();
        }
        Ipv4Addr::from_bits(self.end)
    }

    /// Returns `true` if `addr` lies within the range, inclusive.
    pub fn contains(&self, addr: Ipv4Addr) -> (r: bool)
        ensures
            r == (self@.0 <= addr@ <= self@.1),
    {
        let a = addr.to_bits();
        self.start <= a && a <= self.end
    }

    /// The number of addresses in the range.
    pub fn count(&self) -> (r: u128)
        ensures
            r == self@.1 - self@.0 + 1,
    {
        proof {
            use_type_invariant(self);
        }
        (self.end - self.start) as u128 + 1
    }

    /// The address at offset `index` from the start, or `None` past the end.
    pub fn nth_address(&self, index: u128) -> (r: Option<Ipv4Addr>)
        ensures
            index <= self@.1 - self@.0 ==> (r matches Some(a) && a@ == self@.0 + index),
            index > self@.1 - self@.0 ==> r is None,
    {
        proof {
            use_type_invariant(self);
        }
        if index >= self.count() {
            return None;
        }
        Some(Ipv4Addr::from_bits((self.start as u128 + index) as u32))
    }

    /// Iterate over every address in the range, lowest to highest.
    pub fn iter(&self) -> (r: Ipv4AddrIter)
        ensures
            r@ == interval(self@.0 as int, self@.1 as int),
    {
        Ipv4AddrIter::bounded(self.start, self.end)
    }

    /// Returns `true` if the two ranges share at least one address.
    pub fn overlaps(&self, other: &Ipv4Range) -> (r: bool)
        ensures
            r == (self@.0 <= other@.1 && other@.0 <= self@.1),
    {
        self.start <= other.end && other.start <= self.end
    }

    /// Returns `true` if `other` is entirely within this range.
    pub fn contains_range(&self, other: &Ipv4Range) -> (r: bool)
        ensures
            r == (self@.0 <= other@.0 && other@.1 <= self@.1),
    {
        self.start <= other.start && other.end <= self.end
    }

    /// The overlap of the two ranges, which is itself a range, or `None`
    /// when they are disjoint.
    pub fn intersection(&self, other: &Ipv4Range) -> (r: Option<Ipv4Range>)
        ensures
            span_meet(self@, other@) matches Some(m) ==> (r matches Some(v) && v@ == m),
            span_meet(self@, other@) is None ==> r is None,
    {
        let lo = if self.start >= other.start { self.start } else { other.start };
        let hi = if self.end <= other.end { self.end } else { other.end };
        if lo <= hi {
            Some(Ipv4Range::from_bounds(lo, hi))
        } else {
            None
        }
    }

    /// Remove `other` from this range: the part below it and the part above
    /// it, whichever are non-empty (this range itself when they are disjoint).
    pub fn exclude(&self, other: &Ipv4Range) -> (r: Vec<Ipv4Range>)
        ensures
            v4_spans(r@) == span_minus(self@, other@),
    {
        proof {
            use_type_invariant(self);
            use_type_invariant(other);
        }
        let mut out: Vec<Ipv4Range> = Vec::new();
        if !self.overlaps(other) {
            out.push(*self);
            proof {
                assert(v4_spans(out@) =~= span_minus(self@, other@));
            }
            return out;
        }
        if self.start < other.start {
            out.push(Ipv4Range::from_bounds(self.start, other.start - 1));
        }
        if other.end < self.end {
            out.push(Ipv4Range::from_bounds(other.end + 1, self.end));
        }
        proof {
            assert(v4_spans(out@) =~= span_minus(self@, other@));
        }
        out
    }

    /// Decompose this range into the minimal set of aligned CIDR blocks that
    /// exactly cover it, in ascending order.
    pub fn to_cidrs(&self) -> (r: Vec<Ipv4Cidr>)
        ensures
            decomposes(v4_blocks(r@), self@.0, self@.1),
    {
        proof {
            use_type_invariant(self);
            lemma_pow2_widths();
        }
        let raw = range_to_blocks(32, self.start as u128, self.end as u128);
        v4_from_raw_vec(&raw)
    }
}

impl Ipv4Cidr {
    /// Collapse a list of IPv4 blocks into the minimal equivalent set,
    /// merging overlapping, adjacent, and contained blocks. The result is
    /// sorted and non-overlapping.
    pub fn aggregate(cidrs: &[Ipv4Cidr]) -> (r: Vec<Ipv4Cidr>)
        ensures
            aggregates(v4_blocks(r@), v4_blocks(cidrs@)),
    {
        let mut raws: Vec<(u128, u8)> = Vec::new();
        let mut i: usize = 0;
        while i < cidrs.len()
            invariant
                i <= cidrs@.len(),
                raws@.len() == i,
                forall|j: int| 0 <= j < i ==> #[trigger] raw_blocks(32, raws@)[j] == cidrs@[j]@,
                all_wf(raw_blocks(32, raws@)),
            decreases cidrs@.len() - i,
        {
            let t = cidrs[i].to_raw();
            let ghost old_raws = raws@;
            raws.push(t);
            proof {
                assert forall|j: int| 0 <= j < i + 1 implies #[trigger] raw_blocks(32, raws@)[j] == cidrs@[j]@ by {
                    if j < i {
                        assert(raw_blocks(32, old_raws)[j] == cidrs@[j]@);
                    }
                }
                assert forall|j: int| 0 <= j < raws@.len() implies #[trigger] raw_blocks(32, raws@)[j].wf() by {
                    if j < i {
                        assert(raw_blocks(32, old_raws)[j].wf());
                    }
                }
            }
            i = i + 1;
        }
        proof {
            assert(raw_blocks(32, raws@) =~= v4_blocks(cidrs@));
        }
        let merged = aggregate_raw(32, &raws);
        v4_from_raw_vec(&merged)
    }
}

// ---------------------------------------------------------------------------
// IPv6
// ---------------------------------------------------------------------------

/// An inclusive range of IPv6 addresses, `start..=end`.
#[derive(Debug, Clone, Copy, PartialEq, Eq, Structural, Hash, PartialOrd, Ord)]
pub struct Ipv6Range {
    start: u128,
    end: u128,
}

impl View for Ipv6Range {
    type V = (nat, nat);

    closed spec fn view(&self) -> (nat, nat) {
        (self.start as nat, self.end as nat)
    }
}

impl Ipv6Range {
    #[verifier::type_invariant]
    spec fn inv(self) -> bool {
        self.start <= self.end
    }

    fn from_bounds(start: u128, end: u128) -> (r: Ipv6Range)
        requires
            start <= end,
        ensures
            r@ == (start as nat, end as nat),
    {
        Ipv6Range { start, end }
    }

    /// Build a range from its inclusive endpoints, or
    /// [`ParseError::StartAfterEnd`] if `start` sorts after `end`.
    pub fn new(start: Ipv6Addr, end: Ipv6Addr) -> (r: Result<Ipv6Range, ParseError>)
        ensures
            start@ <= end@ <==> r is Ok,
            r matches Ok(v) ==> v@ == (start@ as nat, end@ as nat),
            r matches Err(e) ==> e == ParseError::StartAfterEnd,
    {
        let (s, e) = (start.to_bits(), end.to_bits());
        if s > e {
            return Err(ParseError::StartAfterEnd);
        }
        Ok(Ipv6Range::from_bounds(s, e))
    }

    /// The first (lowest) address in the range.
    pub fn start(&self) -> (r: Ipv6Addr)
        ensures
            r@ == self@.0,
            self@.0 <= self@.1 < pow2(128),
    {
        proof {
            use_type_invariant(self);
            lemma_pow2_widths();
        }
        Ipv6Addr::from_bits(self.start)
    }

    /// The last (highest) address in the range.
    pub fn end(&self) -> (r: Ipv6Addr)
        ensures
            r@ == self@.1,
            self@.0 <= self@.1 < pow2(128),
    {
        proof {
            use_type_invariant(self);
            lemma_pow2_widths();
        }
        Ipv6Addr::from_bits(self.end)
    }

    /// Returns `true` if `addr` lies within the range, inclusive.
    pub fn contains(&self, addr: Ipv6Addr) -> (r: bool)
        ensures
            r == (self@.0 <= addr@ <= self@.1),
    {
        let a = addr.to_bits();
        self.start <= a && a <= self.end
    }

    /// The number of addresses in the range, saturating to `u128::MAX` for
    /// the full IPv6 space (whose count, `2^128`, does not fit).
    pub fn count(&self) -> (r: u128)
        ensures
            self@.1 - self@.0 < u128::MAX ==> r == self@.1 - self@.0 + 1,
            self@.1 - self@.0 == u128::MAX ==> r == u128::MAX,
    {
        proof {
            use_type_invariant(self);
        }
        let span = self.end - self.start;
        if span == u128::MAX {
            u128::MAX
        } else {
            span + 1
        }
    }

    /// The address at offset `index` from the start, or `None` past the end.
    pub fn nth_address(&self, index: u128) -> (r: Option<Ipv6Addr>)
        ensures
            index <= self@.1 - self@.0 ==> (r matches Some(a) && a@ == self@.0 + index),
            index > self@.1 - self@.0 ==> r is None,
    {
        proof {
            use_type_invariant(self);
        }
        if index > self.end - self.start {
            return None;
        }
        Some(Ipv6Addr::from_bits((self.start as u128 + index) as u128))
    }

    /// Iterate over every address in the range, lowest to highest.
    pub fn iter(&self) -> (r: Ipv6AddrIter)
        ensures
            r@ == interval(self@.0 as int, self@.1 as int),
    {
        Ipv6AddrIter::bounded(self.start, self.end)
    }

    /// Returns `true` if the two ranges share at least one address.
    pub fn overlaps(&self, other: &Ipv6Range) -> (r: bool)
        ensures
            r == (self@.0 <= other@.1 && other@.0 <= self@.1),
    {
        self.start <= other.end && other.start <= self.end
    }

    /// Returns `true` if `other` is entirely within this range.
    pub fn contains_range(&self, other: &Ipv6Range) -> (r: bool)
        ensures
            r == (self@.0 <= other@.0 && other@.1 <= self@.1),
    {
        self.start <= other.start && other.end <= self.end
    }

    /// The overlap of the two ranges, which is itself a range, or `None`
    /// when they are disjoint.
    pub fn intersection(&self, other: &Ipv6Range) -> (r: Option<Ipv6Range>)
        ensures
            span_meet(self@, other@) matches Some(m) ==> (r matches Some(v) && v@ == m),
            span_meet(self@, other@) is None ==> r is None,
    {
        let lo = if self.start >= other.start { self.start } else { other.start };
        let hi = if self.end <= other.end { self.end } else { other.end };
        if lo <= hi {
            Some(Ipv6Range::from_bounds(lo, hi))
        } else {
            None
        }
    }

    /// Remove `other` from this range: the part below it and the part above
    /// it, whichever are non-empty (this range itself when they are disjoint).
    pub fn exclude(&self, other: &Ipv6Range) -> (r: Vec<Ipv6Range>)
        ensures
            v6_spans(r@) == span_minus(self@, other@),
    {
        proof {
            use_type_invariant(self);
            use_type_invariant(other);
        }
        let mut out: Vec<Ipv6Range> = Vec::new();
        if !self.overlaps(other) {
            out.push(*self);
            proof {
                assert(v6_spans(out@) =~= span_minus(self@, other@));
            }
            return out;
        }
        if self.start < other.start {
            out.push(Ipv6Range::from_bounds(self.start, other.start - 1));
        }
        if other.end < self.end {
            out.push(Ipv6Range::from_bounds(other.end + 1, self.end));
        }
        proof {
            assert(v6_spans(out@) =~= span_minus(self@, other@));
        }
        out
    }

    /// Decompose this range into the minimal set of aligned CIDR blocks that
    /// exactly cover it, in ascending order.
    pub fn to_cidrs(&self) -> (r: Vec<Ipv6Cidr>)
        ensures
            decomposes(v6_blocks(r@), self@.0, self@.1),
    {
        proof {
            use_type_invariant(self);
            lemma_pow2_widths();
        }
        let raw = range_to_blocks(128, self.start as u128, self.end as u128);
        v6_from_raw_vec(&raw)
    }
}

impl Ipv6Cidr {
    /// Collapse a list of IPv6 blocks into the minimal equivalent set,
    /// merging overlapping, adjacent, and contained blocks. The result is
    /// sorted and non-overlapping.
    pub fn aggregate(cidrs: &[Ipv6Cidr]) -> (r: Vec<Ipv6Cidr>)
        ensures
            aggregates(v6_blocks(r@), v6_blocks(cidrs@)),
    {
        let mut raws: Vec<(u128, u8)> = Vec::new();
        let mut i: usize = 0;
        while i < cidrs.len()
            invariant
                i <= cidrs@.len(),
                raws@.len() == i,
                forall|j: int| 0 <= j < i ==> #[trigger] raw_blocks(128, raws@)[j] == cidrs@[j]@,
                all_wf(raw_blocks(128, raws@)),
            decreases cidrs@.len() - i,
        {
            let t = cidrs[i].to_raw();
            let ghost old_raws = raws@;
            raws.push(t);
            proof {
                assert forall|j: int| 0 <= j < i + 1 implies #[trigger] raw_blocks(128, raws@)[j] == cidrs@[j]@ by {
                    if j < i {
                        assert(raw_blocks(128, old_raws)[j] == cidrs@[j]@);
                    }
                }
                assert forall|j: int| 0 <= j < raws@.len() implies #[trigger] raw_blocks(128, raws@)[j].wf() by {
                    if j < i {
                        assert(raw_blocks(128, old_raws)[j].wf());
                    }
                }
            }
            i = i + 1;
        }
        proof {
            assert(raw_blocks(128, raws@) =~= v6_blocks(cidrs@));
        }
        let merged = aggregate_raw(128, &raws);
        v6_from_raw_vec(&merged)
    }
}

} // verus!

verus! {

/// An address-family-agnostic inclusive range: either IPv4 or IPv6.
#[derive(Debug, Clone, Copy, PartialEq, Eq, Structural, Hash, PartialOrd, Ord)]
pub enum IpRange {
    /// An IPv4 range.
    V4(Ipv4Range),
    /// An IPv6 range.
    V6(Ipv6Range),
}

/// The spans of a sequence of family-agnostic ranges.
pub open spec fn ip_spans(s: Seq<IpRange>) -> Seq<(nat, nat)> {
    s.map_values(|r: IpRange| r.span())
}

impl IpRange {
    /// The `(first, last)` span of the range.
    pub open spec fn span(self) -> (nat, nat) {
        match self {
            IpRange::V4(r) => r@,
            IpRange::V6(r) => r@,
        }
    }

    /// The address width of the family.
    pub open spec fn width(self) -> nat {
        match self {
            IpRange::V4(_) => 32,
            IpRange::V6(_) => 128,
        }
    }

    /// Facts every range satisfies: its start does not exceed its end, which
    /// lies in the address space.
    pub fn well_formed(&self) -> (r: bool)
        ensures
            r,
            self.span().0 <= self.span().1 < pow2(self.width()),
    {
        match self {
            IpRange::V4(r) => {
                let _ = r.start();
            },
            IpRange::V6(r) => {
                let _ = r.start();
            },
        }
        true
    }

    /// Build a range from two endpoints of the same family: mixed families
    /// give [`ParseError::MixedFamilies`], `start > end` gives
    /// [`ParseError::StartAfterEnd`].
    pub fn new(start: IpAddr, end: IpAddr) -> (r: Result<IpRange, ParseError>)
        ensures
            start.width() != end.width() ==> r == Err::<IpRange, ParseError>(ParseError::MixedFamilies),
            start.width() == end.width() && start.value() > end.value() ==> r == Err::<
                IpRange,
                ParseError,
            >(ParseError::StartAfterEnd),
            start.width() == end.width() && start.value() <= end.value() ==> (r matches Ok(v)
                && v.width() == start.width() && v.span() == (start.value(), end.value())),
    {
        match (start, end) {
            (IpAddr::V4(s), IpAddr::V4(e)) => match Ipv4Range::new(s, e) {
                Ok(v) => Ok(IpRange::V4(v)),
                Err(e) => Err(e),
            },
            (IpAddr::V6(s), IpAddr::V6(e)) => match Ipv6Range::new(s, e) {
                Ok(v) => Ok(IpRange::V6(v)),
                Err(e) => Err(e),
            },
            _ => Err(ParseError::MixedFamilies),
        }
    }

    /// The first address in the range.
    pub fn start(&self) -> (r: IpAddr)
        ensures
            r.width() == self.width() && r.value() == self.span().0,
    {
        match self {
            IpRange::V4(r) => IpAddr::V4(r.start()),
            IpRange::V6(r) => IpAddr::V6(r.start()),
        }
    }

    /// The last address in the range.
    pub fn end(&self) -> (r: IpAddr)
        ensures
            r.width() == self.width() && r.value() == self.span().1,
    {
        match self {
            IpRange::V4(r) => IpAddr::V4(r.end()),
            IpRange::V6(r) => IpAddr::V6(r.end()),
        }
    }

    /// The number of addresses in the range, saturating to `u128::MAX`.
    pub fn count(&self) -> (r: u128)
        ensures
            self.span().1 - self.span().0 < u128::MAX ==> r == self.span().1 - self.span().0 + 1,
            self.span().1 - self.span().0 == u128::MAX ==> r == u128::MAX,
    {
        match self {
            IpRange::V4(r) => r.count(),
            IpRange::V6(r) => r.count(),
        }
    }

    /// The address at offset `index` from the start, or `None` past the end.
    pub fn nth_address(&self, index: u128) -> (r: Option<IpAddr>)
        ensures
            index <= self.span().1 - self.span().0 ==> (r matches Some(a) && a.width() == self.width()
                && a.value() == self.span().0 + index),
            index > self.span().1 - self.span().0 ==> r is None,
    {
        match self {
            IpRange::V4(r) => match r.nth_address(index) {
                Some(a) => Some(IpAddr::V4(a)),
                None => None,
            },
            IpRange::V6(r) => match r.nth_address(index) {
                Some(a) => Some(IpAddr::V6(a)),
                None => None,
            },
        }
    }

    /// Returns `true` if `addr` lies within the range; an address of the
    /// other family never does.
    pub fn contains(&self, addr: IpAddr) -> (r: bool)
        ensures
            r == (addr.width() == self.width() && self.span().0 <= addr.value() <= self.span().1),
    {
        match (self, addr) {
            (IpRange::V4(r), IpAddr::V4(a)) => r.contains(a),
            (IpRange::V6(r), IpAddr::V6(a)) => r.contains(a),
            _ => false,
        }
    }

    /// Returns `true` if the two ranges share an address; mismatched families
    /// never do.
    pub fn overlaps(&self, other: &IpRange) -> (r: bool)
        ensures
            r == (self.width() == other.width() && self.span().0 <= other.span().1 && other.span().0
                <= self.span().1),
    {
        match (self, other) {
            (IpRange::V4(a), IpRange::V4(b)) => a.overlaps(b),
            (IpRange::V6(a), IpRange::V6(b)) => a.overlaps(b),
            _ => false,
        }
    }

    /// Returns `true` if `other` is entirely within this range; mismatched
    /// families never are.
    pub fn contains_range(&self, other: &IpRange) -> (r: bool)
        ensures
            r == (self.width() == other.width() && self.span().0 <= other.span().0 && other.span().1
                <= self.span().1),
    {
        match (self, other) {
            (IpRange::V4(a), IpRange::V4(b)) => a.contains_range(b),
            (IpRange::V6(a), IpRange::V6(b)) => a.contains_range(b),
            _ => false,
        }
    }

    /// The overlap of the two ranges, or `None` when they are disjoint or of
    /// different families.
    pub fn intersection(&self, other: &IpRange) -> (r: Option<IpRange>)
        ensures
            self.width() != other.width() ==> r is None,
            self.width() == other.width() && span_meet(self.span(), other.span()) is None ==> r is None,
            self.width() == other.width() ==> (span_meet(self.span(), other.span()) matches Some(m) ==> (
            r matches Some(v) && v.span() == m && v.width() == self.width())),
    {
        match (self, other) {
            (IpRange::V4(a), IpRange::V4(b)) => match a.intersection(b) {
                Some(v) => Some(IpRange::V4(v)),
                None => None,
            },
            (IpRange::V6(a), IpRange::V6(b)) => match a.intersection(b) {
                Some(v) => Some(IpRange::V6(v)),
                None => None,
            },
            _ => None,
        }
    }

    /// Remove `other` from this range (up to two pieces); a mismatched
    /// family removes nothing.
    pub fn exclude(&self, other: &IpRange) -> (r: Vec<IpRange>)
        ensures
            self.width() != other.width() ==> r@ == seq![*self],
            self.width() == other.width() ==> ip_spans(r@) == span_minus(self.span(), other.span()),
            forall|i: int| 0 <= i < r@.len() ==> (#[trigger] r@[i]).width() == self.width(),
    {
        match (self, other) {
            (IpRange::V4(a), IpRange::V4(b)) => {
                let pieces = a.exclude(b);
                let mut out: Vec<IpRange> = Vec::new();
                let mut i: usize = 0;
                while i < pieces.len()
                    invariant
                        i <= pieces@.len(),
                        out@.len() == i,
                        forall|j: int| 0 <= j < i ==> #[trigger] out@[j] == IpRange::V4(pieces@[j]),
                    decreases pieces@.len() - i,
                {
                    out.push(IpRange::V4(pieces[i]));
                    i = i + 1;
                }
                proof {
                    assert(ip_spans(out@) =~= v4_spans(pieces@));
                }
                out
            },
            (IpRange::V6(a), IpRange::V6(b)) => {
                let pieces = a.exclude(b);
                let mut out: Vec<IpRange> = Vec::new();
                let mut i: usize = 0;
                while i < pieces.len()
                    invariant
                        i <= pieces@.len(),
                        out@.len() == i,
                        forall|j: int| 0 <= j < i ==> #[trigger] out@[j] == IpRange::V6(pieces@[j]),
                    decreases pieces@.len() - i,
                {
                    out.push(IpRange::V6(pieces[i]));
                    i = i + 1;
                }
                proof {
                    assert(ip_spans(out@) =~= v6_spans(pieces@));
                }
                out
            },
            _ => vec![*self],
        }
    }

    /// Iterate over every address in the range, lowest to highest.
    pub fn addresses(&self) -> (r: IpSetIter)
        ensures
            r.width() == self.width(),
            r.remaining() == interval(self.span().0 as int, self.span().1 as int),
    {
        match self {
            IpRange::V4(r) => IpSetIter::V4(r.iter()),
            IpRange::V6(r) => IpSetIter::V6(r.iter()),
        }
    }

    /// Decompose the range into the minimal set of aligned CIDR blocks that
    /// exactly cover it, preserving the address family.
    pub fn to_cidrs(&self) -> (r: Vec<IpCidr>)
        ensures
            decomposes(ip_blocks(r@), self.span().0, self.span().1),
            forall|i: int| 0 <= i < r@.len() ==> (#[trigger] r@[i] is V4 <==> self is V4),
    {
        match self {
            IpRange::V4(r) => {
                let v = r.to_cidrs();
                wrap_v4(&v)
            },
            IpRange::V6(r) => {
                let v = r.to_cidrs();
                wrap_v6(&v)
            },
        }
    }
}

} // verus!
