//! [`IpSet`]: a single target parsed from a string, be it a CIDR block, an
//! address range, or a lone address.

use vstd::prelude::*;

use crate::addr::IpAddr;
use crate::block::{Block, lemma_wf_facts};
use crate::cidr::{
    interval, ip_blocks, lemma_ipcidr_width, v4_blocks, v6_blocks, wrap_v4, wrap_v6, IpCidr,
    Ipv4AddrIter, Ipv4Cidr, Ipv6AddrIter, Ipv6Cidr,
};
use crate::range::{aggregates, decomposes, span_meet, IpRange};

verus! {

/// Iterator over the addresses of a target, yielding [`IpAddr`].
#[derive(Debug, Clone)]
pub enum IpSetIter {
    /// IPv4 address iteration.
    V4(Ipv4AddrIter),
    /// IPv6 address iteration.
    V6(Ipv6AddrIter),
}

impl IpSetIter {
    /// The addresses not yet yielded, lowest first.
    pub open spec fn remaining(self) -> Seq<int> {
        match self {
            IpSetIter::V4(it) => it@,
            IpSetIter::V6(it) => it@,
        }
    }

    /// The family width of the yielded addresses.
    pub open spec fn width(self) -> nat {
        match self {
            IpSetIter::V4(_) => 32,
            IpSetIter::V6(_) => 128,
        }
    }

    /// The next address from the low end.
    pub fn next(&mut self) -> (r: Option<IpAddr>)
        ensures
            final(self).width() == old(self).width(),
            old(self).remaining().len() == 0 ==> r is None && final(self).remaining() == old(
                self,
            ).remaining(),
            old(self).remaining().len() > 0 ==> (r matches Some(a) && a.value() == old(
                self,
            ).remaining()[0] && a.width() == old(self).width() && final(self).remaining() == old(
                self,
            ).remaining().drop_first()),
    {
        match self {
            IpSetIter::V4(it) => match it.next() {
                Some(a) => Some(IpAddr::V4(a)),
                None => None,
            },
            IpSetIter::V6(it) => match it.next() {
                Some(a) => Some(IpAddr::V6(a)),
                None => None,
            },
        }
    }

    /// The next address from the high end.
    pub fn next_back(&mut self) -> (r: Option<IpAddr>)
        ensures
            final(self).width() == old(self).width(),
            old(self).remaining().len() == 0 ==> r is None && final(self).remaining() == old(
                self,
            ).remaining(),
            old(self).remaining().len() > 0 ==> (r matches Some(a) && a.value() == old(
                self,
            ).remaining().last() && a.width() == old(self).width() && final(self).remaining()
                == old(self).remaining().drop_last()),
    {
        match self {
            IpSetIter::V4(it) => match it.next_back() {
                Some(a) => Some(IpAddr::V4(a)),
                None => None,
            },
            IpSetIter::V6(it) => match it.next_back() {
                Some(a) => Some(IpAddr::V6(a)),
                None => None,
            },
        }
    }

    /// Bounds on the number of addresses left.
    pub fn size_hint(&self) -> (r: (usize, Option<usize>))
        ensures
            self.remaining().len() <= usize::MAX ==> r == (self.remaining().len() as usize, Some(
                self.remaining().len() as usize,
            )),
            self.remaining().len() > usize::MAX ==> r == (usize::MAX, None::<usize>),
    {
        match self {
            IpSetIter::V4(it) => it.size_hint(),
            IpSetIter::V6(it) => it.size_hint(),
        }
    }
}

} // verus!

verus! {

/// A contiguous set of addresses described by one target string: a CIDR
/// block (a bare address is a single-address block) or an address range.
#[derive(Debug, Clone, Copy, PartialEq, Eq, Structural, Hash)]
pub enum IpSet {
    /// A CIDR block.
    Cidr(IpCidr),
    /// An inclusive address range.
    Range(IpRange),
}

impl IpSet {
    /// The address width of the family.
    pub open spec fn width(self) -> nat {
        match self {
            IpSet::Cidr(c) => c@.width,
            IpSet::Range(r) => r.width(),
        }
    }

    /// The `(first, last)` addresses of the target.
    pub open spec fn span(self) -> (nat, nat) {
        match self {
            IpSet::Cidr(c) => (c@.network, c@.last() as nat),
            IpSet::Range(r) => r.span(),
        }
    }

    /// Facts every target satisfies.
    pub fn well_formed(&self) -> (r: bool)
        ensures
            r,
            self.span().0 <= self.span().1,
            self.width() == 32 || self.width() == 128,
            self.span().1 < vstd::arithmetic::power2::pow2(self.width()),
            self matches IpSet::Cidr(c) ==> c@.wf() && c@.last() == self.span().1,
    {
        match self {
            IpSet::Cidr(c) => {
                c.well_formed();
                proof {
                    lemma_wf_facts(c@);
                }
            },
            IpSet::Range(r) => {
                r.well_formed();
            },
        }
        true
    }

    /// The number of addresses described by this target (saturating to
    /// `u128::MAX` for the whole IPv6 space).
    pub fn count(&self) -> (r: u128)
        ensures
            self.span().1 - self.span().0 < u128::MAX ==> r == self.span().1 - self.span().0 + 1,
            self.span().1 - self.span().0 >= u128::MAX ==> r == u128::MAX,
    {
        self.well_formed();
        proof {
            crate::block::lemma_pow2_widths();
            vstd::arithmetic::power2::lemma_pow2_strictly_increases(32, 128);
        }
        match self {
            IpSet::Cidr(c) => {
                c.well_formed();
                proof {
                    lemma_wf_facts(c@);
                    assert(self.span().1 - self.span().0 == c@.size() - 1);
                }
                c.address_count()
            },
            IpSet::Range(r) => r.count(),
        }
    }

    /// `true` if the target describes exactly one address.
    pub fn is_single(&self) -> (r: bool)
        ensures
            r == (self.span().0 == self.span().1),
    {
        self.well_formed();
        self.count() == 1
    }

    /// `true` if the target was written as a CIDR block (or a bare address).
    pub fn is_cidr(&self) -> (r: bool)
        ensures
            r == (self is Cidr),
    {
        matches!(self, IpSet::Cidr(_))
    }

    /// `true` if the target was written as an address range.
    pub fn is_range(&self) -> (r: bool)
        ensures
            r == (self is Range),
    {
        matches!(self, IpSet::Range(_))
    }

    /// `true` if the target is a single-address block (`/32` or `/128`).
    pub fn is_address(&self) -> (r: bool)
        ensures
            r == (self matches IpSet::Cidr(c) && c@.prefix == c@.width),
    {
        match self {
            IpSet::Cidr(c) => c.is_host(),
            IpSet::Range(_) => false,
        }
    }

    /// The underlying block, or `None` if the target is a range.
    pub fn as_cidr(&self) -> (r: Option<IpCidr>)
        ensures
            r == (match self {
                IpSet::Cidr(c) => Some(*c),
                IpSet::Range(_) => None::<IpCidr>,
            }),
    {
        match self {
            IpSet::Cidr(c) => Some(*c),
            IpSet::Range(_) => None,
        }
    }

    /// The underlying range, or `None` if the target is a block.
    pub fn as_range(&self) -> (r: Option<IpRange>)
        ensures
            r == (match self {
                IpSet::Range(v) => Some(*v),
                IpSet::Cidr(_) => None::<IpRange>,
            }),
    {
        match self {
            IpSet::Range(v) => Some(*v),
            IpSet::Cidr(_) => None,
        }
    }

    /// The lowest address in the target.
    pub fn first(&self) -> (r: IpAddr)
        ensures
            r.width() == self.width() && r.value() == self.span().0,
    {
        match self {
            IpSet::Cidr(c) => c.network(),
            IpSet::Range(r) => r.start(),
        }
    }

    /// The highest address in the target.
    pub fn last(&self) -> (r: IpAddr)
        ensures
            r.width() == self.width() && r.value() == self.span().1,
    {
        match self {
            IpSet::Cidr(c) => c.last_address(),
            IpSet::Range(r) => r.end(),
        }
    }

    /// Returns `true` if `addr` belongs to this target.
    pub fn contains(&self, addr: IpAddr) -> (r: bool)
        ensures
            r == (addr.width() == self.width() && self.span().0 <= addr.value() <= self.span().1),
    {
        self.well_formed();
        match self {
            IpSet::Cidr(c) => c.contains(addr),
            IpSet::Range(r) => r.contains(addr),
        }
    }

    /// Returns `true` if every address of `other` belongs to this target.
    pub fn contains_set(&self, other: &IpSet) -> (r: bool)
        ensures
            r == (self.width() == other.width() && self.span().0 <= other.span().0 && other.span().1
                <= self.span().1),
    {
        self.well_formed();
        other.well_formed();
        let (a, b) = (self.first(), self.last());
        let (c, d) = (other.first(), other.last());
        match (a, b, c, d) {
            (IpAddr::V4(a), IpAddr::V4(b), IpAddr::V4(c), IpAddr::V4(d)) => a.to_bits() <= c.to_bits()
                && d.to_bits() <= b.to_bits(),
            (IpAddr::V6(a), IpAddr::V6(b), IpAddr::V6(c), IpAddr::V6(d)) => a.to_bits() <= c.to_bits()
                && d.to_bits() <= b.to_bits(),
            _ => false,
        }
    }

    /// Returns `true` if the two targets share an address.
    pub fn overlaps(&self, other: &IpSet) -> (r: bool)
        ensures
            r == (self.width() == other.width() && self.span().0 <= other.span().1 && other.span().0
                <= self.span().1),
    {
        self.well_formed();
        other.well_formed();
        let (a, b) = (self.first(), self.last());
        let (c, d) = (other.first(), other.last());
        match (a, b, c, d) {
            (IpAddr::V4(a), IpAddr::V4(b), IpAddr::V4(c), IpAddr::V4(d)) => a.to_bits() <= d.to_bits()
                && c.to_bits() <= b.to_bits(),
            (IpAddr::V6(a), IpAddr::V6(b), IpAddr::V6(c), IpAddr::V6(d)) => a.to_bits() <= d.to_bits()
                && c.to_bits() <= b.to_bits(),
            _ => false,
        }
    }

    /// The overlap of two targets, always returned as a range (it rarely
    /// lands on a block boundary), or `None` when they are disjoint or of
    /// different families.
    pub fn intersection(&self, other: &IpSet) -> (r: Option<IpSet>)
        ensures
            self.width() != other.width() ==> r is None,
            self.width() == other.width() && span_meet(self.span(), other.span()) is None ==> r is None,
            self.width() == other.width() ==> (span_meet(self.span(), other.span()) matches Some(m) ==> (
            r matches Some(v) && v is Range && v.span() == m && v.width() == self.width())),
    {
        self.well_formed();
        other.well_formed();
        let a = self.to_range();
        let b = other.to_range();
        match a.intersection(&b) {
            Some(v) => Some(IpSet::Range(v)),
            None => None,
        }
    }

    /// The target as a range with the same addresses.
    fn to_range(&self) -> (r: IpRange)
        ensures
            r.width() == self.width(),
            r.span() == self.span(),
    {
        self.well_formed();
        match IpRange::new(self.first(), self.last()) {
            Ok(v) => v,
            Err(_) => {
                proof {
                    assert(false);
                }
                IpRange::new(self.first(), self.first()).unwrap()
            },
        }
    }

    /// The address at offset `index` from the first address, or `None` past
    /// the end.
    pub fn nth_address(&self, index: u128) -> (r: Option<IpAddr>)
        ensures
            index <= self.span().1 - self.span().0 ==> (r matches Some(a) && a.width() == self.width()
                && a.value() == self.span().0 + index),
            index > self.span().1 - self.span().0 ==> r is None,
    {
        self.well_formed();
        match self {
            IpSet::Cidr(c) => {
                proof {
                    lemma_wf_facts(c@);
                }
                c.nth_address(index)
            },
            IpSet::Range(r) => r.nth_address(index),
        }
    }

    /// The target as aligned CIDR blocks: a block yields itself, a range its
    /// minimal decomposition.
    pub fn to_cidrs(&self) -> (r: Vec<IpCidr>)
        ensures
            decomposes(ip_blocks(r@), self.span().0, self.span().1),
            forall|i: int| 0 <= i < r@.len() ==> (#[trigger] r@[i])@.width == self.width(),
            self matches IpSet::Cidr(c) ==> r@ == seq![*c],
    {
        match self {
            IpSet::Cidr(c) => {
                c.well_formed();
                let r = vec![*c];
                proof {
                    crate::range::lemma_single_block_decomposes(c@);
                    assert(ip_blocks(r@) =~= seq![c@]);
                }
                r
            },
            IpSet::Range(v) => {
                let r = v.to_cidrs();
                proof {
                    assert forall|i: int| 0 <= i < r@.len() implies (#[trigger] r@[i])@.width == self.width() by {
                        crate::cidr::lemma_ipcidr_width(r@[i]);
                    }
                }
                r
            },
        }
    }

    /// Iterate over every address in the target, lowest to highest.
    pub fn addresses(&self) -> (r: IpSetIter)
        ensures
            r.width() == self.width(),
            r.remaining() == interval(self.span().0 as int, self.span().1 as int),
    {
        self.well_formed();
        match self {
            IpSet::Cidr(c) => c.addresses(),
            IpSet::Range(r) => r.addresses(),
        }
    }

    /// Iterate over the host addresses: as [`addresses`](Self::addresses),
    /// except that IPv4 blocks of `/30` and shorter skip the network and
    /// broadcast addresses.
    pub fn hosts(&self) -> (r: IpSetIter)
        ensures
            r.width() == self.width(),
            (self matches IpSet::Cidr(c) && c@.width == 32 && c@.prefix <= 30) ==> r.remaining()
                == interval(self.span().0 + 1int, self.span().1 - 1),
            !(self matches IpSet::Cidr(c) && c@.width == 32 && c@.prefix <= 30) ==> r.remaining()
                == interval(self.span().0 as int, self.span().1 as int),
    {
        self.well_formed();
        match self {
            IpSet::Cidr(c) => c.hosts(),
            IpSet::Range(r) => r.addresses(),
        }
    }
}

} // verus!

verus! {

/// The views of the blocks of one family, in input order.
pub open spec fn family_blocks(s: Seq<IpCidr>, width: nat) -> Seq<Block>
    decreases s.len(),
{
    if s.len() == 0 {
        Seq::empty()
    } else {
        let rest = family_blocks(s.drop_last(), width);
        if s.last()@.width == width {
            rest.push(s.last()@)
        } else {
            rest
        }
    }
}

/// `r` lists the IPv4 blocks first, then the IPv6 blocks, split at `k`.
pub open spec fn split_by_family(r: Seq<IpCidr>, k: int) -> bool {
    &&& 0 <= k <= r.len()
    &&& forall|i: int| 0 <= i < k ==> #[trigger] r[i] is V4
    &&& forall|i: int| k <= i < r.len() ==> #[trigger] r[i] is V6
}

/// Collapse a mixed list of IPv4 and IPv6 blocks into the minimal
/// equivalent set, aggregating each family independently. IPv4 blocks come
/// before IPv6 blocks, each group sorted and non-overlapping.
pub fn aggregate(cidrs: &[IpCidr]) -> (r: Vec<IpCidr>)
    ensures
        exists|k: int|
            split_by_family(r@, k) && aggregates(ip_blocks(r@.take(k)), family_blocks(cidrs@, 32))
                && aggregates(ip_blocks(r@.skip(k)), family_blocks(cidrs@, 128)),
{
    let mut v4: Vec<Ipv4Cidr> = Vec::new();
    let mut v6: Vec<Ipv6Cidr> = Vec::new();
    let mut i: usize = 0;
    while i < cidrs.len()
        invariant
            i <= cidrs@.len(),
            v4_blocks(v4@) == family_blocks(cidrs@.take(i as int), 32),
            v6_blocks(v6@) == family_blocks(cidrs@.take(i as int), 128),
        decreases cidrs@.len() - i,
    {
        let ghost t = cidrs@.take(i as int + 1);
        proof {
            assert(t.drop_last() =~= cidrs@.take(i as int));
            assert(t.last() == cidrs@[i as int]);
            lemma_ipcidr_width(cidrs@[i as int]);
        }
        match &cidrs[i] {
            IpCidr::V4(c) => {
                v4.push(*c);
                proof {
                    assert(v4_blocks(v4@) =~= family_blocks(t, 32));
                    assert(v6_blocks(v6@) =~= family_blocks(t, 128));
                }
            },
            IpCidr::V6(c) => {
                v6.push(*c);
                proof {
                    assert(v4_blocks(v4@) =~= family_blocks(t, 32));
                    assert(v6_blocks(v6@) =~= family_blocks(t, 128));
                }
            },
        }
        i = i + 1;
    }
    proof {
        assert(cidrs@.take(cidrs@.len() as int) =~= cidrs@);
    }
    let a4 = Ipv4Cidr::aggregate(v4.as_slice());
    let a6 = Ipv6Cidr::aggregate(v6.as_slice());
    let mut out = wrap_v4(&a4);
    let mut tail = wrap_v6(&a6);
    let ghost o4 = out@;
    let ghost o6 = tail@;
    out.append(&mut tail);
    proof {
        let k = o4.len() as int;
        assert(out@.take(k) =~= o4);
        assert(out@.skip(k) =~= o6);
        assert(split_by_family(out@, k));
    }
    out
}

} // verus!
