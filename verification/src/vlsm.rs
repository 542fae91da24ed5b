//! Variable-length subnet masking: carving sub-blocks for a list of host
//! counts out of an IPv4 block.
//!
//! Each request gets the smallest block that holds its host count. Requests
//! are placed largest first (ties in request order) from the bottom of the
//! parent, each directly after the ones placed before it; the result lists
//! them in request order.

use vstd::prelude::*;
use vstd::arithmetic::power2::{lemma2_to64, lemma_pow2_pos, lemma_pow2_strictly_increases, pow2};

use crate::block::{
    host_span, lemma_mod_pow2_weaken, lemma_pow2_divides, lemma_pow2_widths, lemma_sum_multiple, raw,
    Block,
};
use crate::cidr::Ipv4Cidr;

verus! {

// ---------------------------------------------------------------------------
// The plan
// ---------------------------------------------------------------------------

/// Usable hosts of an IPv4 block of prefix `p`: `/32` has 1, `/31` has 2,
/// every other block its size minus network and broadcast.
pub open spec fn host_capacity(p: nat) -> nat {
    if p >= 32 {
        1
    } else if p == 31 {
        2
    } else {
        (pow2((32 - p) as nat) - 2) as nat
    }
}

/// The longest prefix, at most `p`, whose block holds `need` hosts.
pub open spec fn fitting_prefix(need: nat, p: nat) -> Option<nat>
    decreases p,
{
    if host_capacity(p) >= need {
        Some(p)
    } else if p == 0 {
        None
    } else {
        fitting_prefix(need, (p - 1) as nat)
    }
}

/// The prefix of the smallest IPv4 block that holds `need` hosts.
pub open spec fn vlsm_prefix(need: nat) -> Option<nat> {
    fitting_prefix(need, 32)
}

/// The prefix of every request, if every request can be met by some block.
pub open spec fn plan(needs: Seq<u32>) -> Option<Seq<nat>>
    decreases needs.len(),
{
    if needs.len() == 0 {
        Some(Seq::empty())
    } else {
        match (plan(needs.drop_last()), vlsm_prefix(needs.last() as nat)) {
            (Some(ps), Some(p)) => Some(ps.push(p)),
            _ => None,
        }
    }
}

/// Number of addresses of an IPv4 block of prefix `p`.
pub open spec fn block_size(p: nat) -> nat {
    pow2((32 - p) as nat)
}

/// Request `j` is placed before request `i`: it is larger, or as large and
/// earlier in the list.
pub open spec fn placed_before(ps: Seq<nat>, j: int, i: int) -> bool {
    ps[j] < ps[i] || (ps[j] == ps[i] && j < i)
}

/// The total size of the requests among the first `n` that are placed
/// before request `i`.
pub open spec fn offset_of(ps: Seq<nat>, i: int, n: int) -> nat
    decreases n,
{
    if n <= 0 {
        0
    } else {
        offset_of(ps, i, n - 1) + if placed_before(ps, n - 1, i) {
            block_size(ps[n - 1])
        } else {
            0
        }
    }
}

/// The total size of the first `n` requests.
pub open spec fn total_size(ps: Seq<nat>, n: int) -> nat
    decreases n,
{
    if n <= 0 {
        0
    } else {
        total_size(ps, n - 1) + block_size(ps[n - 1])
    }
}

/// The requested blocks fit in `parent`: none is larger than it, and
/// together they are no larger than it.
pub open spec fn fits_in(ps: Seq<nat>, parent: Block) -> bool {
    &&& forall|i: int| 0 <= i < ps.len() ==> parent.prefix <= #[trigger] ps[i] <= 32
    &&& total_size(ps, ps.len() as int) <= parent.size()
}

/// The block allotted to request `i`.
pub open spec fn allocation(ps: Seq<nat>, parent: Block, i: int) -> Block {
    Block { width: 32, network: parent.network + offset_of(ps, i, ps.len() as int), prefix: ps[i] }
}

// ---------------------------------------------------------------------------
// Facts about the placement
// ---------------------------------------------------------------------------

/// A placement offset is aligned to the size of the request it places.
proof fn lemma_offset_aligned(ps: Seq<nat>, i: int, n: int)
    requires
        0 <= i < ps.len(),
        0 <= n <= ps.len(),
        forall|j: int| 0 <= j < ps.len() ==> #[trigger] ps[j] <= 32,
    ensures
        offset_of(ps, i, n) % block_size(ps[i]) == 0,
    decreases n,
{
    let s = block_size(ps[i]);
    lemma_pow2_pos((32 - ps[i]) as nat);
    if n == 0 {
        vstd::arithmetic::div_mod::lemma_mod_multiples_basic(0, s as int);
    } else {
        lemma_offset_aligned(ps, i, n - 1);
        let t = if placed_before(ps, n - 1, i) {
            block_size(ps[n - 1])
        } else {
            0
        };
        assert(ps[i] <= 32 && ps[n - 1] <= 32);
        if placed_before(ps, n - 1, i) {
            lemma_pow2_divides((32 - ps[i]) as nat, (32 - ps[n - 1]) as nat);
        } else {
            vstd::arithmetic::div_mod::lemma_mod_multiples_basic(0, s as int);
        }
        assert(t % s == 0);
        assert(offset_of(ps, i, n) == offset_of(ps, i, n - 1) + t);
        lemma_sum_multiple(offset_of(ps, i, n - 1) as int, t as int, s as int);
    }
}

/// A placement offset leaves room for the request it places.
proof fn lemma_offset_room(ps: Seq<nat>, i: int, n: int)
    requires
        0 <= i < ps.len(),
        0 <= n <= ps.len(),
    ensures
        offset_of(ps, i, n) + (if i < n {
            block_size(ps[i])
        } else {
            0
        }) <= total_size(ps, n),
    decreases n,
{
    if n > 0 {
        lemma_offset_room(ps, i, n - 1);
    }
}

/// A request placed before another ends where the other one may start.
proof fn lemma_offset_order(ps: Seq<nat>, i: int, j: int, n: int)
    requires
        0 <= i < ps.len(),
        0 <= j < ps.len(),
        i != j,
        placed_before(ps, i, j),
        0 <= n <= ps.len(),
    ensures
        offset_of(ps, j, n) >= offset_of(ps, i, n) + (if i < n {
            block_size(ps[i])
        } else {
            0
        }),
    decreases n,
{
    if n > 0 {
        lemma_offset_order(ps, i, j, n - 1);
    }
}

/// Totals grow with the number of requests counted.
proof fn lemma_total_grows(ps: Seq<nat>, m: int, n: int)
    requires
        0 <= m <= n <= ps.len(),
    ensures
        total_size(ps, m) <= total_size(ps, n),
    decreases n - m,
{
    if m < n {
        lemma_total_grows(ps, m, n - 1);
    }
}

/// Allocations of a plan that fits lie inside the parent and are well
/// formed, and no two of them share an address.
pub proof fn lemma_allocations_disjoint_inside(ps: Seq<nat>, parent: Block)
    requires
        parent.wf(),
        parent.width == 32,
        fits_in(ps, parent),
    ensures
        forall|i: int| 0 <= i < ps.len() ==> (#[trigger] allocation(ps, parent, i)).wf()
            && parent.contains_block(allocation(ps, parent, i)),
        forall|i: int, j: int|
            0 <= i < ps.len() && 0 <= j < ps.len() && i != j ==> !(#[trigger] allocation(
                ps,
                parent,
                i,
            )).overlaps(#[trigger] allocation(ps, parent, j)),
{
    let n = ps.len() as int;
    assert forall|i: int| 0 <= i < ps.len() implies (#[trigger] allocation(ps, parent, i)).wf()
        && parent.contains_block(allocation(ps, parent, i)) by {
        lemma_allocation_inside(ps, parent, i);
    }
    assert forall|i: int, j: int|
        0 <= i < ps.len() && 0 <= j < ps.len() && i != j implies !(#[trigger] allocation(
            ps,
            parent,
            i,
        )).overlaps(#[trigger] allocation(ps, parent, j)) by {
        lemma_pow2_pos((32 - ps[i]) as nat);
        lemma_pow2_pos((32 - ps[j]) as nat);
        if placed_before(ps, i, j) {
            lemma_offset_order(ps, i, j, n);
        } else {
            lemma_offset_order(ps, j, i, n);
        }
    }
}

/// One allocation of a plan that fits is a well-formed block inside the
/// parent.
proof fn lemma_allocation_inside(ps: Seq<nat>, parent: Block, i: int)
    requires
        parent.wf(),
        parent.width == 32,
        fits_in(ps, parent),
        0 <= i < ps.len(),
    ensures
        allocation(ps, parent, i).wf(),
        parent.contains_block(allocation(ps, parent, i)),
{
    let n = ps.len() as int;
    let b = allocation(ps, parent, i);
    assert(parent.prefix <= ps[i] <= 32);
    lemma_offset_room(ps, i, n);
    lemma_offset_aligned(ps, i, n);
    lemma_pow2_pos((32 - ps[i]) as nat);
    lemma_mod_pow2_weaken(parent.network as int, (32 - ps[i]) as nat, (32 - parent.prefix) as nat);
    lemma_sum_multiple(parent.network as int, offset_of(ps, i, n) as int, block_size(ps[i]) as int);
}

// ---------------------------------------------------------------------------
// Executable allocation
// ---------------------------------------------------------------------------

/// A plan that fails for a prefix of the requests fails for all of them.
proof fn lemma_plan_none_extends(needs: Seq<u32>, m: int, n: int)
    requires
        0 <= m <= n <= needs.len(),
        plan(needs.take(m)) is None,
    ensures
        plan(needs.take(n)) is None,
    decreases n - m,
{
    if m < n {
        assert(needs.take(m + 1).drop_last() =~= needs.take(m));
        lemma_plan_none_extends(needs, m + 1, n);
    }
}

/// The prefix of the smallest block that holds `need` hosts.
fn hosts_prefix(need: u32) -> (r: Option<u8>)
    ensures
        r matches Some(p) ==> vlsm_prefix(need as nat) == Some(p as nat) && p <= 32,
        r is None ==> vlsm_prefix(need as nat) is None,
{
    let mut p: u8 = 32;
    loop
        invariant
            p <= 32,
            fitting_prefix(need as nat, 32) == fitting_prefix(need as nat, p as nat),
        decreases p,
    {
        let cap: u128 = if p == 32 {
            1
        } else if p == 31 {
            2
        } else {
            proof {
                lemma2_to64();
                if p < 30 {
                    lemma_pow2_strictly_increases(2, (32 - p) as nat);
                }
            }
            host_span(32, p) - 1
        };
        if cap >= need as u128 {
            return Some(p);
        }
        if p == 0 {
            return None;
        }
        p = p - 1;
    }
}

/// Prefix lengths as natural numbers.
pub open spec fn prefix_nats(ps: Seq<u8>) -> Seq<nat> {
    ps.map_values(|p: u8| p as nat)
}

impl Ipv4Cidr {
    /// Allocate one sub-block per host count: each is the smallest block
    /// holding that many hosts, placed largest first (ties in request order)
    /// from the bottom of this block. The result is in request order; `None`
    /// when some count fits no block no larger than this one, or when the
    /// blocks together are larger than this one.
    pub fn vlsm_allocate(&self, host_needs: &[u32]) -> (r: Option<Vec<Ipv4Cidr>>)
        ensures
            match r {
                Some(v) => plan(host_needs@) matches Some(ps) && fits_in(ps, self@) && v@.len()
                    == ps.len() && forall|i: int|
                    0 <= i < v@.len() ==> (#[trigger] v@[i])@ == allocation(ps, self@, i),
                None => !(plan(host_needs@) matches Some(ps) && fits_in(ps, self@)),
            },
    {
        let (base, parent_prefix) = self.to_raw();
        let n = host_needs.len();
        let mut ps: Vec<u8> = Vec::new();
        let mut i: usize = 0;
        proof {
            assert(host_needs@.take(0) =~= Seq::<u32>::empty());
            assert(prefix_nats(ps@) =~= Seq::<nat>::empty());
        }
        while i < n
            invariant
                i <= n == host_needs@.len(),
                ps@.len() == i,
                plan(host_needs@.take(i as int)) == Some(prefix_nats(ps@)),
                forall|j: int| 0 <= j < ps@.len() ==> #[trigger] ps@[j] <= 32,
            decreases n - i,
        {
            proof {
                assert(host_needs@.take(i + 1).drop_last() =~= host_needs@.take(i as int));
                assert(host_needs@.take(i + 1).last() == host_needs@[i as int]);
            }
            match hosts_prefix(host_needs[i]) {
                Some(p) => {
                    let ghost before = ps@;
                    ps.push(p);
                    proof {
                        assert(prefix_nats(ps@) =~= prefix_nats(before).push(p as nat));
                    }
                },
                None => {
                    proof {
                        lemma_plan_none_extends(host_needs@, i + 1, n as int);
                        assert(host_needs@.take(n as int) =~= host_needs@);
                    }
                    return None;
                },
            }
            i = i + 1;
        }
        proof {
            assert(host_needs@.take(n as int) =~= host_needs@);
        }
        let ghost pn = prefix_nats(ps@);
        proof {
            lemma_pow2_widths();
            lemma_pow2_divides((32 - parent_prefix) as nat, 32);
        }
        let parent_size: u128 = host_span(32, parent_prefix) + 1;
        let mut total: u128 = 0;
        let mut k: usize = 0;
        while k < n
            invariant
                k <= n == ps@.len(),
                pn == prefix_nats(ps@),
                raw(32, (base, parent_prefix)) == self@,
                plan(host_needs@) == Some(pn),
                pow2(32) == 0x1_0000_0000,
                parent_size == self@.size(),
                parent_size <= 0x1_0000_0000,
                forall|j: int| 0 <= j < ps@.len() ==> #[trigger] ps@[j] <= 32,
                forall|j: int| 0 <= j < k ==> parent_prefix <= #[trigger] pn[j],
                total == total_size(pn, k as int),
                total <= parent_size,
            decreases n - k,
        {
            if ps[k] < parent_prefix {
                proof {
                    assert(pn[k as int] == ps@[k as int] as nat);
                    assert(!fits_in(pn, self@));
                }
                return None;
            }
            proof {
                lemma_pow2_divides((32 - ps@[k as int]) as nat, 32);
            }
            let sz = host_span(32, ps[k]) + 1;
            if total + sz > parent_size {
                proof {
                    lemma_total_grows(pn, k + 1, n as int);
                    assert(!fits_in(pn, self@));
                }
                return None;
            }
            total = total + sz;
            k = k + 1;
        }
        proof {
            assert(fits_in(pn, self@));
        }
        let mut out: Vec<Ipv4Cidr> = Vec::new();
        let mut i: usize = 0;
        while i < n
            invariant
                i <= n == ps@.len(),
                pn == prefix_nats(ps@),
                raw(32, (base, parent_prefix)) == self@,
                self@.wf(),
                self@.size() <= 0x1_0000_0000,
                pow2(32) == 0x1_0000_0000,
                fits_in(pn, self@),
                forall|j: int| 0 <= j < ps@.len() ==> #[trigger] ps@[j] <= 32,
                out@.len() == i,
                forall|j: int| 0 <= j < i ==> (#[trigger] out@[j])@ == allocation(pn, self@, j),
            decreases n - i,
        {
            let mut off: u128 = 0;
            let mut j: usize = 0;
            while j < n
                invariant
                    i < n == ps@.len(),
                    j <= n,
                    pn == prefix_nats(ps@),
                    fits_in(pn, self@),
                    forall|q: int| 0 <= q < ps@.len() ==> #[trigger] ps@[q] <= 32,
                    off == offset_of(pn, i as int, j as int),
                    self@.size() <= 0x1_0000_0000,
                    pow2(32) == 0x1_0000_0000,
                decreases n - j,
            {
                proof {
                    lemma_offset_room(pn, i as int, (j + 1) as int);
                    lemma_total_grows(pn, (j + 1) as int, n as int);
                    lemma_pow2_divides((32 - ps@[j as int]) as nat, 32);
                }
                if ps[j] < ps[i] || (ps[j] == ps[i] && j < i) {
                    off = off + host_span(32, ps[j]) + 1;
                }
                j = j + 1;
            }
            proof {
                lemma_allocation_inside(pn, self@, i as int);
                lemma_offset_room(pn, i as int, n as int);
            }
            out.push(Ipv4Cidr::from_raw(base + off, ps[i]));
            i = i + 1;
        }
        Some(out)
    }
}

} // verus!
