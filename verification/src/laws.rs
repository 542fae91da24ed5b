//! Properties that relate several operations of the library, each proved
//! over the specifications that the operations' contracts use.

use vstd::prelude::*;
use vstd::arithmetic::power2::{lemma_pow2_adds, lemma_pow2_pos, pow2};
use vstd::relations::injective_on;
use vstd::set_lib::{lemma_int_range, lemma_len_subset, lemma_map_size, set_int_range};

use crate::block::{
    all_wf, block_of, covered_run, covers, fits, lemma_ascending_disjoint, lemma_halves,
    lemma_mod_pow2_weaken, lemma_nested_or_disjoint, lemma_pow2_divides, lemma_round_down_in_block,
    lemma_wf_facts, maximal_in, maximal_within, Block,
};
use crate::cidr::{interval, mask_value, sub_blocks};
use crate::range::{aggregates, decomposes, span_meet, span_minus};
use crate::read::{lemma_mask_value_injective, mask_prefix};

verus! {

/// Masking off host bits is canonical: every address of a block, taken
/// with the block's prefix length, gives that same block.
pub proof fn lemma_block_of_member(b: Block, x: int)
    requires
        b.wf(),
        b.contains(x),
    ensures
        block_of(b.width, x as nat, b.prefix) == b,
{
    lemma_wf_facts(b);
    lemma_round_down_in_block(b.network as int, x, b.size() as int);
}

/// Aggregating blocks that together hold exactly the addresses of one block
/// gives that block alone.
pub proof fn lemma_aggregate_of_one_block(s: Seq<Block>, input: Seq<Block>, a: Block)
    requires
        a.wf(),
        aggregates(s, input),
        forall|i: int| 0 <= i < s.len() ==> (#[trigger] s[i]).width == a.width,
        forall|x: int| covers(input, x) <==> a.contains(x),
    ensures
        s == seq![a],
{
    lemma_wf_facts(a);
    assert(a.contains(a.network as int));
    assert(covers(input, a.network as int));
    assert(covers(s, a.network as int));
    let j = choose|j: int| 0 <= j < s.len() && #[trigger] s[j].contains(a.network as int);
    // Every block of the result lies inside `a`.
    assert forall|i: int| 0 <= i < s.len() implies a.contains_block(#[trigger] s[i]) by {
        assert(s[i].wf());
        lemma_wf_facts(s[i]);
        assert(s[i].contains(s[i].network as int));
        assert(covers(s, s[i].network as int));
        assert(s[i].contains(s[i].last()));
        assert(covers(s, s[i].last()));
    }
    assert(s[j].network == a.network) by {
        assert(a.contains_block(s[j]));
    }
    if j > 0 {
        assert(s[0].last() < s[j].network);
        assert(a.contains_block(s[0]));
        assert(s[0].wf());
        lemma_wf_facts(s[0]);
    }
    assert(j == 0);
    let b = s[0];
    assert(b.wf());
    lemma_wf_facts(b);
    assert(a.contains_block(b));
    if b.prefix < a.prefix {
        vstd::arithmetic::power2::lemma_pow2_strictly_increases(
            (a.width - a.prefix) as nat,
            (b.width - b.prefix) as nat,
        );
    }
    if b.prefix > a.prefix {
        let k = (b.width - b.prefix + 1) as nat;
        let twice = pow2(k) as int;
        lemma_pow2_divides(k, (a.width - a.prefix) as nat);
        lemma_mod_pow2_weaken(a.network as int, k, (a.width - a.prefix) as nat);
        assert(covered_run(input, b.network as int, b.network + twice - 1)) by {
            assert forall|x: int| b.network <= x <= b.network + twice - 1 implies covers(input, x) by {
                assert(a.contains(x));
            }
        }
        assert(!maximal_in(b, input));
        assert(maximal_in(s[0], input));
    }
    assert(b == a);
    if s.len() > 1 {
        assert(s[0].last() < s[1].network);
        assert(a.contains_block(s[1]));
        assert(s[1].wf());
        lemma_wf_facts(s[1]);
        assert(false);
    }
    assert(s.len() == 1);
    assert(s[0] == a);
    assert(s =~= seq![a]);
}

/// Removing a sub-block from a block and aggregating the pieces together
/// with the removed block gives back the block it started from.
pub proof fn lemma_exclude_then_aggregate(
    a: Block,
    h: Block,
    pieces: Seq<Block>,
    merged: Seq<Block>,
)
    requires
        a.wf(),
        h.wf(),
        a.width == h.width,
        a.contains_block(h),
        forall|x: int| covers(pieces, x) <==> (a.contains(x) && !h.contains(x)),
        aggregates(merged, pieces.push(h)),
        forall|i: int| 0 <= i < merged.len() ==> (#[trigger] merged[i]).width == a.width,
    ensures
        merged == seq![a],
{
    let all = pieces.push(h);
    assert forall|x: int| covers(all, x) <==> a.contains(x) by {
        if covers(all, x) {
            let i = choose|i: int| 0 <= i < all.len() && #[trigger] all[i].contains(x);
            if i < pieces.len() {
                assert(pieces[i] == all[i]);
                assert(covers(pieces, x));
            }
        }
        if a.contains(x) {
            if h.contains(x) {
                assert(all[pieces.len() as int] == h);
            } else {
                assert(covers(pieces, x));
                let i = choose|i: int| 0 <= i < pieces.len() && #[trigger] pieces[i].contains(x);
                assert(all[i] == pieces[i]);
            }
        }
    }
    lemma_aggregate_of_one_block(merged, all, a);
}

/// Reading a network mask back gives the prefix length it was made from.
pub proof fn lemma_mask_round_trip(width: nat, p: nat)
    requires
        width == 32 || width == 128,
        p <= width,
    ensures
        mask_prefix(width, mask_value(width, p)) == Some(p),
{
    let m = mask_value(width, p);
    assert(p <= width && mask_value(width, p) == m);
    let q = choose|q: nat| q <= width && #[trigger] mask_value(width, q) == m;
    lemma_mask_value_injective(width, p, q);
}

/// The wildcard mask is the complement of the network mask: together they
/// add up to the all-ones address.
pub proof fn lemma_wildcard_complements_mask(b: Block)
    requires
        b.wf(),
    ensures
        mask_value(b.width, b.prefix) + (b.size() - 1) == pow2(b.width) - 1,
{
    lemma_pow2_divides((b.width - b.prefix) as nat, b.width);
}

/// Splitting a block gives two disjoint halves of half the size that
/// together hold exactly the block's addresses.
pub proof fn lemma_split_partitions(b: Block)
    requires
        b.wf(),
        b.prefix < b.width,
    ensures
        b.lower_half().wf() && b.upper_half().wf(),
        !b.lower_half().overlaps(b.upper_half()),
        b.lower_half().size() + b.upper_half().size() == b.size(),
        forall|x: int| b.contains(x) <==> (b.lower_half().contains(x) || b.upper_half().contains(x)),
{
    lemma_halves(b);
}

/// The sub-blocks of a block at a longer prefix: as many as the prefix
/// difference allows, each inside the block, in ascending order, and
/// together holding every address of the block.
pub proof fn lemma_subnets_partition(b: Block, p: nat)
    requires
        b.wf(),
        b.prefix <= p <= b.width,
    ensures
        sub_blocks(b, p).len() == pow2((p - b.prefix) as nat),
        forall|i: int|
            0 <= i < sub_blocks(b, p).len() ==> (#[trigger] sub_blocks(b, p)[i]).wf()
                && b.contains_block(sub_blocks(b, p)[i]),
        forall|i: int, j: int|
            0 <= i < j < sub_blocks(b, p).len() ==> #[trigger] sub_blocks(b, p)[i].last()
                < #[trigger] sub_blocks(b, p)[j].network,
        forall|x: int| b.contains(x) <==> covers(sub_blocks(b, p), x),
{
    let s = sub_blocks(b, p);
    let step = pow2((b.width - p) as nat);
    let count = pow2((p - b.prefix) as nat);
    lemma_wf_facts(b);
    lemma_pow2_pos((b.width - p) as nat);
    lemma_pow2_pos((p - b.prefix) as nat);
    lemma_pow2_adds((b.width - p) as nat, (p - b.prefix) as nat);
    assert(b.size() == step * count);
    lemma_mod_pow2_weaken(b.network as int, (b.width - p) as nat, (b.width - b.prefix) as nat);
    assert forall|i: int| 0 <= i < s.len() implies (#[trigger] s[i]).wf() && b.contains_block(s[i]) by {
        assert((i + 1) * step <= count * step) by (nonlinear_arith)
            requires
                i + 1 <= count,
                step > 0,
        ;
        assert((i + 1) * step == i * step + step) by (nonlinear_arith);
        assert(i * step >= 0) by (nonlinear_arith)
            requires
                i >= 0,
                step > 0,
        ;
        vstd::arithmetic::div_mod::lemma_mod_multiples_basic(i, step as int);
        crate::block::lemma_sum_multiple(b.network as int, i * step, step as int);
        assert(s[i].size() == step);
    }
    assert forall|i: int, j: int| 0 <= i < j < s.len() implies #[trigger] s[i].last() < #[trigger] s[j].network by {
        assert((i + 1) * step <= j * step) by (nonlinear_arith)
            requires
                i + 1 <= j,
                step > 0,
        ;
        assert((i + 1) * step == i * step + step) by (nonlinear_arith);
    }
    assert forall|x: int| b.contains(x) <==> covers(s, x) by {
        if b.contains(x) {
            let d = x - b.network;
            let st = step as int;
            let i = d / st;
            vstd::arithmetic::div_mod::lemma_fundamental_div_mod(d, st);
            vstd::arithmetic::div_mod::lemma_mod_bound(d, st);
            let r = d % st;
            assert(0 <= i < count) by (nonlinear_arith)
                requires
                    d == st * i + r,
                    0 <= d < st * count,
                    0 <= r < st,
                    st > 0,
            ;
            assert(i * st == st * i) by (nonlinear_arith);
            assert(s[i].contains(x));
        }
        if covers(s, x) {
            let i = choose|i: int| 0 <= i < s.len() && #[trigger] s[i].contains(x);
            assert(s[i].wf() && b.contains_block(s[i]));
        }
    }
}

/// Indexing a block agrees with walking it: the address at offset `i` is
/// the `i`-th address its iterator yields.
pub proof fn lemma_nth_matches_iteration(b: Block, i: int)
    requires
        b.wf(),
        0 <= i < b.size(),
    ensures
        interval(b.network as int, b.last()).len() == b.size(),
        interval(b.network as int, b.last())[i] == b.network + i,
{
    lemma_wf_facts(b);
}

/// Taking one address from each end of a walk leaves exactly the addresses
/// strictly between them: front and back never repeat or skip an address.
pub proof fn lemma_front_back_meet(first: int, last: int)
    requires
        first < last,
    ensures
        interval(first, last)[0] == first,
        interval(first, last).last() == last,
        interval(first, last).drop_first().drop_last() == interval(first + 1, last - 1),
{
    assert(interval(first, last).drop_first().drop_last() =~= interval(first + 1, last - 1));
}

/// The overlap of two ranges does not depend on their order.
pub proof fn lemma_meet_symmetric(a: (nat, nat), b: (nat, nat))
    ensures
        span_meet(a, b) == span_meet(b, a),
{
}

/// Removing a range and intersecting with it split a range in two: every
/// address of the range lies in exactly one of the pieces left by removal
/// or in the overlap.
pub proof fn lemma_exclude_and_meet_partition(a: (nat, nat), b: (nat, nat), x: int)
    requires
        a.0 <= a.1,
        b.0 <= b.1,
    ensures
        (a.0 <= x <= a.1) <==> ((exists|i: int|
            0 <= i < span_minus(a, b).len() && #[trigger] span_minus(a, b)[i].0 <= x && x
                <= span_minus(a, b)[i].1) || (span_meet(a, b) matches Some(m) && m.0 <= x <= m.1)),
        forall|i: int|
            0 <= i < span_minus(a, b).len() && #[trigger] span_minus(a, b)[i].0 <= x && x <= span_minus(
                a,
                b,
            )[i].1 ==> !(span_meet(a, b) matches Some(m) && m.0 <= x <= m.1),
{
    let pieces = span_minus(a, b);
    if a.0 <= x <= a.1 && !(span_meet(a, b) matches Some(m) && m.0 <= x <= m.1) {
        if b.1 < a.0 || a.1 < b.0 {
            assert(pieces[0].0 <= x && x <= pieces[0].1);
        } else if x < b.0 {
            assert(pieces[0].0 <= x && x <= pieces[0].1);
        } else {
            let k = pieces.len() - 1;
            assert(pieces[k].0 <= x && x <= pieces[k].1);
        }
    }
}

/// A block of an aggregation is the largest block at its network address
/// that stays inside the covered addresses.
proof fn lemma_aggregate_block_largest(s: Seq<Block>, input: Seq<Block>, i: int, c: Block)
    requires
        aggregates(s, input),
        0 <= i < s.len(),
        c.wf(),
        c.width == s[i].width,
        c.network == s[i].network,
        forall|x: int| c.contains(x) ==> covers(input, x),
    ensures
        c.prefix >= s[i].prefix,
{
    let b = s[i];
    assert(b.wf());
    if c.prefix < b.prefix {
        lemma_wf_facts(b);
        lemma_wf_facts(c);
        let k = (b.width - b.prefix + 1) as nat;
        lemma_pow2_divides(k, (c.width - c.prefix) as nat);
        lemma_mod_pow2_weaken(c.network as int, k, (c.width - c.prefix) as nat);
        let twice = pow2(k) as int;
        assert(covered_run(input, b.network as int, b.network + twice - 1)) by {
            assert forall|x: int| b.network <= x <= b.network + twice - 1 implies covers(input, x) by {
                assert(c.contains(x));
            }
        }
        assert(maximal_in(s[i], input));
    }
}

/// Every covered address lies at or after the network of the first block
/// whose predecessor ends below it.
proof fn lemma_aggregate_next(s: Seq<Block>, input: Seq<Block>, j: int, x: int)
    requires
        aggregates(s, input),
        -1 <= j < s.len(),
        covers(input, x),
        j >= 0 ==> x > s[j].last(),
    ensures
        j + 1 < s.len(),
        x >= s[j + 1].network,
{
    assert(covers(s, x));
    let k = choose|k: int| 0 <= k < s.len() && #[trigger] s[k].contains(x);
    if k <= j {
        if k < j {
            assert(s[k].last() < s[j].network);
            assert(s[j].wf());
            lemma_wf_facts(s[j]);
        }
        assert(false);
    }
    if k > j + 1 {
        assert(s[j + 1].last() < s[k].network);
        assert(s[j + 1].wf());
        lemma_wf_facts(s[j + 1]);
    }
}

/// Two aggregations of the same addresses agree at every position up to `n`.
proof fn lemma_aggregates_agree(
    s1: Seq<Block>,
    in1: Seq<Block>,
    s2: Seq<Block>,
    in2: Seq<Block>,
    w: nat,
    n: int,
)
    requires
        aggregates(s1, in1),
        aggregates(s2, in2),
        forall|x: int| covers(in1, x) <==> covers(in2, x),
        forall|i: int| 0 <= i < s1.len() ==> (#[trigger] s1[i]).width == w,
        forall|i: int| 0 <= i < s2.len() ==> (#[trigger] s2[i]).width == w,
        0 <= n <= s1.len(),
        n <= s2.len(),
    ensures
        forall|i: int| 0 <= i < n ==> s1[i] == s2[i],
    decreases n,
{
    if n > 0 {
        let j = n - 1;
        lemma_aggregates_agree(s1, in1, s2, in2, w, j);
        let b1 = s1[j];
        let b2 = s2[j];
        assert(b1.wf() && b2.wf());
        lemma_wf_facts(b1);
        lemma_wf_facts(b2);
        assert(b1.contains(b1.network as int));
        assert(covers(s1, b1.network as int));
        assert(b2.contains(b2.network as int));
        assert(covers(s2, b2.network as int));
        if j == 0 {
            lemma_aggregate_next(s1, in1, -1, b2.network as int);
            lemma_aggregate_next(s2, in2, -1, b1.network as int);
        } else {
            assert(s1[j - 1] == s2[j - 1]);
            assert(s1[j - 1].last() < b1.network);
            assert(s2[j - 1].last() < b2.network);
            lemma_aggregate_next(s1, in1, j - 1, b2.network as int);
            lemma_aggregate_next(s2, in2, j - 1, b1.network as int);
        }
        assert(b1.network == b2.network);
        assert forall|x: int| b2.contains(x) implies covers(in1, x) by {
            assert(covers(s2, x));
        }
        assert forall|x: int| b1.contains(x) implies covers(in2, x) by {
            assert(covers(s1, x));
        }
        lemma_aggregate_block_largest(s1, in1, j, b2);
        lemma_aggregate_block_largest(s2, in2, j, b1);
    }
}

/// Aggregation depends only on the addresses covered: any two aggregations
/// of inputs that cover the same addresses are the same blocks. Hence
/// aggregating is idempotent, and ignores the order and repetition of its
/// input blocks.
pub proof fn lemma_aggregation_unique(
    s1: Seq<Block>,
    in1: Seq<Block>,
    s2: Seq<Block>,
    in2: Seq<Block>,
    w: nat,
)
    requires
        aggregates(s1, in1),
        aggregates(s2, in2),
        forall|x: int| covers(in1, x) <==> covers(in2, x),
        forall|i: int| 0 <= i < s1.len() ==> (#[trigger] s1[i]).width == w,
        forall|i: int| 0 <= i < s2.len() ==> (#[trigger] s2[i]).width == w,
    ensures
        s1 == s2,
{
    let n = if s1.len() <= s2.len() { s1.len() as int } else { s2.len() as int };
    lemma_aggregates_agree(s1, in1, s2, in2, w, n);
    if s1.len() < s2.len() {
        let b = s2[n];
        assert(b.wf());
        lemma_wf_facts(b);
        assert(b.contains(b.network as int));
        assert(covers(s2, b.network as int));
        if n > 0 {
            assert(s2[n - 1].last() < b.network);
            assert(s1[n - 1] == s2[n - 1]);
        }
        lemma_aggregate_next(s1, in1, n - 1, b.network as int);
    } else if s2.len() < s1.len() {
        let b = s1[n];
        assert(b.wf());
        lemma_wf_facts(b);
        assert(b.contains(b.network as int));
        assert(covers(s1, b.network as int));
        if n > 0 {
            assert(s1[n - 1].last() < b.network);
            assert(s1[n - 1] == s2[n - 1]);
        }
        lemma_aggregate_next(s2, in2, n - 1, b.network as int);
    }
    assert(s1 =~= s2);
}

/// No block inside the covered addresses that holds the network address of
/// a block of an aggregation is larger than that block.
proof fn lemma_aggregate_block_not_inside(s: Seq<Block>, input: Seq<Block>, i: int, c: Block)
    requires
        aggregates(s, input),
        0 <= i < s.len(),
        c.wf(),
        forall|k: int| 0 <= k < s.len() ==> (#[trigger] s[k]).width == c.width,
        c.contains(s[i].network as int),
        forall|x: int| c.contains(x) ==> covers(input, x),
    ensures
        c.prefix >= s[i].prefix,
{
    if c.prefix < s[i].prefix {
        let x = c.network as int;
        lemma_wf_facts(c);
        assert(c.contains(x));
        assert(covers(s, x));
        let j = choose|j: int| 0 <= j < s.len() && #[trigger] s[j].contains(x);
        assert(s[j].wf());
        assert(s[i].wf());
        lemma_wf_facts(s[i]);
        lemma_wf_facts(s[j]);
        if s[j].prefix <= c.prefix {
            lemma_nested_or_disjoint(s[j], c);
            assert(s[j].contains(s[i].network as int));
            assert(s[i].contains(s[i].network as int));
            if j != i {
                lemma_ascending_disjoint(s, i, j, s[i].network as int);
            }
        } else {
            lemma_nested_or_disjoint(c, s[j]);
            assert(c.network == s[j].network);
            lemma_aggregate_block_largest(s, input, j, c);
        }
    }
}

/// An aggregation uses the fewest blocks: any well-formed blocks of the
/// same family that hold exactly the same addresses are at least as many.
pub proof fn lemma_aggregation_fewest(s: Seq<Block>, input: Seq<Block>, t: Seq<Block>, w: nat)
    requires
        aggregates(s, input),
        all_wf(t),
        forall|i: int| 0 <= i < s.len() ==> (#[trigger] s[i]).width == w,
        forall|k: int| 0 <= k < t.len() ==> (#[trigger] t[k]).width == w,
        forall|x: int| covers(t, x) <==> covers(input, x),
    ensures
        s.len() <= t.len(),
{
    let f = |i: int| choose|k: int| 0 <= k < t.len() && #[trigger] t[k].contains(s[i].network as int);
    assert forall|i: int| 0 <= i < s.len() implies 0 <= #[trigger] f(i) < t.len() && t[f(i)].contains(
        s[i].network as int,
    ) by {
        assert(s[i].wf());
        lemma_wf_facts(s[i]);
        assert(s[i].contains(s[i].network as int));
        assert(covers(s, s[i].network as int));
        assert(covers(t, s[i].network as int));
    }
    let dom = set_int_range(0, s.len() as int);
    assert(injective_on(f, dom)) by {
        assert forall|i1: int, i2: int|
            dom.contains(i1) && dom.contains(i2) && #[trigger] f(i1) == #[trigger] f(i2) implies i1
                == i2 by {
            let c = t[f(i1)];
            assert(c.wf());
            assert forall|x: int| c.contains(x) implies covers(input, x) by {
                assert(covers(t, x));
            }
            lemma_aggregate_block_not_inside(s, input, i1, c);
            lemma_aggregate_block_not_inside(s, input, i2, c);
            assert(s[i1].wf() && s[i2].wf());
            lemma_wf_facts(s[i1]);
            lemma_wf_facts(s[i2]);
            lemma_nested_or_disjoint(s[i1], c);
            lemma_nested_or_disjoint(s[i2], c);
            if i1 != i2 {
                assert(s[i1].contains(s[i1].network as int));
                lemma_ascending_disjoint(s, i1, i2, s[i1].network as int);
            }
        }
    }
    lemma_int_range(0, s.len() as int);
    lemma_int_range(0, t.len() as int);
    let img = dom.map(f);
    lemma_map_size(dom, img, f);
    assert(img.subset_of(set_int_range(0, t.len() as int)));
    lemma_len_subset(img, set_int_range(0, t.len() as int));
}

/// A range decomposition uses the fewest blocks: any well-formed blocks of
/// the same family that hold exactly the addresses `first..=last` are at
/// least as many.
pub proof fn lemma_decomposition_fewest(s: Seq<Block>, first: nat, last: nat, t: Seq<Block>, w: nat)
    requires
        decomposes(s, first, last),
        all_wf(t),
        forall|i: int| 0 <= i < s.len() ==> (#[trigger] s[i]).width == w,
        forall|k: int| 0 <= k < t.len() ==> (#[trigger] t[k]).width == w,
        forall|x: int| covers(t, x) <==> first <= x <= last,
    ensures
        s.len() <= t.len(),
{
    assert forall|i: int| 0 <= i < s.len() implies maximal_in(#[trigger] s[i], s) by {
        let b = s[i];
        assert(maximal_within(b, last as int));
        if b.prefix != 0 {
            let k = (b.width - b.prefix + 1) as nat;
            let twice = pow2(k) as int;
            lemma_pow2_pos(k);
            if (b.network as int) % twice == 0 && covered_run(s, b.network as int, b.network + twice - 1) {
                assert(covers(s, b.network + twice - 1));
                assert(!fits(b.network as int, last as int, k));
            }
        }
    }
    assert(aggregates(s, s));
    lemma_aggregation_fewest(s, s, t, w);
}

/// Aggregating an aggregation gives it back.
pub proof fn lemma_aggregation_idempotent(s: Seq<Block>, input: Seq<Block>, t: Seq<Block>, w: nat)
    requires
        aggregates(s, input),
        aggregates(t, s),
        forall|i: int| 0 <= i < s.len() ==> (#[trigger] s[i]).width == w,
        forall|i: int| 0 <= i < t.len() ==> (#[trigger] t[i]).width == w,
    ensures
        t == s,
{
    lemma_aggregation_unique(s, input, t, s, w);
}

/// One step of walking a run of addresses, as `next` (from the low end,
/// `front`) and `next_back` (from the high end) take it: the address
/// yielded, if any, and what remains.
pub open spec fn walk_step(rem: Seq<int>, front: bool) -> (Option<int>, Seq<int>) {
    if rem.len() == 0 {
        (None, rem)
    } else if front {
        (Some(rem[0]), rem.drop_first())
    } else {
        (Some(rem.last()), rem.drop_last())
    }
}

/// The addresses yielded by a sequence of steps, and what remains.
pub open spec fn walk(rem: Seq<int>, steps: Seq<bool>) -> (Seq<Option<int>>, Seq<int>)
    decreases steps.len(),
{
    if steps.len() == 0 {
        (Seq::empty(), rem)
    } else {
        let prev = walk(rem, steps.drop_last());
        let st = walk_step(prev.1, steps.last());
        (prev.0.push(st.0), st.1)
    }
}

/// The number of steps taken from the low end.
pub open spec fn fronts(steps: Seq<bool>) -> nat
    decreases steps.len(),
{
    if steps.len() == 0 {
        0
    } else {
        fronts(steps.drop_last()) + if steps.last() {
            1nat
        } else {
            0nat
        }
    }
}

/// The number of steps taken from the high end.
pub open spec fn backs(steps: Seq<bool>) -> nat {
    (steps.len() - fronts(steps)) as nat
}

/// Walking the addresses `first..=last` from both ends, in any interleaving:
/// the low end yields `first`, `first + 1`, ... and the high end `last`,
/// `last - 1`, ...; no address is yielded twice; once all have been
/// yielded, every step yields nothing; and what remains is the run between
/// the two ends. The result gives how many were taken from each end.
pub proof fn lemma_walk_interval(first: int, last: int, steps: Seq<bool>) -> (km: (int, int))
    requires
        first <= last + 1,
    ensures
        km.0 >= 0 && km.1 >= 0,
        km.0 + km.1 == (if steps.len() <= last - first + 1 {
            steps.len() as int
        } else {
            last - first + 1
        }),
        steps.len() <= last - first + 1 ==> km.0 == fronts(steps) && km.1 == backs(steps),
        walk(interval(first, last), steps).1 == interval(first + km.0, last - km.1),
        walk(interval(first, last), steps).0.len() == steps.len(),
        forall|i: int|
            0 <= i < steps.len() ==> ((#[trigger] walk(interval(first, last), steps).0[i]) is Some
                <==> i < last - first + 1),
        forall|i: int|
            0 <= i < steps.len() && steps[i] && i < last - first + 1 ==> #[trigger] walk(
                interval(first, last),
                steps,
            ).0[i] == Some(first + fronts(steps.take(i))),
        forall|i: int|
            0 <= i < steps.len() && !steps[i] && i < last - first + 1 ==> #[trigger] walk(
                interval(first, last),
                steps,
            ).0[i] == Some(last - backs(steps.take(i))),
        forall|i: int|
            0 <= i < steps.len() && (#[trigger] walk(interval(first, last), steps).0[i]) is Some
                ==> (first <= walk(interval(first, last), steps).0[i]->0 < first + km.0 || last
                - km.1 < walk(interval(first, last), steps).0[i]->0 <= last),
        forall|i: int, j: int|
            0 <= i < j < steps.len() && (#[trigger] walk(interval(first, last), steps).0[i]) is Some
                && (#[trigger] walk(interval(first, last), steps).0[j]) is Some ==> walk(
                interval(first, last),
                steps,
            ).0[i] != walk(interval(first, last), steps).0[j],
    decreases steps.len(),
{
    let n = last - first + 1;
    let w = walk(interval(first, last), steps);
    if steps.len() == 0 {
        assert(interval(first, last) =~= interval(first + 0, last - 0));
        (0, 0)
    } else {
        let t = steps.len() - 1;
        let s0 = steps.drop_last();
        let km0 = lemma_walk_interval(first, last, s0);
        let (k, m) = km0;
        let prev = walk(interval(first, last), s0);
        assert(s0.take(t) =~= s0);
        assert(steps.take(t) =~= s0);
        assert forall|i: int| 0 <= i < t implies #[trigger] steps.take(i) == s0.take(i) by {
            assert(steps.take(i) =~= s0.take(i));
        }
        assert forall|i: int| 0 <= i < t implies #[trigger] steps[i] == s0[i] by {}
        assert forall|i: int| 0 <= i < t implies #[trigger] w.0[i] == prev.0[i] by {}
        let rem = prev.1;
        if rem.len() == 0 {
            assert(k + m == n);
            assert(w.1 == rem);
            km0
        } else {
            assert(t < n);
            assert(fronts(steps) == fronts(s0) + if steps.last() { 1nat } else { 0nat });
            if steps.last() {
                assert(w.0[t] == Some(first + k));
                assert(rem.drop_first() =~= interval(first + k + 1, last - m));
                (k + 1, m)
            } else {
                assert(rem.last() == last - m);
                assert(w.0[t] == Some(last - m));
                assert(rem.drop_last() =~= interval(first + k, last - m - 1));
                (k, m + 1)
            }
        }
    }
}

} // verus!
