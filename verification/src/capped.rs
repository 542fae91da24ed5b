//! Aggregation that never produces a block shorter than a given prefix.

use vstd::prelude::*;
use vstd::arithmetic::power2::{lemma_pow2_adds, lemma_pow2_pos, pow2};

use crate::block::{
    aggregate_raw, all_wf, ascending, covers, host_span, lemma_mod_pow2_weaken, lemma_pow2_divides,
    lemma_pow2_widths, lemma_sum_multiple, lemma_wf_facts, maximal_in, raw, raw_blocks, Block,
};
use crate::cidr::{ip_blocks, lemma_ipcidr_width, v4_from_raw_vec, v6_from_raw_vec, wrap_v4, wrap_v6, IpCidr};
use crate::set::{family_blocks, split_by_family};

verus! {

/// Blocks aggregating `input` with no block shorter than `cap`: the same
/// addresses, ascending, every prefix at least `cap`, and every block longer
/// than `cap` cannot be doubled within the union.
pub open spec fn aggregates_capped(s: Seq<Block>, input: Seq<Block>, cap: nat) -> bool {
    &&& all_wf(s)
    &&& ascending(s)
    &&& forall|x: int| covers(s, x) <==> covers(input, x)
    &&& forall|i: int|
        0 <= i < s.len() ==> (#[trigger] s[i]).prefix >= cap && (s[i].prefix == cap || maximal_in(
            s[i],
            input,
        ))
}

/// Merge a list of blocks of one family, then split every merged block
/// shorter than `cap` into its sub-blocks of prefix `cap`.
fn aggregate_capped_raw(width: u8, blocks: &Vec<(u128, u8)>, cap: u8) -> (r: Vec<(u128, u8)>)
    requires
        width == 32 || width == 128,
        cap <= width,
        all_wf(raw_blocks(width as nat, blocks@)),
    ensures
        aggregates_capped(raw_blocks(width as nat, r@), raw_blocks(width as nat, blocks@), cap as nat),
{
    let ghost w = width as nat;
    let ghost ib = raw_blocks(w, blocks@);
    let merged = aggregate_raw(width, blocks);
    let ghost m = raw_blocks(w, merged@);
    proof {
        lemma_pow2_widths();
    }
    let mut out: Vec<(u128, u8)> = Vec::new();
    let mut i: usize = 0;
    while i < merged.len()
        invariant
            width == 32 || width == 128,
            w == width as nat,
            cap <= width,
            i <= merged@.len(),
            m == raw_blocks(w, merged@),
            all_wf(m),
            ascending(m),
            forall|j: int| 0 <= j < merged@.len() ==> maximal_in(#[trigger] m[j], ib),
            all_wf(raw_blocks(w, out@)),
            ascending(raw_blocks(w, out@)),
            forall|j: int|
                0 <= j < out@.len() ==> (#[trigger] raw_blocks(w, out@)[j]).prefix >= cap && (raw_blocks(
                    w,
                    out@,
                )[j].prefix == cap || maximal_in(raw_blocks(w, out@)[j], ib)),
            forall|x: int| covers(raw_blocks(w, out@), x) <==> covers(m.take(i as int), x),
            i == 0 ==> out@.len() == 0,
            i > 0 ==> forall|j: int|
                0 <= j < out@.len() ==> (#[trigger] raw_blocks(w, out@)[j]).last() <= m[i - 1].last(),
        decreases merged@.len() - i,
    {
        let (net, p) = merged[i];
        let ghost b = m[i as int];
        let ghost before = out@;
        proof {
            assert(b == raw(w, merged@[i as int]));
            assert(b.wf());
            lemma_wf_facts(b);
            assert(m.take(i + 1).drop_last() =~= m.take(i as int));
            if i > 0 {
                assert(m[i - 1].last() < b.network);
            }
        }
        if p >= cap {
            out.push((net, p));
            proof {
                let o = raw_blocks(w, out@);
                assert(o.drop_last() =~= raw_blocks(w, before));
                assert(o.last() == b);
                assert forall|j: int| 0 <= j < o.len() implies (#[trigger] o[j]).prefix >= cap && (
                o[j].prefix == cap || maximal_in(o[j], ib)) by {
                    if j < before.len() {
                        assert(o[j] == raw_blocks(w, before)[j]);
                    }
                }
                assert forall|x: int| covers(o, x) <==> covers(m.take(i + 1), x) by {
                    if covers(o, x) {
                        let j = choose|j: int| 0 <= j < o.len() && #[trigger] o[j].contains(x);
                        if j < before.len() {
                            assert(raw_blocks(w, before)[j] == o[j]);
                            assert(covers(raw_blocks(w, before), x));
                            let k = choose|k: int| 0 <= k < i && #[trigger] m.take(i as int)[k].contains(x);
                            assert(m.take(i + 1)[k] == m.take(i as int)[k]);
                        } else {
                            assert(m.take(i + 1)[i as int] == b);
                        }
                    }
                    if covers(m.take(i + 1), x) {
                        let k = choose|k: int| 0 <= k < i + 1 && #[trigger] m.take(i + 1)[k].contains(x);
                        if k < i {
                            assert(m.take(i as int)[k] == m.take(i + 1)[k]);
                            assert(covers(m.take(i as int), x));
                            assert(covers(raw_blocks(w, before), x));
                            let j = choose|j: int| 0 <= j < before.len() && #[trigger] raw_blocks(w, before)[j].contains(x);
                            assert(o[j] == raw_blocks(w, before)[j]);
                        } else {
                            assert(o[before.len() as int].contains(x));
                        }
                    }
                }
                assert forall|j: int, k: int| 0 <= j < k < o.len() implies #[trigger] o[j].last() < #[trigger] o[k].network by {
                    if k < before.len() {
                        assert(o[j] == raw_blocks(w, before)[j]);
                        assert(o[k] == raw_blocks(w, before)[k]);
                    } else {
                        assert(o[j] == raw_blocks(w, before)[j]);
                    }
                }
                assert forall|j: int| 0 <= j < o.len() implies (#[trigger] o[j]).wf() by {
                    if j < before.len() {
                        assert(o[j] == raw_blocks(w, before)[j]);
                    }
                }
                assert forall|j: int| 0 <= j < o.len() implies (#[trigger] o[j]).last() <= m[i as int].last() by {
                    if j < before.len() {
                        assert(o[j] == raw_blocks(w, before)[j]);
                    }
                }
            }
        } else {
            proof {
                lemma_pow2_divides((w - cap) as nat, (w - p) as nat);
                lemma_pow2_divides((w - cap) as nat, w);
                lemma_pow2_divides((w - p) as nat, w);
                lemma_pow2_pos((w - cap) as nat);
                lemma_pow2_adds((w - cap) as nat, (cap - p) as nat);
                lemma_pow2_pos((cap - p) as nat);
                lemma_mod_pow2_weaken(net as int, (w - cap) as nat, (w - p) as nat);
            }
            let step_m1 = host_span(width, cap);
            let last = net + host_span(width, p);
            let ghost step = pow2((w - cap) as nat);
            let ghost count = pow2((cap - p) as nat);
            let mut cur = net;
            let ghost mut k: int = 0;
            loop
                invariant_except_break
                    forall|x: int|
                        covers(raw_blocks(w, out@), x) <==> (covers(m.take(i as int), x) || (net <= x
                            < cur)),
                    forall|j: int| 0 <= j < out@.len() ==> (#[trigger] raw_blocks(w, out@)[j]).last() < cur,
                invariant
                    width == 32 || width == 128,
                    w == width as nat,
                    cap <= width,
                    b.wf(),
                    b.network == net,
                    b.prefix == p,
                    b.width == w,
                    p < cap,
                    step == pow2((w - cap) as nat),
                    step_m1 == step - 1,
                    step > 0,
                    count > 0,
                    b.size() == step * count,
                    last == b.last(),
                    (net as nat) % step == 0,
                    0 <= k < count,
                    cur == net + k * step,
                    all_wf(raw_blocks(w, out@)),
                    ascending(raw_blocks(w, out@)),
                    forall|j: int|
                        0 <= j < out@.len() ==> (#[trigger] raw_blocks(w, out@)[j]).prefix >= cap
                            && (raw_blocks(w, out@)[j].prefix == cap || maximal_in(
                            raw_blocks(w, out@)[j],
                            ib,
                        )),
                ensures
                    cur + step == net + b.size(),
                    forall|x: int|
                        covers(raw_blocks(w, out@), x) <==> (covers(m.take(i as int), x) || (net <= x
                            < cur + step)),
                    forall|j: int| 0 <= j < out@.len() ==> (#[trigger] raw_blocks(w, out@)[j]).last() < cur + step,
                decreases count - k,
            {
                let ghost prev = out@;
                proof {
                    assert((k + 1) * step <= count * step) by (nonlinear_arith)
                        requires
                            k + 1 <= count,
                            step > 0,
                    ;
                    vstd::arithmetic::div_mod::lemma_mod_multiples_basic(k, step as int);
                    lemma_sum_multiple(net as int, k * step, step as int);
                    assert((k + 1) * step == k * step + step) by (nonlinear_arith);
                }
                out.push((cur, cap));
                let ghost nb = Block { width: w, network: cur as nat, prefix: cap as nat };
                proof {
                    let o = raw_blocks(w, out@);
                    assert(o.drop_last() =~= raw_blocks(w, prev));
                    assert(o.last() == nb);
                    assert(nb.size() == step);
                    assert(nb.wf());
                    assert forall|j: int| 0 <= j < o.len() implies (#[trigger] o[j]).prefix >= cap && (
                    o[j].prefix == cap || maximal_in(o[j], ib)) by {
                        if j < prev.len() {
                            assert(o[j] == raw_blocks(w, prev)[j]);
                        }
                    }
                    assert forall|j: int| 0 <= j < o.len() implies (#[trigger] o[j]).wf() by {
                        if j < prev.len() {
                            assert(o[j] == raw_blocks(w, prev)[j]);
                        }
                    }
                    assert forall|j: int, q: int| 0 <= j < q < o.len() implies #[trigger] o[j].last()
                        < #[trigger] o[q].network by {
                        assert(o[j] == raw_blocks(w, prev)[j]);
                        if q < prev.len() {
                            assert(o[q] == raw_blocks(w, prev)[q]);
                        }
                    }
                    assert forall|j: int| 0 <= j < o.len() implies (#[trigger] o[j]).last() < cur + step by {
                        if j < prev.len() {
                            assert(o[j] == raw_blocks(w, prev)[j]);
                        }
                    }
                    assert forall|x: int| covers(o, x) <==> (covers(m.take(i as int), x) || (net <= x < cur
                        + step)) by {
                        if covers(o, x) {
                            let j = choose|j: int| 0 <= j < o.len() && #[trigger] o[j].contains(x);
                            if j < prev.len() {
                                assert(raw_blocks(w, prev)[j] == o[j]);
                                assert(covers(raw_blocks(w, prev), x));
                            }
                        }
                        if covers(m.take(i as int), x) || (net <= x < cur) {
                            assert(covers(raw_blocks(w, prev), x));
                            let j = choose|j: int| 0 <= j < prev.len() && #[trigger] raw_blocks(w, prev)[j].contains(x);
                            assert(o[j] == raw_blocks(w, prev)[j]);
                        } else if cur <= x < cur + step {
                            assert(o[prev.len() as int].contains(x));
                        }
                    }
                }
                if cur + step_m1 == last {
                    break;
                }
                proof {
                    assert(k + 1 < count) by (nonlinear_arith)
                        requires
                            cur == net + k * step,
                            cur + step - 1 != net + step * count - 1,
                            (k + 1) * step <= count * step,
                            (k + 1) * step == k * step + step,
                            step > 0,
                    ;
                    assert((k + 2) * step <= count * step) by (nonlinear_arith)
                        requires
                            k + 2 <= count,
                            step > 0,
                    ;
                }
                cur = cur + step_m1 + 1;
                proof {
                    k = k + 1;
                }
            }
            proof {
                let o = raw_blocks(w, out@);
                assert(cur + step == net + b.size());
                assert forall|x: int| covers(o, x) <==> covers(m.take(i + 1), x) by {
                    if covers(m.take(i + 1), x) {
                        let q = choose|q: int| 0 <= q < i + 1 && #[trigger] m.take(i + 1)[q].contains(x);
                        if q < i {
                            assert(m.take(i as int)[q] == m.take(i + 1)[q]);
                            assert(covers(m.take(i as int), x));
                        } else {
                            assert(m.take(i + 1)[q] == b);
                        }
                    }
                    if covers(m.take(i as int), x) {
                        let q = choose|q: int| 0 <= q < i && #[trigger] m.take(i as int)[q].contains(x);
                        assert(m.take(i + 1)[q] == m.take(i as int)[q]);
                    }
                    if net <= x < cur + step {
                        assert(m.take(i + 1)[i as int] == b);
                        assert(b.contains(x));
                    }
                }
            }
        }
        i = i + 1;
    }
    proof {
        assert(m.take(merged@.len() as int) =~= m);
    }
    out
}

/// Collapse a mixed list of blocks into the minimal equivalent set, as
/// [`aggregate`](crate::set::aggregate) does, but never produce a block
/// shorter than `v4_max` (IPv4) or `v6_max` (IPv6): such blocks are split
/// into their sub-blocks of that prefix. A limit beyond the family's width
/// is taken as the width. IPv4 blocks come before IPv6 blocks.
pub fn aggregate_max_prefix(cidrs: &[IpCidr], v4_max: u8, v6_max: u8) -> (r: Vec<IpCidr>)
    ensures
        exists|k: int|
            split_by_family(r@, k) && aggregates_capped(
                ip_blocks(r@.take(k)),
                family_blocks(cidrs@, 32),
                if v4_max <= 32 {
                    v4_max as nat
                } else {
                    32
                },
            ) && aggregates_capped(
                ip_blocks(r@.skip(k)),
                family_blocks(cidrs@, 128),
                if v6_max <= 128 {
                    v6_max as nat
                } else {
                    128
                },
            ),
{
    let mut r4: Vec<(u128, u8)> = Vec::new();
    let mut r6: Vec<(u128, u8)> = Vec::new();
    let mut i: usize = 0;
    while i < cidrs.len()
        invariant
            i <= cidrs@.len(),
            raw_blocks(32, r4@) == family_blocks(cidrs@.take(i as int), 32),
            raw_blocks(128, r6@) == family_blocks(cidrs@.take(i as int), 128),
            all_wf(raw_blocks(32, r4@)),
            all_wf(raw_blocks(128, r6@)),
        decreases cidrs@.len() - i,
    {
        let ghost t = cidrs@.take(i as int + 1);
        let ghost o4 = r4@;
        let ghost o6 = r6@;
        proof {
            assert(t.drop_last() =~= cidrs@.take(i as int));
            assert(t.last() == cidrs@[i as int]);
            lemma_ipcidr_width(cidrs@[i as int]);
        }
        match &cidrs[i] {
            IpCidr::V4(c) => {
                r4.push(c.to_raw());
                proof {
                    assert(raw_blocks(32, r4@) =~= raw_blocks(32, o4).push(cidrs@[i as int]@));
                    assert(raw_blocks(32, r4@) =~= family_blocks(t, 32));
                    assert(raw_blocks(128, r6@) =~= family_blocks(t, 128));
                    assert forall|j: int| 0 <= j < r4@.len() implies (#[trigger] raw_blocks(32, r4@)[j]).wf() by {
                        if j < o4.len() {
                            assert(raw_blocks(32, r4@)[j] == raw_blocks(32, o4)[j]);
                        }
                    }
                }
            },
            IpCidr::V6(c) => {
                r6.push(c.to_raw());
                proof {
                    assert(raw_blocks(128, r6@) =~= raw_blocks(128, o6).push(cidrs@[i as int]@));
                    assert(raw_blocks(32, r4@) =~= family_blocks(t, 32));
                    assert(raw_blocks(128, r6@) =~= family_blocks(t, 128));
                    assert forall|j: int| 0 <= j < r6@.len() implies (#[trigger] raw_blocks(128, r6@)[j]).wf() by {
                        if j < o6.len() {
                            assert(raw_blocks(128, r6@)[j] == raw_blocks(128, o6)[j]);
                        }
                    }
                }
            },
        }
        i = i + 1;
    }
    proof {
        assert(cidrs@.take(cidrs@.len() as int) =~= cidrs@);
    }
    let cap4: u8 = if v4_max <= 32 {
        v4_max
    } else {
        32
    };
    let cap6: u8 = if v6_max <= 128 {
        v6_max
    } else {
        128
    };
    let a4 = aggregate_capped_raw(32, &r4, cap4);
    let a6 = aggregate_capped_raw(128, &r6, cap6);
    let c4 = v4_from_raw_vec(&a4);
    let c6 = v6_from_raw_vec(&a6);
    let mut out = wrap_v4(&c4);
    let mut tail = wrap_v6(&c6);
    let ghost o4 = out@;
    let ghost o6 = tail@;
    out.append(&mut tail);
    proof {
        let k = o4.len() as int;
        assert(out@.take(k) =~= o4);
        assert(out@.skip(k) =~= o6);
        assert(split_by_family(out@, k));
    }
    out
}

} // verus!
