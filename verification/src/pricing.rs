//! Path pricer: simulates the hops of a swap cycle in sequence against one
//! reserve snapshot.
//!
//! Each hop's simulated output feeds the next hop's input; the working copy
//! of the snapshot is updated after every hop, so a path that crosses the
//! same pool twice sees its own earlier trade.  All arithmetic is exact
//! integer arithmetic in chain base units.  A hop whose pool is missing
//! from the snapshot prices to zero output (data unavailable, not an
//! error); a reserve update that would leave the representable range is a
//! numeric overflow and discards the path.

use vstd::prelude::*;
use crate::types::{
    Curve,
    hops_view, impacts_view, pools_view, ArbError, Hop, HopData, Pool, PoolData, SwapPath,
    SwapPathResult, FEE_DENOM,
};
use crate::graph::spec_pools_wf;
use crate::math::{
    lemma_after_fee_zero, lemma_hop_impact_range, lemma_swap_out_bounds, price_hop,
    spec_hop_impact, spec_reserve_in, spec_reserve_out, spec_swap_out,
};
use crate::types::copy_bytes;
use vstd::arithmetic::div_mod::{
    lemma_div_is_ordered_by_denominator, lemma_div_pos_is_pos, lemma_fundamental_div_mod,
};

verus! {

/// Index of the first pool with the given identity, if any.
pub open spec fn spec_find_from(pools: Seq<PoolData>, id: int, i: int) -> Option<int>
    decreases pools.len() - i,
{
    if i < 0 || i >= pools.len() {
        None
    } else if pools[i].id == id {
        Some(i)
    } else {
        spec_find_from(pools, id, i + 1)
    }
}

/// Index of the first pool with the given identity.
pub open spec fn spec_find_pool(pools: Seq<PoolData>, id: int) -> Option<int> {
    spec_find_from(pools, id, 0)
}

/// Linear search for a pool by identity.
pub fn find_pool(pools: &Vec<Pool>, id: u64) -> (r: Option<usize>)
    ensures
        match r {
            Some(j) => j < pools@.len() && spec_find_pool(pools_view(pools@), id as int) == Some(
                j as int,
            ),
            None => spec_find_pool(pools_view(pools@), id as int) is None,
        },
{
    let ghost pv = pools_view(pools@);
    let n = pools.len();
    let mut i: usize = 0;
    while i < n
        invariant
            n == pools.len(),
            0 <= i <= n,
            pv == pools_view(pools@),
            spec_find_from(pv, id as int, 0) == spec_find_from(pv, id as int, i as int),
        decreases n - i,
    {
        if pools[i].id == id {
            return Some(i);
        }
        i += 1;
    }
    None
}

/// The pool after one hop through it: the full input amount joins the
/// input-side reserve, the output leaves the other side.
pub open spec fn spec_apply_hop(p: PoolData, a_to_b: bool, amount: int, out: int) -> PoolData {
    if a_to_b {
        PoolData { reserve_a: p.reserve_a + amount, reserve_b: p.reserve_b - out, ..p }
    } else {
        PoolData { reserve_b: p.reserve_b + amount, reserve_a: p.reserve_a - out, ..p }
    }
}

/// Runs a hop sequence against a snapshot: the carried amount, the per-hop
/// impacts, and the updated snapshot — or `None` when a reserve update
/// would not fit the representable range.
pub open spec fn spec_run_hops(pools: Seq<PoolData>, hops: Seq<HopData>, amount: int) -> Option<
    (int, Seq<int>, Seq<PoolData>),
>
    decreases hops.len(),
{
    if hops.len() == 0 {
        Some((amount, Seq::empty(), pools))
    } else {
        let h = hops[0];
        match spec_find_pool(pools, h.pool_id) {
            None => match spec_run_hops(pools, hops.skip(1), 0) {
                None => None,
                Some((o, imps, ps)) => Some((o, seq![0] + imps, ps)),
            },
            Some(j) => {
                let p = pools[j];
                let out = spec_swap_out(p, h.a_to_b, amount);
                let imp = spec_hop_impact(p, h.a_to_b, amount);
                if spec_reserve_in(p, h.a_to_b) + amount > u64::MAX {
                    None
                } else {
                    match spec_run_hops(
                        pools.update(j, spec_apply_hop(p, h.a_to_b, amount, out)),
                        hops.skip(1),
                        out,
                    ) {
                        None => None,
                        Some((o, imps, ps)) => Some((o, seq![imp] + imps, ps)),
                    }
                }
            },
        }
    }
}

/// Whether pricing the hops overflows.
pub open spec fn spec_price_overflows(pools: Seq<PoolData>, hops: Seq<HopData>, amount: int) -> bool {
    spec_run_hops(pools, hops, amount) is None
}

/// Final output amount of a priced path.
pub open spec fn spec_out_amount(pools: Seq<PoolData>, hops: Seq<HopData>, amount: int) -> int {
    spec_run_hops(pools, hops, amount).unwrap().0
}

/// Per-hop impacts of a priced path.
pub open spec fn spec_impacts(pools: Seq<PoolData>, hops: Seq<HopData>, amount: int) -> Seq<int> {
    spec_run_hops(pools, hops, amount).unwrap().1
}

/// Sum of a sequence of integers.
pub open spec fn spec_sum(s: Seq<int>) -> int
    decreases s.len(),
{
    if s.len() == 0 {
        0
    } else {
        spec_sum(s.drop_last()) + s.last()
    }
}

/// Relative profit in basis points of the input, rounded toward zero; zero
/// when the input is zero.
pub open spec fn spec_profit_bps(amount_in: int, amount_out: int) -> int {
    if amount_in <= 0 {
        0
    } else if amount_out >= amount_in {
        ((amount_out - amount_in) * FEE_DENOM) / amount_in
    } else {
        -(((amount_in - amount_out) * FEE_DENOM) / amount_in)
    }
}

/// Copies one pool value.
pub fn copy_pool(p: &Pool) -> (r: Pool)
    ensures
        r@ == p@,
{
    Pool {
        id: p.id,
        token_a: copy_bytes(&p.token_a),
        token_b: copy_bytes(&p.token_b),
        reserve_a: p.reserve_a,
        reserve_b: p.reserve_b,
        fee_bps: p.fee_bps,
        curve: p.curve,
    }
}

/// Copies a pool list.
pub fn copy_pools(v: &Vec<Pool>) -> (r: Vec<Pool>)
    ensures
        pools_view(r@) == pools_view(v@),
{
    let mut r: Vec<Pool> = Vec::new();
    let n = v.len();
    let mut i: usize = 0;
    while i < n
        invariant
            n == v.len(),
            0 <= i <= n,
            pools_view(r@) == pools_view(v@).take(i as int),
        decreases n - i,
    {
        let ghost before = pools_view(r@);
        let p = copy_pool(&v[i]);
        r.push(p);
        proof {
            assert(pools_view(r@) =~= before.push(v@[i as int]@));
            assert(pools_view(v@).take(i + 1) =~= pools_view(v@).take(i as int).push(
                v@[i as int]@,
            ));
        }
        i += 1;
    }
    proof {
        assert(pools_view(v@).take(n as int) =~= pools_view(v@));
    }
    r
}

/// Prices one swap cycle against a reserve snapshot.  Success is owed
/// whenever no reserve update overflows; the only error is
/// [`ArbError::NumericOverflow`], and exactly when the simulation says so.
pub fn price_path(pools: &Vec<Pool>, hops: &Vec<Hop>, amount_in: u64, order: u64) -> (r: Result<
    SwapPathResult,
    ArbError,
>)
    requires
        spec_pools_wf(pools_view(pools@)),
        hops@.len() <= 3,
    ensures
        r is Ok <==> !spec_price_overflows(pools_view(pools@), hops_view(hops@), amount_in as int),
        r is Err ==> r->Err_0 == ArbError::NumericOverflow,
        r is Ok ==> {
            let res = r->Ok_0@;
            let out = spec_out_amount(pools_view(pools@), hops_view(hops@), amount_in as int);
            let imps = spec_impacts(pools_view(pools@), hops_view(hops@), amount_in as int);
            &&& res.hops == hops_view(hops@)
            &&& res.amount_in == amount_in as int
            &&& res.amount_out == out
            &&& res.hop_impacts == imps
            &&& res.total_impact_bps == spec_sum(imps)
            &&& res.profit == out - amount_in as int
            &&& res.profit_bps == spec_profit_bps(amount_in as int, out)
            &&& res.order == order as int
        },
{
    let ghost pv = pools_view(pools@);
    let ghost hv = hops_view(hops@);
    let ghost full = spec_run_hops(pv, hv, amount_in as int);
    let n = hops.len();
    let mut wpools = copy_pools(pools);
    let mut cur: u64 = amount_in;
    let mut impacts: Vec<u64> = Vec::new();
    let mut total: u64 = 0;
    let mut i: usize = 0;
    proof {
        assert(hv.skip(0) =~= hv);
        match spec_run_hops(pv, hv, amount_in as int) {
            None => {},
            Some((o, imps, ps)) => {
                assert(impacts_view(impacts@) + imps =~= imps);
            },
        }
    }
    while i < n
        invariant
            n == hops.len() == hv.len(),
            n <= 3,
            0 <= i <= n,
            pv == pools_view(pools@),
            hv == hops_view(hops@),
            full == spec_run_hops(pv, hv, amount_in as int),
            spec_pools_wf(pools_view(wpools@)),
            impacts@.len() == i,
            total as int == spec_sum(impacts_view(impacts@)),
            total <= FEE_DENOM * i,
            full == match spec_run_hops(pools_view(wpools@), hv.skip(i as int), cur as int) {
                None => None::<(int, Seq<int>, Seq<PoolData>)>,
                Some((o, imps, ps)) => Some((o, impacts_view(impacts@) + imps, ps)),
            },
        decreases n - i,
    {
        let ghost wv = pools_view(wpools@);
        let ghost rest = hv.skip(i as int);
        proof {
            assert(rest[0] == hv[i as int]);
            assert(rest.skip(1) =~= hv.skip(i + 1));
        }
        let h = hops[i];
        let ghost impacts_before = impacts_view(impacts@);
        match find_pool(&wpools, h.pool_id) {
            None => {
                // Data unavailable for this hop: the path prices to zero
                // output and carries on.
                cur = 0;
                impacts.push(0);
                proof {
                    assert(impacts_view(impacts@) =~= impacts_before.push(0));
                    assert(impacts_view(impacts@).drop_last() =~= impacts_before);
                    match spec_run_hops(pools_view(wpools@), hv.skip(i + 1), 0) {
                        None => {},
                        Some((o, imps, ps)) => {
                            assert(impacts_before + (seq![0] + imps) =~= impacts_view(impacts@)
                                + imps);
                        },
                    }
                }
            },
            Some(j) => {
                let ghost p = wv[j as int];
                proof {
                    assert(p.wf());
                    lemma_swap_out_bounds(p, h.a_to_b, cur as int);
                    lemma_hop_impact_range(p, h.a_to_b, cur as int);
                }
                let (out, imp) = price_hop(&wpools[j], h.a_to_b, cur);
                let rin: u64 = if h.a_to_b {
                    wpools[j].reserve_a
                } else {
                    wpools[j].reserve_b
                };
                if (rin as u128) + (cur as u128) > u64::MAX as u128 {
                    return Err(ArbError::NumericOverflow);
                }
                let mut np = copy_pool(&wpools[j]);
                if h.a_to_b {
                    np.reserve_a = np.reserve_a + cur;
                    np.reserve_b = np.reserve_b - out;
                } else {
                    np.reserve_b = np.reserve_b + cur;
                    np.reserve_a = np.reserve_a - out;
                }
                proof {
                    assert(np@ == spec_apply_hop(p, h@.a_to_b, cur as int, out as int));
                }
                wpools.set(j, np);
                impacts.push(imp);
                total = total + imp;
                proof {
                    assert(pools_view(wpools@) =~= wv.update(
                        j as int,
                        spec_apply_hop(p, h@.a_to_b, cur as int, out as int),
                    ));
                    assert(spec_pools_wf(pools_view(wpools@)));
                    assert(impacts_view(impacts@) =~= impacts_before.push(imp as int));
                    assert(impacts_view(impacts@).drop_last() =~= impacts_before);
                    match spec_run_hops(pools_view(wpools@), hv.skip(i + 1), out as int) {
                        None => {},
                        Some((o, imps, ps)) => {
                            assert(impacts_before + (seq![imp as int] + imps) =~= impacts_view(
                                impacts@,
                            ) + imps);
                        },
                    }
                }
                cur = out;
            },
        }
        i += 1;
    }
    proof {
        assert(hv.skip(n as int) =~= Seq::<HopData>::empty());
        assert(impacts_view(impacts@) + Seq::<int>::empty() =~= impacts_view(impacts@));
    }
    let out = cur;
    let profit: i128 = (out as i128) - (amount_in as i128);
    let profit_bps: i128 = if amount_in == 0 {
        0
    } else if out >= amount_in {
        let diff: u128 = (out - amount_in) as u128;
        proof {
            lemma_profit_bps_fits(amount_in as int, out as int);
        }
        ((diff * (FEE_DENOM as u128)) / (amount_in as u128)) as i128
    } else {
        let diff: u128 = (amount_in - out) as u128;
        proof {
            lemma_profit_bps_fits(out as int, amount_in as int);
        }
        -(((diff * (FEE_DENOM as u128)) / (amount_in as u128)) as i128)
    };
    let mut hop_list: Vec<Hop> = Vec::new();
    let m = hops.len();
    let mut k: usize = 0;
    while k < m
        invariant
            m == hops.len(),
            0 <= k <= m,
            hop_list@ == hops@.take(k as int),
        decreases m - k,
    {
        hop_list.push(hops[k]);
        proof {
            assert(hops@.take(k + 1) =~= hops@.take(k as int).push(hops@[k as int]));
        }
        k += 1;
    }
    proof {
        assert(hops@.take(m as int) =~= hops@);
    }
    Ok(
        SwapPathResult {
            path: SwapPath { hops: hop_list },
            amount_in,
            amount_out: out,
            profit,
            profit_bps,
            hop_impacts: impacts,
            total_impact_bps: total,
            order,
        },
    )
}

/// Pricing a one-hop cycle is self-inverse on a fee-free constant-product
/// pool with equal reserves: swapping in and straight back out through the
/// same pool returns exactly the input amount, provided the first hop's
/// curve division is exact (the rounding the integer curve performs is the
/// only loss).  This is the sanity check of the curve math: the second hop
/// sees the reserves the first hop left behind.
pub proof fn lemma_one_hop_self_inverse(p: PoolData, a: int)
    requires
        p.wf(),
        p.curve == Curve::ConstantProduct,
        p.fee_bps == 0,
        p.reserve_a == p.reserve_b,
        0 < p.reserve_a,
        0 < a,
        p.reserve_a + a <= u64::MAX,
        (p.reserve_a * a) % (p.reserve_a + a) == 0,
    ensures
        !spec_price_overflows(
            seq![p],
            seq![
                HopData { pool_id: p.id, a_to_b: true },
                HopData { pool_id: p.id, a_to_b: false },
            ],
            a,
        ),
        spec_out_amount(
            seq![p],
            seq![
                HopData { pool_id: p.id, a_to_b: true },
                HopData { pool_id: p.id, a_to_b: false },
            ],
            a,
        ) == a,
{
    let r = p.reserve_a;
    let hops = seq![
        HopData { pool_id: p.id, a_to_b: true },
        HopData { pool_id: p.id, a_to_b: false },
    ];
    let pools = seq![p];
    lemma_after_fee_zero(a);
    assert(spec_find_pool(pools, p.id) == Some(0int));
    let out1 = spec_swap_out(p, true, a);
    assert(out1 == (r * a) / (r + a));
    lemma_fundamental_div_mod(r * a, r + a);
    assert(r * a == (r + a) * out1);
    lemma_swap_out_bounds(p, true, a);
    assert(out1 < r) by {
        if out1 >= r {
            assert((r + a) * out1 >= (r + a) * r) by (nonlinear_arith)
                requires
                    out1 >= r,
                    r + a > 0,
            ;
            assert((r + a) * r == r * a + r * r) by (nonlinear_arith);
            assert(r * r > 0) by (nonlinear_arith)
                requires
                    r > 0,
            ;
        }
    }
    let p2 = spec_apply_hop(p, true, a, out1);
    assert(p2.reserve_a == r + a);
    assert(p2.reserve_b == r - out1);
    assert(pools.update(0, p2) =~= seq![p2]);
    assert(hops.skip(1) =~= seq![HopData { pool_id: p.id, a_to_b: false }]);
    assert(spec_find_pool(seq![p2], p.id) == Some(0int));
    lemma_after_fee_zero(out1);
    let out2 = spec_swap_out(p2, false, out1);
    assert((r - out1) + out1 == r);
    assert(out2 == ((r + a) * out1) / r);
    assert((r + a) * out1 == r * a);
    vstd::arithmetic::div_mod::lemma_div_multiples_vanish(a, r);
    assert(out2 == a);
    assert(p2.reserve_b + out1 == r);
    let hop2 = HopData { pool_id: p.id, a_to_b: false };
    let p3 = spec_apply_hop(p2, false, out1, out2);
    assert(seq![p2].update(0, p3) =~= seq![p3]);
    assert(seq![hop2].skip(1) =~= Seq::<HopData>::empty());
    assert(spec_run_hops(seq![p3], seq![hop2].skip(1), out2) == Some(
        (out2, Seq::<int>::empty(), seq![p3]),
    ));
    let step2 = spec_run_hops(seq![p2], seq![hop2], out1);
    assert(step2 is Some && step2.unwrap().0 == a);
    let top = spec_run_hops(pools, hops, a);
    assert(spec_run_hops(pools.update(0, p2), hops.skip(1), out1) == step2);
    assert(top is Some && top.unwrap().0 == a);
}

/// The basis-point quotient of a nonnegative difference fits alongside the
/// widest amounts the pricer carries.
proof fn lemma_profit_bps_fits(lo: int, hi: int)
    requires
        0 <= lo <= hi <= u64::MAX,
    ensures
        0 <= ((hi - lo) * FEE_DENOM) / 1 <= u64::MAX * (FEE_DENOM as int),
        ((hi - lo) * FEE_DENOM) <= u64::MAX * (FEE_DENOM as int),
        0 <= ((hi - lo) * FEE_DENOM),
{
    assert((hi - lo) * (FEE_DENOM as int) <= u64::MAX * (FEE_DENOM as int)) by (nonlinear_arith)
        requires
            0 <= hi - lo <= u64::MAX,
    ;
    assert(0 <= (hi - lo) * (FEE_DENOM as int)) by (nonlinear_arith)
        requires
            0 <= hi - lo,
    ;
    assert(((hi - lo) * (FEE_DENOM as int)) / 1 == (hi - lo) * (FEE_DENOM as int));
}

} // verus!
