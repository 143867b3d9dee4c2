//! Curve math: the output and price-impact formulas for each pool variant,
//! in exact integer arithmetic.
//!
//! All amounts are chain base units.  The fee is taken out of the input
//! amount before the curve is applied (one convention for every variant of
//! a given pool; never mixed within a path).  A hop whose pool has a zero
//! reserve on either side yields zero output, not an error.

use vstd::prelude::*;
use crate::types::{Curve, Pool, PoolData, FEE_DENOM};
use vstd::arithmetic::div_mod::{
    lemma_div_is_ordered,
    lemma_div_is_ordered_by_denominator,
    lemma_div_multiples_vanish,
    lemma_div_pos_is_pos,
};

verus! {

/// Input amount once the pool fee (in basis points) is taken out, rounded
/// down.
pub open spec fn spec_after_fee(amount: int, fee_bps: int) -> int {
    (amount * (FEE_DENOM - fee_bps)) / (FEE_DENOM as int)
}

/// Input-side reserve of a pool for a hop direction.
pub open spec fn spec_reserve_in(p: PoolData, a_to_b: bool) -> int {
    if a_to_b {
        p.reserve_a
    } else {
        p.reserve_b
    }
}

/// Output-side reserve of a pool for a hop direction.
pub open spec fn spec_reserve_out(p: PoolData, a_to_b: bool) -> int {
    if a_to_b {
        p.reserve_b
    } else {
        p.reserve_a
    }
}

/// Simulated output of one swap: fee first, then the pool's curve, rounded
/// down.  Zero when either reserve is empty.
pub open spec fn spec_swap_out(p: PoolData, a_to_b: bool, amount: int) -> int {
    let rin = spec_reserve_in(p, a_to_b);
    let rout = spec_reserve_out(p, a_to_b);
    let af = spec_after_fee(amount, p.fee_bps);
    if rin <= 0 || rout <= 0 {
        0
    } else {
        match p.curve {
            Curve::ConstantProduct => (rout * af) / (rin + af),
            Curve::StableSwap => if af <= rout {
                af
            } else {
                rout
            },
        }
    }
}

/// Output the same swap would produce at the pool's instantaneous marginal
/// price (the infinitesimal-amount price), after the fee.
pub open spec fn spec_ideal_out(p: PoolData, a_to_b: bool, amount: int) -> int {
    let rin = spec_reserve_in(p, a_to_b);
    let rout = spec_reserve_out(p, a_to_b);
    let af = spec_after_fee(amount, p.fee_bps);
    if rin <= 0 || rout <= 0 {
        0
    } else {
        match p.curve {
            Curve::ConstantProduct => (rout * af) / rin,
            Curve::StableSwap => af,
        }
    }
}

/// Price impact in basis points: the fractional shortfall of the simulated
/// output against the marginal-price output.
pub open spec fn spec_impact_bps(out: int, ideal: int) -> int {
    if ideal <= 0 {
        0
    } else {
        FEE_DENOM - (out * FEE_DENOM) / ideal
    }
}

/// Price impact of one hop.
pub open spec fn spec_hop_impact(p: PoolData, a_to_b: bool, amount: int) -> int {
    spec_impact_bps(spec_swap_out(p, a_to_b, amount), spec_ideal_out(p, a_to_b, amount))
}

/// The fee never enlarges the amount.
pub proof fn lemma_after_fee_le(amount: int, fee_bps: int)
    requires
        0 <= amount,
        0 <= fee_bps < FEE_DENOM,
    ensures
        0 <= spec_after_fee(amount, fee_bps) <= amount,
{
    let d = FEE_DENOM as int;
    assert(amount * (d - fee_bps) <= amount * d) by (nonlinear_arith)
        requires
            0 <= amount,
            0 <= fee_bps,
    ;
    assert(0 <= amount * (d - fee_bps)) by (nonlinear_arith)
        requires
            0 <= amount,
            fee_bps < d,
    ;
    lemma_div_is_ordered(amount * (d - fee_bps), amount * d, d);
    lemma_div_multiples_vanish(amount, d);
    lemma_div_pos_is_pos(amount * (d - fee_bps), d);
}

/// A zero fee leaves the amount unchanged.
pub proof fn lemma_after_fee_zero(amount: int)
    requires
        0 <= amount,
    ensures
        spec_after_fee(amount, 0) == amount,
{
    lemma_div_multiples_vanish(amount, FEE_DENOM as int);
}

/// A swap can never pay out more than the output-side reserve, and never a
/// negative amount; it also never beats the marginal price.
pub proof fn lemma_swap_out_bounds(p: PoolData, a_to_b: bool, amount: int)
    requires
        p.wf(),
        0 <= amount,
    ensures
        0 <= spec_swap_out(p, a_to_b, amount) <= spec_reserve_out(p, a_to_b),
        spec_swap_out(p, a_to_b, amount) <= spec_ideal_out(p, a_to_b, amount),
{
    let rin = spec_reserve_in(p, a_to_b);
    let rout = spec_reserve_out(p, a_to_b);
    let af = spec_after_fee(amount, p.fee_bps);
    lemma_after_fee_le(amount, p.fee_bps);
    if rin <= 0 || rout <= 0 {
    } else {
        match p.curve {
            Curve::ConstantProduct => {
                assert(rout * af <= rout * (rin + af)) by (nonlinear_arith)
                    requires
                        0 <= rout,
                        0 < rin,
                        0 <= af,
                ;
                assert(0 <= rout * af) by (nonlinear_arith)
                    requires
                        0 <= rout,
                        0 <= af,
                ;
                lemma_div_is_ordered(rout * af, rout * (rin + af), rin + af);
                lemma_div_multiples_vanish(rout, rin + af);
                assert(rout * (rin + af) == (rin + af) * rout) by (nonlinear_arith);
                lemma_div_pos_is_pos(rout * af, rin + af);
                lemma_div_is_ordered_by_denominator(rout * af, rin, rin + af);
            },
            Curve::StableSwap => {},
        }
    }
}

/// The impact of a hop is a valid basis-point fraction.
pub proof fn lemma_hop_impact_range(p: PoolData, a_to_b: bool, amount: int)
    requires
        p.wf(),
        0 <= amount,
    ensures
        0 <= spec_hop_impact(p, a_to_b, amount) <= FEE_DENOM,
{
    let out = spec_swap_out(p, a_to_b, amount);
    let ideal = spec_ideal_out(p, a_to_b, amount);
    let d = FEE_DENOM as int;
    lemma_swap_out_bounds(p, a_to_b, amount);
    if ideal <= 0 {
    } else {
        assert(out * d <= ideal * d) by (nonlinear_arith)
            requires
                0 <= out <= ideal,
                0 < d,
        ;
        lemma_div_is_ordered(out * d, ideal * d, ideal);
        lemma_div_multiples_vanish(d, ideal);
        assert(ideal * d == d * ideal) by (nonlinear_arith);
        assert(0 <= out * d) by (nonlinear_arith)
            requires
                0 <= out,
                0 < d,
        ;
        lemma_div_pos_is_pos(out * d, ideal);
    }
}

/// Executable pricing of one hop: returns the simulated output and the
/// price impact in basis points, exactly as the spec formulas state them.
pub fn price_hop(p: &Pool, a_to_b: bool, amount: u64) -> (r: (u64, u64))
    requires
        p@.wf(),
    ensures
        r.0 as int == spec_swap_out(p@, a_to_b, amount as int),
        r.1 as int == spec_hop_impact(p@, a_to_b, amount as int),
{
    let rin: u64 = if a_to_b {
        p.reserve_a
    } else {
        p.reserve_b
    };
    let rout: u64 = if a_to_b {
        p.reserve_b
    } else {
        p.reserve_a
    };
    proof {
        lemma_after_fee_le(amount as int, p@.fee_bps);
        lemma_swap_out_bounds(p@, a_to_b, amount as int);
        lemma_hop_impact_range(p@, a_to_b, amount as int);
        assert((amount as int) * ((FEE_DENOM - p.fee_bps) as int) <= (u64::MAX as int) * (
        FEE_DENOM as int)) by (nonlinear_arith)
            requires
                0 <= amount as int <= u64::MAX as int,
                0 <= (FEE_DENOM - p.fee_bps) as int <= FEE_DENOM as int,
        ;
    }
    let af: u128 = (amount as u128) * ((FEE_DENOM - p.fee_bps) as u128) / (FEE_DENOM as u128);
    assert(af as int == spec_after_fee(amount as int, p@.fee_bps));
    if rin == 0 || rout == 0 {
        return (0, 0);
    }
    let (out128, ideal128): (u128, u128) = match p.curve {
        Curve::ConstantProduct => {
            proof {
                assert((rout as int) * (af as int) <= (u64::MAX as int) * (u64::MAX as int))
                    by (nonlinear_arith)
                    requires
                        0 <= rout as int <= u64::MAX as int,
                        0 <= af as int <= u64::MAX as int,
                ;
            }
            ((rout as u128) * af / ((rin as u128) + af), (rout as u128) * af / (rin as u128))
        },
        Curve::StableSwap => {
            let o: u128 = if af <= rout as u128 {
                af
            } else {
                rout as u128
            };
            (o, af)
        },
    };
    assert(out128 as int == spec_swap_out(p@, a_to_b, amount as int));
    assert(ideal128 as int == spec_ideal_out(p@, a_to_b, amount as int));
    let out: u64 = out128 as u64;
    let impact: u64 = if ideal128 == 0 {
        0
    } else {
        proof {
            assert((out128 as int) * (FEE_DENOM as int) <= (u64::MAX as int) * (FEE_DENOM as int))
                by (nonlinear_arith)
                requires
                    0 <= out128 as int <= u64::MAX as int,
            ;
        }
        (FEE_DENOM as u128 - (out128 * (FEE_DENOM as u128)) / ideal128) as u64
    };
    (out, impact)
}

} // verus!
