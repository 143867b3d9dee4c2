//! Execution handoff: the last gate before a chosen opportunity is handed
//! to transaction construction.
//!
//! Classification and handoff are not atomic, so the profit and impact
//! thresholds are re-validated here against the current book at the
//! instant of handoff — mandatory, never skipped.  A rejection is
//! reported, not retried: replaying a stale opportunity risks more than a
//! missed one.

use vstd::prelude::*;
use crate::types::{copy_hops, hops_view, pools_view, Hop, Pool};
use crate::graph::spec_pools_wf;
use crate::monitor::{spec_classify, MonitorEntry, PathState, Thresholds};
use crate::pricing::{
    price_path, spec_impacts, spec_out_amount, spec_price_overflows, spec_sum,
};

verus! {

/// Which chain a transaction is built for.
#[derive(Clone, Copy, PartialEq, Eq, Structural, Debug)]
pub enum ChainType {
    Mainnet,
    Devnet,
}

/// Whether the transaction collaborator should simulate or send.
#[derive(Clone, Copy, PartialEq, Eq, Structural, Debug)]
pub enum SendOrSimulate {
    Simulate,
    Send,
}

/// A validated opportunity, ready for the transaction-construction
/// collaborator.
#[derive(Clone, Debug)]
pub struct ExecutionRequest {
    pub hops: Vec<Hop>,
    pub amount_in: u64,
    pub expected_out: u64,
    pub chain: ChainType,
    pub mode: SendOrSimulate,
}

/// Why a handoff was refused.
#[derive(Clone, Copy, PartialEq, Eq, Structural, Debug)]
pub enum RejectReason {
    /// The path was not classified `Profitable` when handed in.
    NotProfitable,
    /// Repricing at handoff time overflowed; the opportunity is discarded.
    PricingOverflow,
    /// Fresh profit no longer exceeds the minimum threshold.
    BelowMinProfit,
    /// Fresh aggregate price impact exceeds the cap.
    ImpactTooHigh,
}

/// Validates one monitored path for execution.  The path must stand in
/// `Profitable` state and must clear both thresholds when re-priced
/// against the current book; the request then carries the fresh expected
/// output.  Each rejection names its exact cause, and comes exactly when
/// that cause holds.
pub fn validate_handoff(
    entry: &MonitorEntry,
    pools: &Vec<Pool>,
    amount_in: u64,
    thresholds: &Thresholds,
    chain: ChainType,
    mode: SendOrSimulate,
) -> (r: Result<ExecutionRequest, RejectReason>)
    requires
        spec_pools_wf(pools_view(pools@)),
        entry@.result.hops.len() <= 3,
    ensures
        ({
            let pv = pools_view(pools@);
            let hv = entry@.result.hops;
            let overflow = spec_price_overflows(pv, hv, amount_in as int);
            let out = spec_out_amount(pv, hv, amount_in as int);
            let impact = spec_sum(spec_impacts(pv, hv, amount_in as int));
            match r {
                Ok(req) => {
                    &&& entry@.state == PathState::Profitable
                    &&& !overflow
                    &&& spec_classify(out - amount_in as int, impact, *thresholds)
                        == PathState::Profitable
                    &&& hops_view(req.hops@) == hv
                    &&& req.amount_in == amount_in
                    &&& req.expected_out as int == out
                    &&& req.chain == chain
                    &&& req.mode == mode
                },
                Err(RejectReason::NotProfitable) => entry@.state != PathState::Profitable,
                Err(RejectReason::PricingOverflow) => entry@.state == PathState::Profitable
                    && overflow,
                Err(RejectReason::BelowMinProfit) => {
                    &&& entry@.state == PathState::Profitable
                    &&& !overflow
                    &&& out - amount_in as int <= thresholds.min_profit
                },
                Err(RejectReason::ImpactTooHigh) => {
                    &&& entry@.state == PathState::Profitable
                    &&& !overflow
                    &&& out - amount_in as int > thresholds.min_profit
                    &&& impact > thresholds.max_impact_bps
                },
            }
        }),
{
    if !(entry.state == PathState::Profitable) {
        return Err(RejectReason::NotProfitable);
    }
    proof {
        assert(entry@.result.hops == hops_view(entry.result.path.hops@));
    }
    let fresh = price_path(pools, &entry.result.path.hops, amount_in, entry.result.order);
    match fresh {
        Err(_) => Err(RejectReason::PricingOverflow),
        Ok(res) => {
            if !(res.profit > thresholds.min_profit) {
                Err(RejectReason::BelowMinProfit)
            } else if !(res.total_impact_bps <= thresholds.max_impact_bps) {
                Err(RejectReason::ImpactTooHigh)
            } else {
                let hops = copy_hops(&entry.result.path.hops);
                Ok(
                    ExecutionRequest {
                        hops,
                        amount_in,
                        expected_out: res.amount_out,
                        chain,
                        mode,
                    },
                )
            }
        },
    }
}

} // verus!
