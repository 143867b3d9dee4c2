//! One configuration run of the pipeline, in the strict stage order:
//! build the market graph, enumerate the candidate cycles, price each one,
//! rank and select the best K, and tag the selection with the
//! configuration's name and timestamp.
//!
//! Failures stay path-local: a path whose pricing overflows is discarded
//! — exactly that path, sibling paths proceed — and only an empty token
//! set is a configuration error.

use vstd::prelude::*;
use crate::types::{
    addrs_view, bytes_view, copy_bytes, hops_view, impacts_view, pools_view, results_view,
    ArbError, Hop, HopData, Pool, PoolData, ResultData, SwapPathSelected, TokenInArb,
};
use crate::graph::{build_market_graph, spec_edges_of, spec_pools_wf};
use crate::paths::{enumerate_paths, paths_view, spec_enumerate};
use crate::pricing::{
    price_path, spec_impacts, spec_out_amount, spec_price_overflows, spec_profit_bps, spec_sum,
};
use crate::selector::{select_best_paths, spec_select};

verus! {

/// The symbols of a token list.
pub open spec fn syms_view(ts: Seq<TokenInArb>) -> Seq<Seq<u8>> {
    ts.map_values(|t: TokenInArb| t.symbol@)
}

/// A configuration's strategy name: its token symbols joined with `-`.
pub open spec fn spec_strategy_name(syms: Seq<Seq<u8>>) -> Seq<u8>
    decreases syms.len(),
{
    if syms.len() == 0 {
        Seq::empty()
    } else if syms.len() == 1 {
        syms[0]
    } else {
        spec_strategy_name(syms.drop_last()) + seq![0x2Du8] + syms.last()
    }
}

/// What pricing one enumerated path yields when it neither exceeds the
/// design's hop bound nor overflows.
pub open spec fn spec_result_of(
    pools: Seq<PoolData>,
    hops: Seq<HopData>,
    amount: int,
    ord: int,
) -> ResultData {
    let out = spec_out_amount(pools, hops, amount);
    let imps = spec_impacts(pools, hops, amount);
    ResultData {
        hops,
        amount_in: amount,
        amount_out: out,
        profit: out - amount,
        profit_bps: spec_profit_bps(amount, out),
        hop_impacts: imps,
        total_impact_bps: spec_sum(imps),
        order: ord,
    }
}

/// The priced candidates of an enumeration, in enumeration order, each
/// carrying its enumeration position: every path whose simulation does
/// not overflow appears priced, and exactly the overflowing ones are
/// dropped, siblings unaffected.  The hop-bound guard never bites on an
/// enumerated path — every enumerated cycle holds two or three hops
/// ([`crate::paths::lemma_enumerate_path_bounds`]) — it only keeps this
/// function total on arbitrary path lists.
pub open spec fn spec_priced(pools: Seq<PoolData>, paths: Seq<Seq<HopData>>, amount: int) -> Seq<
    ResultData,
>
    decreases paths.len(),
{
    if paths.len() == 0 {
        Seq::empty()
    } else {
        spec_priced(pools, paths.drop_last(), amount) + if paths.last().len() <= 3
            && !spec_price_overflows(pools, paths.last(), amount) {
            seq![spec_result_of(pools, paths.last(), amount, paths.len() - 1)]
        } else {
            Seq::empty()
        }
    }
}

/// Joins token symbols into the configuration's strategy name.
fn strategy_name(tokens: &Vec<TokenInArb>) -> (r: Vec<u8>)
    ensures
        r@ == spec_strategy_name(syms_view(tokens@)),
{
    let ghost sv = syms_view(tokens@);
    let mut r: Vec<u8> = Vec::new();
    let n = tokens.len();
    let mut i: usize = 0;
    proof {
        assert(sv.take(0) =~= Seq::<Seq<u8>>::empty());
        assert(r@ =~= spec_strategy_name(sv.take(0)));
    }
    while i < n
        invariant
            n == tokens.len(),
            0 <= i <= n,
            sv == syms_view(tokens@),
            r@ == spec_strategy_name(sv.take(i as int)),
        decreases n - i,
    {
        let ghost before = r@;
        if i > 0 {
            r.push(0x2D);
        }
        let sym = copy_bytes(&tokens[i].symbol);
        let m = sym.len();
        let mut j: usize = 0;
        while j < m
            invariant
                m == sym.len(),
                0 <= j <= m,
                r@ == if i > 0 {
                    before + seq![0x2Du8] + sym@.take(j as int)
                } else {
                    before + sym@.take(j as int)
                },
            decreases m - j,
        {
            r.push(sym[j]);
            proof {
                assert(sym@.take(j + 1) =~= sym@.take(j as int).push(sym@[j as int]));
                if i > 0 {
                    assert((before + seq![0x2Du8] + sym@.take(j as int)).push(sym@[j as int]) =~=
                        before + seq![0x2Du8] + sym@.take(j + 1));
                } else {
                    assert((before + sym@.take(j as int)).push(sym@[j as int]) =~= before
                        + sym@.take(j + 1));
                }
            }
            j += 1;
        }
        proof {
            assert(sym@.take(m as int) =~= sym@);
            assert(sym@ == sv[i as int]);
            assert(sv.take(i + 1).drop_last() =~= sv.take(i as int));
            assert(sv.take(i + 1).last() == sv[i as int]);
            if i == 0 {
                assert(r@ =~= spec_strategy_name(sv.take(1)));
            } else {
                assert(r@ =~= spec_strategy_name(sv.take(i + 1)));
            }
        }
        i += 1;
    }
    proof {
        assert(sv.take(n as int) =~= sv);
    }
    r
}

/// Runs one token configuration through the whole discovery pipeline:
/// graph, enumeration, pricing, selection.  `tokens_to_arb[0]` is the
/// base token.  An empty token set is the one configuration error; a path
/// whose pricing overflows is discarded while its siblings proceed; the
/// selection is exactly the ranked top `numbers_of_best_paths` of the
/// priced candidates.
pub fn run_arbitrage_strategy(
    simulation_amount: u64,
    include_1hop: bool,
    include_2hop: bool,
    numbers_of_best_paths: usize,
    restrict: bool,
    allowed: &Vec<u64>,
    pools: Vec<Pool>,
    tokens_to_arb: &Vec<TokenInArb>,
    bridge: &Vec<Vec<u8>>,
    timestamp: u64,
) -> (r: Result<SwapPathSelected, ArbError>)
    requires
        spec_pools_wf(pools_view(pools@)),
    ensures
        r is Err <==> tokens_to_arb@.len() == 0,
        r is Err ==> r->Err_0 == ArbError::InputError,
        r is Ok ==> ({
            let sel = r->Ok_0@;
            let pv = pools_view(pools@);
            let candidates = spec_enumerate(
                pv,
                spec_edges_of(pv),
                tokens_to_arb@[0].address@,
                addrs_view(tokens_to_arb@.skip(1)),
                addrs_view(tokens_to_arb@.skip(1)) + bytes_view(bridge@),
                include_1hop,
                include_2hop,
            );
            &&& sel.name == spec_strategy_name(syms_view(tokens_to_arb@))
            &&& sel.timestamp == timestamp as int
            &&& sel.paths == spec_select(
                spec_priced(pv, candidates, simulation_amount as int),
                numbers_of_best_paths as int,
                restrict,
                impacts_view(allowed@),
            )
        }),
{
    if tokens_to_arb.len() == 0 {
        return Err(ArbError::InputError);
    }
    let ghost pv = pools_view(pools@);
    let graph = build_market_graph(pools);
    let cycles = enumerate_paths(&graph, tokens_to_arb, include_1hop, include_2hop, bridge);
    let ghost candidates = paths_view(cycles@);
    let n = cycles.len();
    let mut results: Vec<crate::types::SwapPathResult> = Vec::new();
    let mut i: usize = 0;
    proof {
        assert(candidates.take(0) =~= Seq::<Seq<HopData>>::empty());
        assert(results_view(results@) =~= spec_priced(pv, candidates.take(0), simulation_amount as int));
    }
    while i < n
        invariant
            n == cycles.len(),
            0 <= i <= n,
            candidates == paths_view(cycles@),
            pv == pools_view(graph.pools@),
            spec_pools_wf(pools_view(graph.pools@)),
            results_view(results@) == spec_priced(
                pv,
                candidates.take(i as int),
                simulation_amount as int,
            ),
        decreases n - i,
    {
        let ghost before = results_view(results@);
        if cycles[i].len() <= 3 {
            proof {
                assert(candidates[i as int] == hops_view(cycles@[i as int]@));
            }
            match price_path(&graph.pools, &cycles[i], simulation_amount, i as u64) {
                Ok(res) => {
                    results.push(res);
                    proof {
                        assert(results_view(results@) =~= before + seq![
                            spec_result_of(
                                pv,
                                candidates[i as int],
                                simulation_amount as int,
                                i as int,
                            ),
                        ]);
                    }
                },
                Err(_) => {
                    // Numeric overflow on this path alone: discard it and
                    // carry on with its siblings.
                },
            }
        }
        proof {
            assert(candidates.take(i + 1).drop_last() =~= candidates.take(i as int));
            assert(candidates.take(i + 1).last() == candidates[i as int]);
            if !(candidates[i as int].len() <= 3 && !spec_price_overflows(
                pv,
                candidates[i as int],
                simulation_amount as int,
            )) {
                assert(results_view(results@) =~= before + Seq::<ResultData>::empty());
            }
        }
        i += 1;
    }
    proof {
        assert(candidates.take(n as int) =~= candidates);
    }
    let best = select_best_paths(results, numbers_of_best_paths, restrict, allowed);
    let name = strategy_name(tokens_to_arb);
    Ok(SwapPathSelected { name, timestamp, paths: best })
}

} // verus!
