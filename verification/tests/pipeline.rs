use mev_bot_solana::aggregate::{aggregate, aggregate_name};
use mev_bot_solana::config::Config;
use mev_bot_solana::feed::{decode_binary_payload, decode_text_payload};
use mev_bot_solana::graph::build_market_graph;
use mev_bot_solana::handoff::{validate_handoff, ChainType, RejectReason, SendOrSimulate};
use mev_bot_solana::math::price_hop;
use mev_bot_solana::monitor::{Monitor, PathState, Thresholds};
use mev_bot_solana::paths::enumerate_paths;
use mev_bot_solana::pricing::price_path;
use mev_bot_solana::selector::select_best_paths;
use mev_bot_solana::strategies::run_arbitrage_strategy;
use mev_bot_solana::codec::{parse_selection, serialize_selection};
use mev_bot_solana::types::{
    ArbError, Curve, Hop, Pool, SwapPath, SwapPathResult, SwapPathSelected, TokenInArb,
    VecSwapPathSelected,
};

fn pool(id: u64, ta: &str, tb: &str, ra: u64, rb: u64, fee: u64) -> Pool {
    Pool {
        id,
        token_a: ta.as_bytes().to_vec(),
        token_b: tb.as_bytes().to_vec(),
        reserve_a: ra,
        reserve_b: rb,
        fee_bps: fee,
        curve: Curve::ConstantProduct,
    }
}

fn tok(addr: &str, sym: &str) -> TokenInArb {
    TokenInArb { address: addr.as_bytes().to_vec(), symbol: sym.as_bytes().to_vec() }
}

fn price(pools: &Vec<Pool>, hops: Vec<Hop>, amount: u64, order: u64) -> SwapPathResult {
    price_path(pools, &hops, amount, order).expect("pricing should not overflow")
}

#[test]
fn graph_edges_match_funded_pools() {
    let pools = vec![pool(1, "SOL", "X", 100, 100, 30), pool(2, "SOL", "X", 0, 100, 30)];
    let g = build_market_graph(pools);
    // Only the funded pool contributes edges, one per direction.
    assert_eq!(g.edges.len(), 2);
    assert_eq!(g.edges[0].pool_idx, 0);
    assert!(g.edges[0].a_to_b);
    assert_eq!(g.edges[1].pool_idx, 0);
    assert!(!g.edges[1].a_to_b);
}

#[test]
fn empty_pool_set_gives_empty_graph() {
    let g = build_market_graph(Vec::new());
    assert_eq!(g.pools.len(), 0);
    assert_eq!(g.edges.len(), 0);
}

#[test]
fn one_hop_pricing_is_self_inverse_with_zero_fee_equal_reserves() {
    // One pool, equal reserves, zero fee: swapping 100 in and straight
    // back returns exactly 100.
    let pools = vec![pool(7, "SOL", "X", 100, 100, 0)];
    let hops = vec![Hop { pool_id: 7, a_to_b: true }, Hop { pool_id: 7, a_to_b: false }];
    let r = price(&pools, hops, 100, 0);
    assert_eq!(r.amount_out, 100);
    assert_eq!(r.profit, 0);
}

#[test]
fn pricing_applies_curve_and_fee_exactly() {
    // 30 bps fee on 1_000 in: 997 effective; out = 100_000*997/(100_000+997) = 987.
    let pools = vec![pool(1, "SOL", "X", 100_000, 100_000, 30)];
    let hops = vec![Hop { pool_id: 1, a_to_b: true }];
    let r = price(&pools, hops, 1_000, 0);
    assert_eq!(r.amount_out, 987);
}

#[test]
fn zero_reserve_hop_prices_to_zero_output() {
    let mut p = pool(1, "SOL", "X", 0, 100, 0);
    p.reserve_a = 0;
    let pools = vec![p];
    let hops = vec![Hop { pool_id: 1, a_to_b: true }];
    let r = price(&pools, hops, 50, 0);
    assert_eq!(r.amount_out, 0);
}

#[test]
fn reserve_overflow_discards_path_with_numeric_overflow() {
    let pools = vec![pool(1, "SOL", "X", u64::MAX - 5, 100, 0)];
    let hops = vec![Hop { pool_id: 1, a_to_b: true }];
    let e = price_path(&pools, &hops, 100, 0).unwrap_err();
    assert_eq!(e, ArbError::NumericOverflow);
}

#[test]
fn selector_is_idempotent_on_its_own_output() {
    let pools = vec![
        pool(1, "SOL", "X", 100_000, 110_000, 0),
        pool(2, "SOL", "X", 100_000, 90_000, 0),
        pool(3, "SOL", "X", 100_000, 130_000, 0),
    ];
    let mk = |id: u64, order: u64| {
        price(&pools, vec![Hop { pool_id: id, a_to_b: true }], 1_000, order)
    };
    let results = vec![mk(1, 0), mk(2, 1), mk(3, 2)];
    let again = vec![mk(1, 0), mk(2, 1), mk(3, 2)];
    let first = select_best_paths(results, 2, false, &Vec::new());
    let orders: Vec<u64> = first.iter().map(|r| r.order).collect();
    let second = select_best_paths(again, 2, false, &Vec::new());
    let mut copies = Vec::new();
    for r in second.iter() {
        copies.push(mev_bot_solana::types::copy_result(r));
    }
    let third = select_best_paths(copies, 2, false, &Vec::new());
    let orders2: Vec<u64> = third.iter().map(|r| r.order).collect();
    assert_eq!(orders, vec![2, 0]);
    assert_eq!(orders, orders2);
}

#[test]
fn selector_caps_but_never_pads() {
    // Exactly 3 base/target pools: exactly 3 one-hop cycles, one out and
    // back through each pool; a cap of 4 never invents a 4th.
    let pools = vec![
        pool(1, "SOL", "X", 100_000, 110_000, 0),
        pool(2, "SOL", "X", 100_000, 120_000, 0),
        pool(3, "SOL", "X", 100_000, 130_000, 0),
    ];
    let g = build_market_graph(pools);
    let tokens = vec![tok("SOL", "SOL"), tok("X", "TOKX")];
    let cycles = enumerate_paths(&g, &tokens, true, false, &Vec::new());
    assert_eq!(cycles.len(), 3);
    for c in cycles.iter() {
        assert_eq!(c.len(), 2);
        assert_eq!(c[0].pool_id, c[1].pool_id);
        assert_ne!(c[0].a_to_b, c[1].a_to_b);
    }
    let mut results = Vec::new();
    for (i, hops) in cycles.into_iter().enumerate() {
        results.push(price(&g.pools, hops, 1_000, i as u64));
    }
    let best = select_best_paths(results, 4, false, &Vec::new());
    assert_eq!(best.len(), 3);
    // Profit weakly descending.
    for w in best.windows(2) {
        assert!(w[0].profit >= w[1].profit);
    }
}

#[test]
fn end_to_end_configuration_selects_at_most_the_pool_count() {
    // The stated end-to-end scenario: {base=SOL, target=TOKEN_X,
    // 1hop=true, 2hop=false, K=4} over exactly 3 SOL/TOKEN_X pools.
    let pools = vec![
        pool(1, "SOL", "TOKX", 1_000_000, 1_100_000, 0),
        pool(2, "SOL", "TOKX", 1_000_000, 1_200_000, 0),
        pool(3, "SOL", "TOKX", 1_000_000, 1_300_000, 0),
    ];
    let tokens = vec![tok("SOL", "SOL"), tok("TOKX", "TOKEN_X")];
    let sel = run_arbitrage_strategy(
        1_000,
        true,
        false,
        4,
        false,
        &Vec::new(),
        pools,
        &tokens,
        &Vec::new(),
        7,
    )
    .expect("a nonempty token set runs");
    assert_eq!(sel.name, b"SOL-TOKEN_X".to_vec());
    assert_eq!(sel.timestamp, 7);
    assert_eq!(sel.paths.len(), 3);
    for w in sel.paths.windows(2) {
        assert!(w[0].profit >= w[1].profit);
    }
}

#[test]
fn empty_token_set_is_an_input_error() {
    let e = run_arbitrage_strategy(
        1_000,
        true,
        true,
        4,
        false,
        &Vec::new(),
        vec![pool(1, "SOL", "X", 100, 100, 0)],
        &Vec::new(),
        &Vec::new(),
        0,
    )
    .unwrap_err();
    assert_eq!(e, ArbError::InputError);
}

#[test]
fn leg_hops_come_out_by_ascending_pool_identity() {
    // Pools handed in out of identity order still enumerate by identity.
    let pools = vec![
        pool(9, "SOL", "X", 100_000, 110_000, 0),
        pool(2, "SOL", "X", 100_000, 120_000, 0),
        pool(5, "SOL", "X", 100_000, 130_000, 0),
    ];
    let g = build_market_graph(pools);
    let tokens = vec![tok("SOL", "SOL"), tok("X", "TOKX")];
    let cycles = enumerate_paths(&g, &tokens, true, false, &Vec::new());
    let ids: Vec<u64> = cycles.iter().map(|c| c[0].pool_id).collect();
    assert_eq!(ids, vec![2, 5, 9]);
}

fn sample_selected(name: &str, profit_pool: u64) -> SwapPathSelected {
    let pools = vec![pool(profit_pool, "SOL", "X", 100_000, 110_000, 25)];
    let r = price(&pools, vec![Hop { pool_id: profit_pool, a_to_b: true }], 1_000, 0);
    SwapPathSelected { name: name.as_bytes().to_vec(), timestamp: 11, paths: vec![r] }
}

#[test]
fn serialization_round_trips() {
    let v = VecSwapPathSelected {
        value: vec![sample_selected("SOL-SPIKE", 1), sample_selected("SOL-AMC", 2)],
    };
    let bytes = serialize_selection(&v);
    let back = parse_selection(&bytes).expect("canonical bytes parse");
    let bytes2 = serialize_selection(&back);
    assert_eq!(bytes, bytes2);
    assert_eq!(back.value.len(), 2);
    assert_eq!(back.value[0].name, b"SOL-SPIKE".to_vec());
    assert_eq!(back.value[0].timestamp, 11);
    assert_eq!(back.value[0].paths[0].amount_in, 1_000);
}

#[test]
fn malformed_selection_bytes_are_rejected() {
    assert!(parse_selection(&b"{\"value\":".to_vec()).is_none());
    assert!(parse_selection(&Vec::new()).is_none());
}

#[test]
fn aggregation_concatenates_in_order_and_is_associative() {
    let a = VecSwapPathSelected { value: vec![sample_selected("A", 1)] };
    let b = VecSwapPathSelected { value: vec![sample_selected("B", 2)] };
    let c = VecSwapPathSelected { value: vec![sample_selected("C", 3)] };
    let ab = aggregate(&vec![
        VecSwapPathSelected { value: vec![sample_selected("A", 1)] },
        VecSwapPathSelected { value: vec![sample_selected("B", 2)] },
    ]);
    let ab_c = aggregate(&vec![ab, VecSwapPathSelected { value: vec![sample_selected("C", 3)] }]);
    let bc = aggregate(&vec![
        VecSwapPathSelected { value: vec![sample_selected("B", 2)] },
        VecSwapPathSelected { value: vec![sample_selected("C", 3)] },
    ]);
    let a_bc = aggregate(&vec![VecSwapPathSelected { value: vec![sample_selected("A", 1)] }, bc]);
    assert_eq!(serialize_selection(&ab_c), serialize_selection(&a_bc));
    let names = aggregate_name(&ab_c);
    assert_eq!(names, b"A-B-C".to_vec());
    let _ = (a, b, c);
}

#[test]
fn monitor_threshold_scenario() {
    // A path with profit about 100 over a minimum of 50 turns Profitable;
    // an update that drops the output below the input turns it
    // Unprofitable within one update cycle.
    let pools = vec![pool(1, "SOL", "X", 1_000_000, 1_200_000, 0)];
    let r = price(&pools, vec![Hop { pool_id: 1, a_to_b: true }], 1_000, 0);
    assert!(r.profit >= 100);
    let sel = VecSwapPathSelected {
        value: vec![SwapPathSelected { name: b"S".to_vec(), timestamp: 0, paths: vec![r] }],
    };
    let th = Thresholds { min_profit: 50, max_impact_bps: 10_000, freshness_window: 10 };
    let mut m = Monitor::new(&sel, pools, th, 1_000);
    assert_eq!(m.entries[0].state, PathState::Stale);
    m.apply_update(mev_bot_solana::types::QuoteUpdate {
        pool_id: 1,
        reserve_a: 1_000_000,
        reserve_b: 1_200_000,
        timestamp: 1,
    });
    assert_eq!(m.entries[0].state, PathState::Repricing);
    m.reprice(1);
    assert_eq!(m.entries[0].state, PathState::Profitable);
    // Reserves collapse: output below input.
    m.apply_update(mev_bot_solana::types::QuoteUpdate {
        pool_id: 1,
        reserve_a: 1_000_000,
        reserve_b: 800_000,
        timestamp: 2,
    });
    m.reprice(2);
    assert_eq!(m.entries[0].state, PathState::Unprofitable);
    // Aging past the freshness window drops back to Stale.
    m.tick(50);
    assert_eq!(m.entries[0].state, PathState::Stale);
    let act = m.actionable();
    assert!(act.is_empty());
}

#[test]
fn handoff_revalidates_at_the_instant() {
    let pools = vec![pool(1, "SOL", "X", 1_000_000, 1_200_000, 0)];
    let r = price(&pools, vec![Hop { pool_id: 1, a_to_b: true }], 1_000, 0);
    let th = Thresholds { min_profit: 50, max_impact_bps: 10_000, freshness_window: 10 };
    let entry = mev_bot_solana::monitor::MonitorEntry {
        result: r,
        state: PathState::Profitable,
        last_priced: 1,
    };
    let ok = validate_handoff(&entry, &pools, 1_000, &th, ChainType::Mainnet, SendOrSimulate::Simulate);
    let req = ok.expect("fresh profitable path passes");
    assert_eq!(req.amount_in, 1_000);
    assert!(req.expected_out > 1_000);
    // Prices moved against the path between classification and handoff.
    let worse = vec![pool(1, "SOL", "X", 1_000_000, 800_000, 0)];
    let rej = validate_handoff(&entry, &worse, 1_000, &th, ChainType::Mainnet, SendOrSimulate::Send);
    assert_eq!(rej.unwrap_err(), RejectReason::BelowMinProfit);
    // A path not in Profitable state is refused outright.
    let stale = mev_bot_solana::monitor::MonitorEntry {
        result: mev_bot_solana::types::copy_result(&entry.result),
        state: PathState::Stale,
        last_priced: 1,
    };
    let rej2 = validate_handoff(&stale, &pools, 1_000, &th, ChainType::Mainnet, SendOrSimulate::Send);
    assert_eq!(rej2.unwrap_err(), RejectReason::NotProfitable);
}

#[test]
fn feed_payloads_decode_and_malformed_are_dropped() {
    let mut bin = Vec::new();
    for word in [5u64, 100, 200, 42] {
        bin.extend_from_slice(&word.to_be_bytes());
    }
    let q = decode_binary_payload(&bin).expect("well-formed binary payload");
    assert_eq!((q.pool_id, q.reserve_a, q.reserve_b, q.timestamp), (5, 100, 200, 42));
    assert!(decode_binary_payload(&bin[..31].to_vec()).is_none());
    let t = decode_text_payload(&b"5,100,200,42".to_vec()).expect("well-formed text payload");
    assert_eq!((t.pool_id, t.reserve_a, t.reserve_b, t.timestamp), (5, 100, 200, 42));
    assert!(decode_text_payload(&b"5,100,200,".to_vec()).is_none());
    assert!(decode_text_payload(&b"quote".to_vec()).is_none());
}

#[test]
fn config_keeps_credentials_verbatim() {
    let c = Config::new("SECRET-REDACTED".to_string(), "https://rpc.example".to_string());
    assert_eq!(c.private_key, "SECRET-REDACTED");
    assert_eq!(c.rpc_url, "https://rpc.example");
}

#[test]
fn two_hop_enumeration_respects_bridge_set() {
    let pools = vec![
        pool(1, "SOL", "USDC", 1_000, 1_000, 0),
        pool(2, "USDC", "X", 1_000, 1_000, 0),
        pool(3, "X", "SOL", 1_000, 1_000, 0),
    ];
    let g = build_market_graph(pools);
    let tokens = vec![tok("SOL", "SOL"), tok("X", "TOKX")];
    let none = enumerate_paths(&g, &tokens, false, true, &Vec::new());
    assert!(none.is_empty());
    let bridge = vec![b"USDC".to_vec()];
    let some = enumerate_paths(&g, &tokens, false, true, &bridge);
    assert_eq!(some.len(), 1);
    assert_eq!(some[0].len(), 3);
}
