//! Arbitrage discovery and decision pipeline for AMM liquidity pools.
//!
//! The library builds a tradable-market graph from pool reserve snapshots,
//! enumerates one- and two-hop swap cycles over it, prices them with exact
//! integer curve math, ranks and selects the most profitable ones, merges
//! selections from several token configurations, re-evaluates selected paths
//! against live quote updates, and validates opportunities at the moment of
//! execution handoff.  All stages are pure functions over immutable
//! snapshots; input/output sits outside the library.

pub mod config;
pub mod types;
pub mod math;
pub mod graph;
pub mod paths;
pub mod pricing;
pub mod selector;
pub mod strategies;
pub mod aggregate;
pub mod monitor;
pub mod handoff;
pub mod codec;
pub mod feed;
