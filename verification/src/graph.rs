//! Market graph builder: turns a flat collection of pool snapshots into a
//! token-adjacency graph.
//!
//! Every pool with both reserves funded becomes two directed edges, one per
//! swap direction; pools with an empty side are excluded.  Building is pure
//! and deterministic for a given pool set, and an empty pool collection
//! yields an empty graph, not an error.  The graph is read-only for the
//! duration of a pipeline run; a reserve refresh builds a new one.

use vstd::prelude::*;
use crate::types::{pools_view, Pool, PoolData};

verus! {

/// A directed edge: one traversal option through one pool.  Parallel pools
/// between the same token pair stay distinct edges.
#[derive(Clone, Copy, Debug)]
pub struct EdgeRef {
    /// Index of the pool in the graph's pool list.
    pub pool_idx: usize,
    /// Direction: `true` swaps `token_a` into `token_b`.
    pub a_to_b: bool,
}

/// Mathematical view of an [`EdgeRef`].
pub struct EdgeData {
    pub pool_idx: int,
    pub a_to_b: bool,
}

impl View for EdgeRef {
    type V = EdgeData;

    open spec fn view(&self) -> EdgeData {
        EdgeData { pool_idx: self.pool_idx as int, a_to_b: self.a_to_b }
    }
}

/// Nodes are tokens, edges are pools: the tradable-market graph one
/// pipeline run works over.
#[derive(Clone, Debug)]
pub struct MarketGraph {
    pub pools: Vec<Pool>,
    pub edges: Vec<EdgeRef>,
}

/// Mathematical view of a [`MarketGraph`].
pub struct GraphData {
    pub pools: Seq<PoolData>,
    pub edges: Seq<EdgeData>,
}

impl View for MarketGraph {
    type V = GraphData;

    open spec fn view(&self) -> GraphData {
        GraphData { pools: pools_view(self.pools@), edges: edges_view(self.edges@) }
    }
}

/// View of an edge list.
pub open spec fn edges_view(es: Seq<EdgeRef>) -> Seq<EdgeData> {
    es.map_values(|e: EdgeRef| e@)
}

/// Every pool in a collection is well formed.
pub open spec fn spec_pools_wf(pools: Seq<PoolData>) -> bool {
    forall|i: int| 0 <= i < pools.len() ==> (#[trigger] pools[i]).wf()
}

/// The edges a pool collection induces: for each pool with both reserves
/// funded, in pool order, the `a` to `b` edge and then the `b` to `a` edge.
pub open spec fn spec_edges_of(pools: Seq<PoolData>) -> Seq<EdgeData>
    decreases pools.len(),
{
    if pools.len() == 0 {
        Seq::empty()
    } else {
        let k = pools.len() - 1;
        spec_edges_of(pools.drop_last()) + if pools[k].tradable() {
            seq![
                EdgeData { pool_idx: k, a_to_b: true },
                EdgeData { pool_idx: k, a_to_b: false },
            ]
        } else {
            Seq::empty()
        }
    }
}

/// A graph is well formed when its edge list is exactly the one its pool
/// list induces and all pools are well formed.
pub open spec fn spec_graph_wf(g: GraphData) -> bool {
    &&& spec_pools_wf(g.pools)
    &&& g.edges == spec_edges_of(g.pools)
}

/// Every edge the builder emits corresponds to exactly one pool of the
/// input collection — the one its index names — and that pool has both
/// reserves nonzero; conversely every such pool contributes both of its
/// directed edges.
pub proof fn lemma_edges_correspond(pools: Seq<PoolData>)
    ensures
        forall|i: int| 0 <= i < spec_edges_of(pools).len() ==> {
            let e = #[trigger] spec_edges_of(pools)[i];
            &&& 0 <= e.pool_idx < pools.len()
            &&& pools[e.pool_idx].tradable()
        },
        forall|k: int| 0 <= k < pools.len() && (#[trigger] pools[k]).tradable() ==> {
            &&& spec_edges_of(pools).contains(EdgeData { pool_idx: k, a_to_b: true })
            &&& spec_edges_of(pools).contains(EdgeData { pool_idx: k, a_to_b: false })
        },
    decreases pools.len(),
{
    if pools.len() == 0 {
    } else {
        let k = pools.len() - 1;
        let prefix = pools.drop_last();
        lemma_edges_correspond(prefix);
        let pre = spec_edges_of(prefix);
        let whole = spec_edges_of(pools);
        assert(forall|i: int| 0 <= i < pre.len() ==> whole[i] == pre[i]);
        assert forall|j: int| 0 <= j < pools.len() && (#[trigger] pools[j]).tradable() implies {
            &&& whole.contains(EdgeData { pool_idx: j, a_to_b: true })
            &&& whole.contains(EdgeData { pool_idx: j, a_to_b: false })
        } by {
            let e1 = EdgeData { pool_idx: j, a_to_b: true };
            let e2 = EdgeData { pool_idx: j, a_to_b: false };
            if j < k {
                assert(prefix[j] == pools[j]);
                assert(pre.contains(e1));
                assert(pre.contains(e2));
                let i1 = choose|i: int| 0 <= i < pre.len() && pre[i] == e1;
                let i2 = choose|i: int| 0 <= i < pre.len() && pre[i] == e2;
                assert(whole[i1] == e1);
                assert(whole[i2] == e2);
            } else {
                assert(whole[pre.len() as int] == e1);
                assert(whole[pre.len() as int + 1] == e2);
            }
        }
    }
}

/// Builds the market graph for a pool snapshot collection.  Pure: the
/// result is a function of the pool list alone.
pub fn build_market_graph(pools: Vec<Pool>) -> (g: MarketGraph)
    ensures
        g@.pools == pools_view(pools@),
        g@.edges == spec_edges_of(g@.pools),
{
    let n = pools.len();
    let mut edges: Vec<EdgeRef> = Vec::new();
    let mut i: usize = 0;
    while i < n
        invariant
            n == pools.len(),
            0 <= i <= n,
            edges_view(edges@) == spec_edges_of(pools_view(pools@).take(i as int)),
        decreases n - i,
    {
        let ghost pview = pools_view(pools@);
        let ghost before = edges_view(edges@);
        if pools[i].reserve_a > 0 && pools[i].reserve_b > 0 {
            edges.push(EdgeRef { pool_idx: i, a_to_b: true });
            edges.push(EdgeRef { pool_idx: i, a_to_b: false });
        }
        proof {
            assert(pview.take(i + 1).drop_last() =~= pview.take(i as int));
            assert(pview.take(i + 1)[i as int] == pview[i as int]);
            if pview[i as int].tradable() {
                assert(edges_view(edges@) =~= before + seq![
                    EdgeData { pool_idx: i as int, a_to_b: true },
                    EdgeData { pool_idx: i as int, a_to_b: false },
                ]);
            } else {
                assert(edges_view(edges@) =~= before + Seq::<EdgeData>::empty());
            }
        }
        i += 1;
    }
    proof {
        assert(pools_view(pools@).take(n as int) =~= pools_view(pools@));
    }
    MarketGraph { pools, edges }
}

} // verus!
