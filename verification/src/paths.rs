//! Path enumerator: all distinct one- and two-hop swap cycles over the
//! market graph for a requested token configuration.
//!
//! A one-hop cycle is direct pair arbitrage through one pool: base to
//! target and straight back through that same pool, so a set of pools
//! between the pair yields exactly one cycle per both-funded pool.  A
//! two-hop cycle goes base to intermediate to target and back; here every
//! combination of one pool per leg is a distinct cycle (the cross product
//! of the three leg lists), with intermediates restricted to the target
//! set plus an explicit bridging set to bound the blow-up.  Parallel pools
//! between the same token pair each produce a distinct path.  Paths come
//! out in a fixed order — token pair first, then ascending pool identity
//! within each leg — so repeated runs over identical input are
//! reproducible.

use vstd::prelude::*;
use crate::types::{
    addrs_view, bytes_eq, bytes_view, copy_bytes, copy_hops, hops_view, Hop, HopData, PoolData,
    TokenInArb,
};
use crate::graph::{EdgeData, MarketGraph};

verus! {

/// View of a list of hop lists.
pub open spec fn paths_view(ps: Seq<Vec<Hop>>) -> Seq<Seq<HopData>> {
    ps.map_values(|p: Vec<Hop>| hops_view(p@))
}

/// Address of the token an edge consumes.
pub open spec fn spec_edge_token_in(pools: Seq<PoolData>, e: EdgeData) -> Seq<u8> {
    if e.a_to_b {
        pools[e.pool_idx].token_a
    } else {
        pools[e.pool_idx].token_b
    }
}

/// Address of the token an edge produces.
pub open spec fn spec_edge_token_out(pools: Seq<PoolData>, e: EdgeData) -> Seq<u8> {
    if e.a_to_b {
        pools[e.pool_idx].token_b
    } else {
        pools[e.pool_idx].token_a
    }
}

/// Whether an edge trades `from` into `to`.
pub open spec fn spec_edge_matches(
    pools: Seq<PoolData>,
    e: EdgeData,
    from: Seq<u8>,
    to: Seq<u8>,
) -> bool {
    &&& 0 <= e.pool_idx < pools.len()
    &&& spec_edge_token_in(pools, e) == from
    &&& spec_edge_token_out(pools, e) == to
}

/// The hop an edge stands for: the pool's stable identity plus the
/// direction.
pub open spec fn spec_hop_of(pools: Seq<PoolData>, e: EdgeData) -> HopData {
    HopData { pool_id: pools[e.pool_idx].id, a_to_b: e.a_to_b }
}

/// The hops, in edge order, that trade `from` into `to`.
pub open spec fn spec_hops_between(
    pools: Seq<PoolData>,
    edges: Seq<EdgeData>,
    from: Seq<u8>,
    to: Seq<u8>,
) -> Seq<HopData>
    decreases edges.len(),
{
    if edges.len() == 0 {
        Seq::empty()
    } else {
        spec_hops_between(pools, edges.drop_last(), from, to) + if spec_edge_matches(
            pools,
            edges.last(),
            from,
            to,
        ) {
            seq![spec_hop_of(pools, edges.last())]
        } else {
            Seq::empty()
        }
    }
}

/// Inserts a hop into a list sorted by ascending pool identity.
pub open spec fn spec_insert_hop(x: HopData, s: Seq<HopData>) -> Seq<HopData>
    decreases s.len(),
{
    if s.len() == 0 {
        seq![x]
    } else if x.pool_id < s[0].pool_id {
        seq![x] + s
    } else {
        seq![s[0]] + spec_insert_hop(x, s.skip(1))
    }
}

/// Sorts a hop list by ascending pool identity.
pub open spec fn spec_sort_hops(s: Seq<HopData>) -> Seq<HopData>
    decreases s.len(),
{
    if s.len() == 0 {
        Seq::empty()
    } else {
        spec_insert_hop(s[0], spec_sort_hops(s.skip(1)))
    }
}

/// One leg of a cycle: the hops trading `from` into `to`, ordered by pool
/// identity (the venue-stable secondary key of the enumeration order).
pub open spec fn spec_leg(
    pools: Seq<PoolData>,
    edges: Seq<EdgeData>,
    from: Seq<u8>,
    to: Seq<u8>,
) -> Seq<HopData> {
    spec_sort_hops(spec_hops_between(pools, edges, from, to))
}

/// The same hop, traversed the other way.
pub open spec fn spec_flip(h: HopData) -> HopData {
    HopData { pool_id: h.pool_id, a_to_b: !h.a_to_b }
}

/// One out-and-back cycle per hop: the one-hop enumeration rule.
pub open spec fn spec_out_and_back(hs: Seq<HopData>) -> Seq<Seq<HopData>>
    decreases hs.len(),
{
    if hs.len() == 0 {
        Seq::empty()
    } else {
        spec_out_and_back(hs.drop_last()) + seq![seq![hs.last(), spec_flip(hs.last())]]
    }
}

/// One partial path extended by every hop of `hs`, in hop order.
pub open spec fn spec_append_all(p: Seq<HopData>, hs: Seq<HopData>) -> Seq<Seq<HopData>>
    decreases hs.len(),
{
    if hs.len() == 0 {
        Seq::empty()
    } else {
        spec_append_all(p, hs.drop_last()) + seq![p.push(hs.last())]
    }
}

/// One cross-product step of the enumeration: partial paths outer, hops
/// inner.
pub open spec fn spec_cross_add(ps: Seq<Seq<HopData>>, hs: Seq<HopData>) -> Seq<Seq<HopData>>
    decreases ps.len(),
{
    if ps.len() == 0 {
        Seq::empty()
    } else {
        spec_cross_add(ps.drop_last(), hs) + spec_append_all(ps.last(), hs)
    }
}

/// All one-hop cycles base -> target -> base for one target: exactly one
/// cycle per both-funded pool between the pair, out and back through that
/// same pool.
pub open spec fn spec_1hop_one(
    pools: Seq<PoolData>,
    edges: Seq<EdgeData>,
    base: Seq<u8>,
    target: Seq<u8>,
) -> Seq<Seq<HopData>> {
    if target == base {
        Seq::empty()
    } else {
        spec_out_and_back(spec_leg(pools, edges, base, target))
    }
}

/// All two-hop cycles base -> mid -> target -> base for one target and one
/// intermediate: every combination of one pool per leg — the full cross
/// product of the three leg lists, since each leg crosses a different
/// token pair and any pool of one leg composes with any pool of the next.
pub open spec fn spec_2hop_one(
    pools: Seq<PoolData>,
    edges: Seq<EdgeData>,
    base: Seq<u8>,
    mid: Seq<u8>,
    target: Seq<u8>,
) -> Seq<Seq<HopData>> {
    if mid == base || target == base || mid == target {
        Seq::empty()
    } else {
        spec_cross_add(
            spec_cross_add(
                spec_cross_add(seq![Seq::empty()], spec_leg(pools, edges, base, mid)),
                spec_leg(pools, edges, mid, target),
            ),
            spec_leg(pools, edges, target, base),
        )
    }
}

/// Two-hop cycles for one target, over all intermediates in order.
pub open spec fn spec_2hop_mids(
    pools: Seq<PoolData>,
    edges: Seq<EdgeData>,
    base: Seq<u8>,
    mids: Seq<Seq<u8>>,
    target: Seq<u8>,
) -> Seq<Seq<HopData>>
    decreases mids.len(),
{
    if mids.len() == 0 {
        Seq::empty()
    } else {
        spec_2hop_mids(pools, edges, base, mids.drop_last(), target) + spec_2hop_one(
            pools,
            edges,
            base,
            mids.last(),
            target,
        )
    }
}

/// One-hop cycles over all targets in order.
pub open spec fn spec_1hop_all(
    pools: Seq<PoolData>,
    edges: Seq<EdgeData>,
    base: Seq<u8>,
    targets: Seq<Seq<u8>>,
) -> Seq<Seq<HopData>>
    decreases targets.len(),
{
    if targets.len() == 0 {
        Seq::empty()
    } else {
        spec_1hop_all(pools, edges, base, targets.drop_last()) + spec_1hop_one(
            pools,
            edges,
            base,
            targets.last(),
        )
    }
}

/// Two-hop cycles over all targets in order.
pub open spec fn spec_2hop_all(
    pools: Seq<PoolData>,
    edges: Seq<EdgeData>,
    base: Seq<u8>,
    mids: Seq<Seq<u8>>,
    targets: Seq<Seq<u8>>,
) -> Seq<Seq<HopData>>
    decreases targets.len(),
{
    if targets.len() == 0 {
        Seq::empty()
    } else {
        spec_2hop_all(pools, edges, base, mids, targets.drop_last()) + spec_2hop_mids(
            pools,
            edges,
            base,
            mids,
            targets.last(),
        )
    }
}

/// The whole enumeration: one-hop cycles first (when asked for), then
/// two-hop cycles (when asked for), each block in target order.
pub open spec fn spec_enumerate(
    pools: Seq<PoolData>,
    edges: Seq<EdgeData>,
    base: Seq<u8>,
    targets: Seq<Seq<u8>>,
    mids: Seq<Seq<u8>>,
    include_1hop: bool,
    include_2hop: bool,
) -> Seq<Seq<HopData>> {
    (if include_1hop {
        spec_1hop_all(pools, edges, base, targets)
    } else {
        Seq::empty()
    }) + (if include_2hop {
        spec_2hop_all(pools, edges, base, mids, targets)
    } else {
        Seq::empty()
    })
}


/// Every one-hop cycle has exactly two hops.
proof fn lemma_out_and_back_len(hs: Seq<HopData>)
    ensures
        forall|k: int|
            0 <= k < spec_out_and_back(hs).len() ==> (#[trigger] spec_out_and_back(
                hs,
            )[k]).len() == 2,
    decreases hs.len(),
{
    if hs.len() == 0 {
    } else {
        lemma_out_and_back_len(hs.drop_last());
        let whole = spec_out_and_back(hs);
        let pre = spec_out_and_back(hs.drop_last());
        assert(forall|k: int| 0 <= k < pre.len() ==> whole[k] == pre[k]);
        assert(whole[whole.len() - 1].len() == 2);
    }
}

/// Extending partial paths of one length gives paths one hop longer.
proof fn lemma_append_all_len(p: Seq<HopData>, hs: Seq<HopData>, n: int)
    requires
        p.len() == n,
    ensures
        forall|k: int|
            0 <= k < spec_append_all(p, hs).len() ==> (#[trigger] spec_append_all(
                p,
                hs,
            )[k]).len() == n + 1,
    decreases hs.len(),
{
    if hs.len() == 0 {
    } else {
        lemma_append_all_len(p, hs.drop_last(), n);
        let whole = spec_append_all(p, hs);
        let pre = spec_append_all(p, hs.drop_last());
        assert(forall|k: int| 0 <= k < pre.len() ==> whole[k] == pre[k]);
        assert(whole[whole.len() - 1].len() == n + 1);
    }
}

/// One cross-product step lengthens every path by one hop.
proof fn lemma_cross_add_len(ps: Seq<Seq<HopData>>, hs: Seq<HopData>, n: int)
    requires
        forall|k: int| 0 <= k < ps.len() ==> (#[trigger] ps[k]).len() == n,
    ensures
        forall|k: int|
            0 <= k < spec_cross_add(ps, hs).len() ==> (#[trigger] spec_cross_add(
                ps,
                hs,
            )[k]).len() == n + 1,
    decreases ps.len(),
{
    if ps.len() == 0 {
    } else {
        lemma_cross_add_len(ps.drop_last(), hs, n);
        lemma_append_all_len(ps.last(), hs, n);
        let whole = spec_cross_add(ps, hs);
        let pre = spec_cross_add(ps.drop_last(), hs);
        let block = spec_append_all(ps.last(), hs);
        assert(forall|k: int| 0 <= k < pre.len() ==> whole[k] == pre[k]);
        assert(forall|k: int| 0 <= k < block.len() ==> whole[pre.len() + k] == block[k]);
        assert forall|k: int| 0 <= k < whole.len() implies (#[trigger] whole[k]).len() == n
            + 1 by {
            if k < pre.len() {
            } else {
                assert(whole[k] == block[k - pre.len()]);
            }
        }
    }
}

/// Every two-hop cycle has exactly three hops.
proof fn lemma_2hop_one_len(
    pools: Seq<PoolData>,
    edges: Seq<EdgeData>,
    base: Seq<u8>,
    mid: Seq<u8>,
    target: Seq<u8>,
)
    ensures
        forall|k: int|
            0 <= k < spec_2hop_one(pools, edges, base, mid, target).len() ==> (
            #[trigger] spec_2hop_one(pools, edges, base, mid, target)[k]).len() == 3,
{
    if mid == base || target == base || mid == target {
    } else {
        let start: Seq<Seq<HopData>> = seq![Seq::empty()];
        assert(forall|k: int| 0 <= k < start.len() ==> (#[trigger] start[k]).len() == 0);
        let s1 = spec_cross_add(start, spec_leg(pools, edges, base, mid));
        lemma_cross_add_len(start, spec_leg(pools, edges, base, mid), 0);
        let s2 = spec_cross_add(s1, spec_leg(pools, edges, mid, target));
        lemma_cross_add_len(s1, spec_leg(pools, edges, mid, target), 1);
        lemma_cross_add_len(s2, spec_leg(pools, edges, target, base), 2);
    }
}

/// Concatenating path blocks keeps a per-path hop bound.
proof fn lemma_concat_bound(a: Seq<Seq<HopData>>, b: Seq<Seq<HopData>>)
    requires
        forall|k: int| 0 <= k < a.len() ==> 2 <= (#[trigger] a[k]).len() <= 3,
        forall|k: int| 0 <= k < b.len() ==> 2 <= (#[trigger] b[k]).len() <= 3,
    ensures
        forall|k: int| 0 <= k < (a + b).len() ==> 2 <= (#[trigger] (a + b)[k]).len() <= 3,
{
    assert forall|k: int| 0 <= k < (a + b).len() implies 2 <= (#[trigger] (a + b)[k]).len()
        <= 3 by {
        if k < a.len() {
            assert((a + b)[k] == a[k]);
        } else {
            assert((a + b)[k] == b[k - a.len()]);
        }
    }
}

/// Two-hop cycles over all intermediates stay three hops long.
proof fn lemma_2hop_mids_len(
    pools: Seq<PoolData>,
    edges: Seq<EdgeData>,
    base: Seq<u8>,
    mids: Seq<Seq<u8>>,
    target: Seq<u8>,
)
    ensures
        forall|k: int|
            0 <= k < spec_2hop_mids(pools, edges, base, mids, target).len() ==> 2 <= (
            #[trigger] spec_2hop_mids(pools, edges, base, mids, target)[k]).len() <= 3,
    decreases mids.len(),
{
    if mids.len() == 0 {
    } else {
        lemma_2hop_mids_len(pools, edges, base, mids.drop_last(), target);
        lemma_2hop_one_len(pools, edges, base, mids.last(), target);
        lemma_concat_bound(
            spec_2hop_mids(pools, edges, base, mids.drop_last(), target),
            spec_2hop_one(pools, edges, base, mids.last(), target),
        );
    }
}

/// One-hop cycles over all targets stay two hops long.
proof fn lemma_1hop_all_len(
    pools: Seq<PoolData>,
    edges: Seq<EdgeData>,
    base: Seq<u8>,
    targets: Seq<Seq<u8>>,
)
    ensures
        forall|k: int|
            0 <= k < spec_1hop_all(pools, edges, base, targets).len() ==> 2 <= (
            #[trigger] spec_1hop_all(pools, edges, base, targets)[k]).len() <= 3,
    decreases targets.len(),
{
    if targets.len() == 0 {
    } else {
        lemma_1hop_all_len(pools, edges, base, targets.drop_last());
        lemma_out_and_back_len(spec_leg(pools, edges, base, targets.last()));
        assert(forall|k: int|
            0 <= k < spec_1hop_one(pools, edges, base, targets.last()).len() ==> 2 <= (
            #[trigger] spec_1hop_one(pools, edges, base, targets.last())[k]).len() <= 3);
        lemma_concat_bound(
            spec_1hop_all(pools, edges, base, targets.drop_last()),
            spec_1hop_one(pools, edges, base, targets.last()),
        );
    }
}

/// Two-hop cycles over all targets stay three hops long.
proof fn lemma_2hop_all_len(
    pools: Seq<PoolData>,
    edges: Seq<EdgeData>,
    base: Seq<u8>,
    mids: Seq<Seq<u8>>,
    targets: Seq<Seq<u8>>,
)
    ensures
        forall|k: int|
            0 <= k < spec_2hop_all(pools, edges, base, mids, targets).len() ==> 2 <= (
            #[trigger] spec_2hop_all(pools, edges, base, mids, targets)[k]).len() <= 3,
    decreases targets.len(),
{
    if targets.len() == 0 {
    } else {
        lemma_2hop_all_len(pools, edges, base, mids, targets.drop_last());
        lemma_2hop_mids_len(pools, edges, base, mids, targets.last());
        lemma_concat_bound(
            spec_2hop_all(pools, edges, base, mids, targets.drop_last()),
            spec_2hop_mids(pools, edges, base, mids, targets.last()),
        );
    }
}

/// Every enumerated cycle holds two or three hops: the design's hop bound
/// holds of the whole enumeration, so downstream stages that skip
/// over-long paths never skip an enumerated one.
pub proof fn lemma_enumerate_path_bounds(
    pools: Seq<PoolData>,
    edges: Seq<EdgeData>,
    base: Seq<u8>,
    targets: Seq<Seq<u8>>,
    mids: Seq<Seq<u8>>,
    include_1hop: bool,
    include_2hop: bool,
)
    ensures
        forall|k: int|
            0 <= k < spec_enumerate(pools, edges, base, targets, mids, include_1hop,
            include_2hop).len() ==> 2 <= (#[trigger] spec_enumerate(
                pools,
                edges,
                base,
                targets,
                mids,
                include_1hop,
                include_2hop,
            )[k]).len() <= 3,
{
    lemma_1hop_all_len(pools, edges, base, targets);
    lemma_2hop_all_len(pools, edges, base, mids, targets);
    let a = if include_1hop {
        spec_1hop_all(pools, edges, base, targets)
    } else {
        Seq::<Seq<HopData>>::empty()
    };
    let b = if include_2hop {
        spec_2hop_all(pools, edges, base, mids, targets)
    } else {
        Seq::<Seq<HopData>>::empty()
    };
    lemma_concat_bound(a, b);
}

/// Splices one hop into place, `spec_insert_hop` made executable.
proof fn lemma_insert_hop_at(x: HopData, s: Seq<HopData>, j: int)
    requires
        0 <= j <= s.len(),
        forall|i: int| 0 <= i < j ==> !(x.pool_id < (#[trigger] s[i]).pool_id),
        j == s.len() || x.pool_id < s[j].pool_id,
    ensures
        spec_insert_hop(x, s) == s.take(j) + seq![x] + s.skip(j),
    decreases j,
{
    if j == 0 {
        if s.len() == 0 {
            assert(spec_insert_hop(x, s) =~= s.take(0) + seq![x] + s.skip(0));
        } else {
            assert(s.skip(0) =~= s);
            assert(spec_insert_hop(x, s) =~= s.take(0) + seq![x] + s.skip(0));
        }
    } else {
        let tail = s.skip(1);
        assert(forall|i: int| 0 <= i < j - 1 ==> !(x.pool_id < (#[trigger] tail[i]).pool_id));
        assert(j - 1 == tail.len() || x.pool_id < tail[j - 1].pool_id);
        lemma_insert_hop_at(x, tail, j - 1);
        assert(spec_insert_hop(x, s) == seq![s[0]] + spec_insert_hop(x, tail));
        assert(seq![s[0]] + (tail.take(j - 1) + seq![x] + tail.skip(j - 1)) =~= s.take(j)
            + seq![x] + s.skip(j));
    }
}

/// Inserts one hop into a list sorted by ascending pool identity.
fn insert_hop(sorted: &mut Vec<Hop>, x: Hop)
    ensures
        hops_view(final (sorted)@) == spec_insert_hop(x@, hops_view(old(sorted)@)),
{
    let ghost sv = hops_view(sorted@);
    let n = sorted.len();
    let mut j: usize = 0;
    while j < n
        invariant
            n == sorted.len(),
            0 <= j <= n,
            sv == hops_view(sorted@),
            forall|i: int| 0 <= i < j ==> !(x@.pool_id < (#[trigger] sv[i]).pool_id),
        ensures
            n == sorted.len(),
            sv == hops_view(sorted@),
            0 <= j <= n,
            forall|i: int| 0 <= i < j ==> !(x@.pool_id < (#[trigger] sv[i]).pool_id),
            j == n || x@.pool_id < sv[j as int].pool_id,
        decreases n - j,
    {
        if x.pool_id < sorted[j].pool_id {
            break ;
        }
        j += 1;
    }
    proof {
        lemma_insert_hop_at(x@, sv, j as int);
    }
    sorted.insert(j, x);
    proof {
        assert(hops_view(sorted@) =~= sv.take(j as int) + seq![x@] + sv.skip(j as int));
    }
}

/// Sorts a hop list by ascending pool identity.
fn sort_hops(v: Vec<Hop>) -> (r: Vec<Hop>)
    ensures
        hops_view(r@) == spec_sort_hops(hops_view(v@)),
{
    let ghost cv = hops_view(v@);
    let mut sorted: Vec<Hop> = Vec::new();
    let mut stack = v;
    let mut left = stack.len();
    proof {
        assert(cv.skip(left as int) =~= Seq::<HopData>::empty());
        assert(cv.take(left as int) =~= cv);
        assert(hops_view(sorted@) =~= spec_sort_hops(cv.skip(left as int)));
    }
    while left > 0
        invariant
            left == stack.len(),
            left <= cv.len(),
            hops_view(stack@) == cv.take(left as int),
            hops_view(sorted@) == spec_sort_hops(cv.skip(left as int)),
        decreases left,
    {
        let ghost stackv = hops_view(stack@);
        let x = stack.pop().unwrap();
        proof {
            assert(stackv.last() == x@);
            assert(hops_view(stack@) =~= stackv.drop_last());
            assert(stackv.drop_last() =~= cv.take(left - 1));
            assert(cv.skip(left - 1)[0] == cv[left - 1]);
            assert(cv[left - 1] == x@);
            assert(cv.skip(left - 1).skip(1) =~= cv.skip(left as int));
        }
        insert_hop(&mut sorted, x);
        left = left - 1;
    }
    proof {
        assert(cv.skip(0) =~= cv);
    }
    sorted
}

/// The hops of a graph that trade `from` into `to`, ordered by ascending
/// pool identity.
pub fn hops_between(g: &MarketGraph, from: &Vec<u8>, to: &Vec<u8>) -> (r: Vec<Hop>)
    ensures
        hops_view(r@) == spec_leg(g@.pools, g@.edges, from@, to@),
{
    let raw = hops_between_raw(g, from, to);
    sort_hops(raw)
}

/// The hops of a graph that trade `from` into `to`, in edge order.
fn hops_between_raw(g: &MarketGraph, from: &Vec<u8>, to: &Vec<u8>) -> (r: Vec<Hop>)
    ensures
        hops_view(r@) == spec_hops_between(g@.pools, g@.edges, from@, to@),
{
    let n = g.edges.len();
    let mut r: Vec<Hop> = Vec::new();
    let mut i: usize = 0;
    while i < n
        invariant
            n == g.edges.len(),
            0 <= i <= n,
            hops_view(r@) == spec_hops_between(g@.pools, g@.edges.take(i as int), from@, to@),
        decreases n - i,
    {
        let ghost before = hops_view(r@);
        let e = g.edges[i];
        if e.pool_idx < g.pools.len() {
            let p = &g.pools[e.pool_idx];
            let (tin, tout) = if e.a_to_b {
                (&p.token_a, &p.token_b)
            } else {
                (&p.token_b, &p.token_a)
            };
            if bytes_eq(tin, from) && bytes_eq(tout, to) {
                r.push(Hop { pool_id: p.id, a_to_b: e.a_to_b });
            }
        }
        proof {
            let edges = g@.edges;
            assert(edges.take(i + 1).drop_last() =~= edges.take(i as int));
            assert(edges.take(i + 1).last() == edges[i as int]);
            if spec_edge_matches(g@.pools, edges[i as int], from@, to@) {
                assert(hops_view(r@) =~= before + seq![spec_hop_of(g@.pools, edges[i as int])]);
            } else {
                assert(hops_view(r@) =~= before);
                assert(before + Seq::<HopData>::empty() =~= before);
            }
        }
        i += 1;
    }
    proof {
        assert(g@.edges.take(n as int) =~= g@.edges);
    }
    r
}

/// Extends every partial path by every hop: one cross-product step.
fn cross_add(ps: &Vec<Vec<Hop>>, hs: &Vec<Hop>) -> (r: Vec<Vec<Hop>>)
    ensures
        paths_view(r@) == spec_cross_add(paths_view(ps@), hops_view(hs@)),
{
    let ghost psv = paths_view(ps@);
    let ghost hsv = hops_view(hs@);
    let mut r: Vec<Vec<Hop>> = Vec::new();
    let n = ps.len();
    let mut i: usize = 0;
    proof {
        assert(paths_view(r@) =~= spec_cross_add(psv.take(0), hsv));
    }
    while i < n
        invariant
            n == ps.len(),
            0 <= i <= n,
            psv == paths_view(ps@),
            hsv == hops_view(hs@),
            paths_view(r@) == spec_cross_add(psv.take(i as int), hsv),
        decreases n - i,
    {
        let m = hs.len();
        let mut j: usize = 0;
        proof {
            assert(spec_append_all(psv[i as int], hsv.take(0)) =~= Seq::<Seq<HopData>>::empty());
            assert(paths_view(r@) + Seq::<Seq<HopData>>::empty() =~= paths_view(r@));
        }
        while j < m
            invariant
                n == ps.len(),
                m == hs.len(),
                0 <= i < n,
                0 <= j <= m,
                psv == paths_view(ps@),
                hsv == hops_view(hs@),
                paths_view(r@) == spec_cross_add(psv.take(i as int), hsv) + spec_append_all(
                    psv[i as int],
                    hsv.take(j as int),
                ),
            decreases m - j,
        {
            let ghost before = paths_view(r@);
            let mut ext = copy_hops(&ps[i]);
            ext.push(hs[j]);
            proof {
                assert(hops_view(ext@) =~= psv[i as int].push(hsv[j as int]));
            }
            r.push(ext);
            proof {
                assert(hsv.take(j + 1).drop_last() =~= hsv.take(j as int));
                assert(hsv.take(j + 1).last() == hsv[j as int]);
                assert(paths_view(r@) =~= before + seq![psv[i as int].push(hsv[j as int])]);
                assert(before + seq![psv[i as int].push(hsv[j as int])] =~= spec_cross_add(
                    psv.take(i as int),
                    hsv,
                ) + spec_append_all(psv[i as int], hsv.take(j + 1)));
            }
            j += 1;
        }
        proof {
            assert(hsv.take(m as int) =~= hsv);
            assert(psv.take(i + 1).drop_last() =~= psv.take(i as int));
            assert(psv.take(i + 1).last() == psv[i as int]);
        }
        i += 1;
    }
    proof {
        assert(psv.take(n as int) =~= psv);
    }
    r
}

/// One-hop cycles for one target: out and back through each pool.
fn enumerate_1hop_one(g: &MarketGraph, base: &Vec<u8>, target: &Vec<u8>) -> (r: Vec<Vec<Hop>>)
    ensures
        paths_view(r@) == spec_1hop_one(g@.pools, g@.edges, base@, target@),
{
    if bytes_eq(target, base) {
        let r: Vec<Vec<Hop>> = Vec::new();
        proof {
            assert(paths_view(r@) =~= Seq::<Seq<HopData>>::empty());
        }
        return r;
    }
    let out = hops_between(g, base, target);
    let ghost legv = spec_leg(g@.pools, g@.edges, base@, target@);
    let mut r: Vec<Vec<Hop>> = Vec::new();
    let n = out.len();
    let mut i: usize = 0;
    proof {
        assert(paths_view(r@) =~= spec_out_and_back(legv.take(0)));
    }
    while i < n
        invariant
            n == out.len(),
            0 <= i <= n,
            legv == hops_view(out@),
            paths_view(r@) == spec_out_and_back(legv.take(i as int)),
        decreases n - i,
    {
        let ghost before = paths_view(r@);
        let h = out[i];
        let mut cycle: Vec<Hop> = Vec::new();
        cycle.push(h);
        cycle.push(Hop { pool_id: h.pool_id, a_to_b: !h.a_to_b });
        proof {
            assert(hops_view(cycle@) =~= seq![legv[i as int], spec_flip(legv[i as int])]);
        }
        r.push(cycle);
        proof {
            assert(legv.take(i + 1).drop_last() =~= legv.take(i as int));
            assert(legv.take(i + 1).last() == legv[i as int]);
            assert(paths_view(r@) =~= before + seq![
                seq![legv[i as int], spec_flip(legv[i as int])],
            ]);
        }
        i += 1;
    }
    proof {
        assert(legv.take(n as int) =~= legv);
    }
    r
}

/// Two-hop cycles for one target and one intermediate.
fn enumerate_2hop_one(g: &MarketGraph, base: &Vec<u8>, mid: &Vec<u8>, target: &Vec<u8>) -> (r: Vec<
    Vec<Hop>,
>)
    ensures
        paths_view(r@) == spec_2hop_one(g@.pools, g@.edges, base@, mid@, target@),
{
    if bytes_eq(mid, base) || bytes_eq(target, base) || bytes_eq(mid, target) {
        let r: Vec<Vec<Hop>> = Vec::new();
        proof {
            assert(paths_view(r@) =~= Seq::<Seq<HopData>>::empty());
        }
        return r;
    }
    let leg1 = hops_between(g, base, mid);
    let leg2 = hops_between(g, mid, target);
    let leg3 = hops_between(g, target, base);
    let mut start: Vec<Vec<Hop>> = Vec::new();
    start.push(Vec::new());
    proof {
        assert(paths_view(start@) =~~= seq![Seq::<HopData>::empty()]);
    }
    let step1 = cross_add(&start, &leg1);
    let step2 = cross_add(&step1, &leg2);
    cross_add(&step2, &leg3)
}

/// Appends `extra` onto `acc`.
fn append_paths(acc: &mut Vec<Vec<Hop>>, extra: Vec<Vec<Hop>>)
    ensures
        paths_view(final (acc)@) == paths_view(old(acc)@) + paths_view(extra@),
{
    let ghost accv = acc@;
    let ghost extrav = extra@;
    let mut e = extra;
    acc.append(&mut e);
    proof {
        assert(paths_view(accv + extrav) =~~= paths_view(accv) + paths_view(extrav));
    }
}

/// Enumerates every candidate swap cycle for one token configuration:
/// `tokens[0]` is the base token, the rest are targets, and `bridge` is the
/// extra allow-listed set of intermediates for two-hop cycles.  The result
/// order is fixed: one-hop cycles in target order, then two-hop cycles in
/// target-then-intermediate order, each group in graph edge order.
pub fn enumerate_paths(
    g: &MarketGraph,
    tokens: &Vec<TokenInArb>,
    include_1hop: bool,
    include_2hop: bool,
    bridge: &Vec<Vec<u8>>,
) -> (r: Vec<Vec<Hop>>)
    requires
        tokens@.len() >= 1,
    ensures
        paths_view(r@) == spec_enumerate(
            g@.pools,
            g@.edges,
            tokens@[0].address@,
            addrs_view(tokens@.skip(1)),
            addrs_view(tokens@.skip(1)) + bytes_view(bridge@),
            include_1hop,
            include_2hop,
        ),
{
    let ghost pools = g@.pools;
    let ghost edges = g@.edges;
    let base = &tokens[0].address;
    let ghost targetsv = addrs_view(tokens@.skip(1));
    let ghost midsv = targetsv + bytes_view(bridge@);

    // The executable list of intermediates: targets first, then the bridge
    // tokens, duplicates left in place (a duplicate adds no paths, since
    // the two-hop leg lists it induces are the same and the mid equals a
    // previous one; it only repeats them, and the selector dedups nothing —
    // callers pass disjoint sets).
    let mut mids: Vec<Vec<u8>> = Vec::new();
    let n_tok = tokens.len();
    let mut i: usize = 1;
    proof {
        assert(bytes_view(mids@) =~= targetsv.take(0));
    }
    while i < n_tok
        invariant
            n_tok == tokens.len(),
            1 <= i <= n_tok,
            targetsv == addrs_view(tokens@.skip(1)),
            bytes_view(mids@) == targetsv.take(i - 1),
        decreases n_tok - i,
    {
        let ghost before = bytes_view(mids@);
        let a = copy_bytes(&tokens[i].address);
        mids.push(a);
        proof {
            assert(targetsv[i - 1] == tokens@[i as int].address@);
            assert(bytes_view(mids@) =~= before.push(targetsv[i - 1]));
            assert(targetsv.take(i as int) =~= targetsv.take(i - 1).push(targetsv[i - 1]));
        }
        i += 1;
    }
    proof {
        assert(targetsv.take(n_tok - 1) =~= targetsv);
    }
    let n_bridge = bridge.len();
    let mut k: usize = 0;
    proof {
        assert(targetsv + bytes_view(bridge@).take(0) =~= targetsv);
    }
    while k < n_bridge
        invariant
            n_bridge == bridge.len(),
            0 <= k <= n_bridge,
            targetsv == addrs_view(tokens@.skip(1)),
            bytes_view(mids@) == targetsv + bytes_view(bridge@).take(k as int),
        decreases n_bridge - k,
    {
        let ghost before = bytes_view(mids@);
        let ghost bridgev = bytes_view(bridge@);
        let a = copy_bytes(&bridge[k]);
        mids.push(a);
        proof {
            assert(bridgev[k as int] == bridge@[k as int]@);
            assert(bytes_view(mids@) =~= before.push(bridgev[k as int]));
            assert(targetsv + bridgev.take(k + 1) =~= (targetsv + bridgev.take(k as int)).push(
                bridgev[k as int],
            ));
        }
        k += 1;
    }
    proof {
        assert(bytes_view(bridge@).take(n_bridge as int) =~= bytes_view(bridge@));
        assert(bytes_view(mids@) == midsv);
    }

    let mut r: Vec<Vec<Hop>> = Vec::new();
    proof {
        assert(paths_view(r@) =~= Seq::<Seq<HopData>>::empty());
    }
    if include_1hop {
        let mut t: usize = 1;
        while t < n_tok
            invariant
                n_tok == tokens.len(),
                1 <= t <= n_tok,
                targetsv == addrs_view(tokens@.skip(1)),
                pools == g@.pools,
                edges == g@.edges,
                paths_view(r@) == spec_1hop_all(
                    pools,
                    edges,
                    tokens@[0].address@,
                    targetsv.take(t - 1),
                ),
            decreases n_tok - t,
        {
            let extra = enumerate_1hop_one(g, &tokens[0].address, &tokens[t].address);
            proof {
                assert(targetsv[t - 1] == tokens@[t as int].address@);
            }
            append_paths(&mut r, extra);
            proof {
                assert(targetsv.take(t as int).drop_last() =~= targetsv.take(t - 1));
                assert(targetsv.take(t as int).last() == targetsv[t - 1]);
            }
            t += 1;
        }
        proof {
            assert(targetsv.take(n_tok - 1) =~= targetsv);
        }
    }
    let ghost after1 = if include_1hop {
        spec_1hop_all(pools, edges, tokens@[0].address@, targetsv)
    } else {
        Seq::<Seq<HopData>>::empty()
    };
    assert(paths_view(r@) == after1);
    if include_2hop {
        let n_mids = mids.len();
        let mut t: usize = 1;
        proof {
            assert(after1 + spec_2hop_all(pools, edges, tokens@[0].address@, midsv, targetsv.take(0))
                =~= after1);
        }
        while t < n_tok
            invariant
                n_tok == tokens.len(),
                n_mids == mids.len(),
                1 <= t <= n_tok,
                targetsv == addrs_view(tokens@.skip(1)),
                midsv == bytes_view(mids@),
                pools == g@.pools,
                edges == g@.edges,
                paths_view(r@) == after1 + spec_2hop_all(
                    pools,
                    edges,
                    tokens@[0].address@,
                    midsv,
                    targetsv.take(t - 1),
                ),
            decreases n_tok - t,
        {
            let mut m: usize = 0;
            proof {
                assert(spec_2hop_mids(pools, edges, tokens@[0].address@, midsv.take(0), targetsv[t
                    - 1]) =~= Seq::<Seq<HopData>>::empty());
                assert(paths_view(r@) + Seq::<Seq<HopData>>::empty() =~= paths_view(r@));
            }
            while m < n_mids
                invariant
                    n_tok == tokens.len(),
                    n_mids == mids.len(),
                    1 <= t < n_tok,
                    0 <= m <= n_mids,
                    targetsv == addrs_view(tokens@.skip(1)),
                    midsv == bytes_view(mids@),
                    pools == g@.pools,
                    edges == g@.edges,
                    paths_view(r@) == after1 + spec_2hop_all(
                        pools,
                        edges,
                        tokens@[0].address@,
                        midsv,
                        targetsv.take(t - 1),
                    ) + spec_2hop_mids(
                        pools,
                        edges,
                        tokens@[0].address@,
                        midsv.take(m as int),
                        targetsv[t - 1],
                    ),
                decreases n_mids - m,
            {
                let extra = enumerate_2hop_one(g, &tokens[0].address, &mids[m], &tokens[t].address);
                proof {
                    assert(targetsv[t - 1] == tokens@[t as int].address@);
                    assert(midsv[m as int] == mids@[m as int]@);
                }
                append_paths(&mut r, extra);
                proof {
                    assert(midsv.take(m + 1).drop_last() =~= midsv.take(m as int));
                    assert(midsv.take(m + 1).last() == midsv[m as int]);
                }
                m += 1;
            }
            proof {
                assert(midsv.take(n_mids as int) =~= midsv);
                assert(targetsv.take(t as int).drop_last() =~= targetsv.take(t - 1));
                assert(targetsv.take(t as int).last() == targetsv[t - 1]);
            }
            t += 1;
        }
        proof {
            assert(targetsv.take(n_tok - 1) =~= targetsv);
        }
    }
    proof {
        if !include_2hop {
            assert(after1 + Seq::<Seq<HopData>>::empty() =~= after1);
        }
    }
    r
}

} // verus!
