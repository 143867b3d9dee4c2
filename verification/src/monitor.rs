//! Live opportunity monitor: re-evaluates a persisted selection against a
//! stream of quote updates.
//!
//! Per-path state machine: `Stale -> Repricing -> {Profitable,
//! Unprofitable}`, and back to `Stale` once the quotes behind a path age
//! past the freshness window.  A quote update replaces one pool's reserve
//! snapshot and marks only the affected paths — the ones that cross the
//! updated pool — for repricing; repricing is selective, never a full
//! re-enumeration.  A path is `Profitable` only when its re-simulated
//! profit exceeds the minimum threshold and its aggregate price impact
//! stays under the cap.

use vstd::prelude::*;
use crate::types::{
    copy_result, pools_view, results_view, Pool, PoolData, QuoteUpdate, ResultData,
    SwapPathResult, SwapPathSelected, VecSwapPathSelected,
};
use crate::graph::spec_pools_wf;
use crate::pricing::{
    find_pool, price_path, spec_find_pool, spec_impacts, spec_out_amount, spec_price_overflows,
    spec_profit_bps, spec_sum,
};
use crate::selector::{select_best_paths, spec_select, spec_sort_desc, lemma_sort_desc_sorted};

verus! {

/// The monitor's per-path states.
#[derive(Clone, Copy, PartialEq, Eq, Structural, Debug)]
pub enum PathState {
    /// The quotes behind the path are older than the freshness window, or
    /// the path was never priced against the live book.
    Stale,
    /// A quote update touched the path; it awaits repricing.
    Repricing,
    /// Last repricing cleared both thresholds.
    Profitable,
    /// Last repricing missed a threshold, overflowed, or lost its pool.
    Unprofitable,
}

/// Decision thresholds of the monitor and of the execution handoff.
#[derive(Clone, Copy, PartialEq, Eq, Structural, Debug)]
pub struct Thresholds {
    /// A path is actionable only when profit strictly exceeds this.
    pub min_profit: i128,
    /// A path is actionable only when aggregate impact stays at or under
    /// this cap, in basis points.
    pub max_impact_bps: u64,
    /// Quotes older than this many ticks make a path stale again.
    pub freshness_window: u64,
}

/// One monitored path.
#[derive(Clone, Debug)]
pub struct MonitorEntry {
    pub result: SwapPathResult,
    pub state: PathState,
    pub last_priced: u64,
}

/// Mathematical view of a [`MonitorEntry`].
pub struct EntryData {
    pub result: ResultData,
    pub state: PathState,
    pub last_priced: int,
}

impl View for MonitorEntry {
    type V = EntryData;

    open spec fn view(&self) -> EntryData {
        EntryData {
            result: self.result@,
            state: self.state,
            last_priced: self.last_priced as int,
        }
    }
}

/// View of an entry list.
pub open spec fn entries_view(es: Seq<MonitorEntry>) -> Seq<EntryData> {
    es.map_values(|e: MonitorEntry| e@)
}

/// The live monitor: its own reserve book, the monitored paths, the
/// decision thresholds and the simulation amount used for repricing.
/// External readers receive copies of its state, never references.
pub struct Monitor {
    pub pools: Vec<Pool>,
    pub entries: Vec<MonitorEntry>,
    pub thresholds: Thresholds,
    pub amount_in: u64,
}

impl Monitor {
    /// The monitor only ever reprices paths of the design's length bound,
    /// against well-formed pools.
    pub open spec fn wf(self) -> bool {
        &&& spec_pools_wf(pools_view(self.pools@))
        &&& forall|i: int|
            0 <= i < self.entries@.len() ==> (#[trigger] entries_view(
                self.entries@,
            )[i]).result.hops.len() <= 3
    }
}

/// Whether a path crosses the pool a quote update is about.
pub open spec fn spec_touches(r: ResultData, pool_id: int) -> bool {
    exists|i: int| 0 <= i < r.hops.len() && (#[trigger] r.hops[i]).pool_id == pool_id
}

/// Threshold classification of a repriced path.
pub open spec fn spec_classify(profit: int, impact: int, th: Thresholds) -> PathState {
    if profit > th.min_profit && impact <= th.max_impact_bps {
        PathState::Profitable
    } else {
        PathState::Unprofitable
    }
}

/// What repricing one marked entry yields: the fresh simulation result and
/// its classification, or `Unprofitable` with the stale result kept when
/// the simulation overflows.
pub open spec fn spec_reprice_entry(
    e: EntryData,
    pools: Seq<PoolData>,
    amount: int,
    th: Thresholds,
    now: int,
) -> EntryData {
    if spec_price_overflows(pools, e.result.hops, amount) {
        EntryData { result: e.result, state: PathState::Unprofitable, last_priced: now }
    } else {
        let out = spec_out_amount(pools, e.result.hops, amount);
        let imps = spec_impacts(pools, e.result.hops, amount);
        EntryData {
            result: ResultData {
                hops: e.result.hops,
                amount_in: amount,
                amount_out: out,
                profit: out - amount,
                profit_bps: spec_profit_bps(amount, out),
                hop_impacts: imps,
                total_impact_bps: spec_sum(imps),
                order: e.result.order,
            },
            state: spec_classify(out - amount, spec_sum(imps), th),
            last_priced: now,
        }
    }
}

/// The pool book after a quote update: the identified pool's reserves
/// replaced whole, nothing else touched; an unknown pool leaves the book
/// unchanged (data unavailable, not a failure).
pub open spec fn spec_book_after(pools: Seq<PoolData>, u: QuoteUpdate) -> Seq<PoolData> {
    match spec_find_pool(pools, u.pool_id as int) {
        None => pools,
        Some(j) => pools.update(
            j,
            PoolData {
                reserve_a: u.reserve_a as int,
                reserve_b: u.reserve_b as int,
                ..pools[j]
            },
        ),
    }
}

/// Whether an executable entry touches the pool.
fn touches(r: &SwapPathResult, pool_id: u64) -> (b: bool)
    ensures
        b == spec_touches(r@, pool_id as int),
{
    let n = r.path.hops.len();
    let mut i: usize = 0;
    while i < n
        invariant
            n == r.path.hops.len(),
            0 <= i <= n,
            forall|j: int| 0 <= j < i ==> (#[trigger] r@.hops[j]).pool_id != pool_id as int,
        decreases n - i,
    {
        if r.path.hops[i].pool_id == pool_id {
            assert(r@.hops[i as int].pool_id == pool_id as int);
            return true;
        }
        i += 1;
    }
    false
}

impl Monitor {
    /// Seeds a monitor from a persisted selection: every selected path
    /// becomes one entry, initially `Stale` (it has not been priced
    /// against the live book yet).
    pub fn new(
        selection: &VecSwapPathSelected,
        pools: Vec<Pool>,
        thresholds: Thresholds,
        amount_in: u64,
    ) -> (m: Monitor)
        requires
            spec_pools_wf(pools_view(pools@)),
            forall|i: int, j: int|
                0 <= i < selection@.len() && 0 <= j < (#[trigger] selection@[i]).paths.len()
                    ==> (#[trigger] selection@[i].paths[j]).hops.len() <= 3,
        ensures
            m.wf(),
            m.pools@ == pools@,
            m.thresholds == thresholds,
            m.amount_in == amount_in,
            entries_view(m.entries@).map_values(|e: EntryData| e.result) == spec_all_paths(
                selection@,
            ),
            forall|i: int|
                0 <= i < m.entries@.len() ==> (#[trigger] entries_view(m.entries@)[i]).state
                    == PathState::Stale && entries_view(m.entries@)[i].last_priced == 0,
    {
        let ghost selv = selection@;
        let mut entries: Vec<MonitorEntry> = Vec::new();
        let n = selection.value.len();
        let mut i: usize = 0;
        proof {
            assert(entries_view(entries@).map_values(|e: EntryData| e.result) =~= spec_all_paths(
                selv.take(0),
            ));
        }
        while i < n
            invariant
                n == selection.value.len(),
                0 <= i <= n,
                selv == selection@,
                forall|a: int, j: int|
                    0 <= a < selection@.len() && 0 <= j < (#[trigger] selection@[a]).paths.len()
                        ==> (#[trigger] selection@[a].paths[j]).hops.len() <= 3,
                entries_view(entries@).map_values(|e: EntryData| e.result) == spec_all_paths(
                    selv.take(i as int),
                ),
                forall|k: int|
                    0 <= k < entries@.len() ==> (#[trigger] entries_view(entries@)[k]).state
                        == PathState::Stale && entries_view(entries@)[k].last_priced == 0
                        && entries_view(entries@)[k].result.hops.len() <= 3,
            decreases n - i,
        {
            let m2 = selection.value[i].paths.len();
            let mut j: usize = 0;
            let ghost base = entries_view(entries@).map_values(|e: EntryData| e.result);
            proof {
                assert(selv[i as int] == selection.value@[i as int]@);
                assert(base + selv[i as int].paths.take(0) =~= base);
            }
            while j < m2
                invariant
                    n == selection.value.len(),
                    0 <= i < n,
                    m2 == selection.value@[i as int].paths.len(),
                    0 <= j <= m2,
                    selv == selection@,
                    selv[i as int] == selection.value@[i as int]@,
                    forall|a: int, jj: int|
                        0 <= a < selection@.len() && 0 <= jj < (
                        #[trigger] selection@[a]).paths.len() ==> (
                        #[trigger] selection@[a].paths[jj]).hops.len() <= 3,
                    base == spec_all_paths(selv.take(i as int)),
                    entries_view(entries@).map_values(|e: EntryData| e.result) == base
                        + selv[i as int].paths.take(j as int),
                    forall|k: int|
                        0 <= k < entries@.len() ==> (#[trigger] entries_view(entries@)[k]).state
                            == PathState::Stale && entries_view(entries@)[k].last_priced == 0
                            && entries_view(entries@)[k].result.hops.len() <= 3,
                decreases m2 - j,
            {
                let ghost before = entries_view(entries@).map_values(|e: EntryData| e.result);
                let r = copy_result(&selection.value[i].paths[j]);
                proof {
                    assert(r@ == selv[i as int].paths[j as int]);
                }
                let ghost ebefore = entries_view(entries@);
                let ne = MonitorEntry { result: r, state: PathState::Stale, last_priced: 0 };
                let ghost nev = ne@;
                entries.push(ne);
                proof {
                    assert(entries_view(entries@) =~= ebefore.push(nev));
                    assert(entries_view(entries@).map_values(|e: EntryData| e.result) =~= before
                        .push(selv[i as int].paths[j as int]));
                    assert(base + selv[i as int].paths.take(j + 1) =~= (base + selv[
                        i as int
                    ].paths.take(j as int)).push(selv[i as int].paths[j as int]));
                }
                j += 1;
            }
            proof {
                assert(selv[i as int].paths.take(m2 as int) =~= selv[i as int].paths);
                assert(selv.take(i + 1).drop_last() =~= selv.take(i as int));
                assert(selv.take(i + 1).last() == selv[i as int]);
            }
            i += 1;
        }
        proof {
            assert(selv.take(n as int) =~= selv);
        }
        Monitor { pools, entries, thresholds, amount_in }
    }

    /// Takes one quote update: replaces the identified pool's reserve
    /// snapshot and marks every path that crosses that pool `Repricing`.
    /// Everything else — other pools, unaffected paths — is untouched.
    pub fn apply_update(&mut self, u: QuoteUpdate)
        requires
            old(self).wf(),
        ensures
            final (self).wf(),
            pools_view(final (self).pools@) == spec_book_after(pools_view(old(self).pools@), u),
            final (self).thresholds == old(self).thresholds,
            final (self).amount_in == old(self).amount_in,
            final (self).entries@.len() == old(self).entries@.len(),
            forall|i: int|
                0 <= i < old(self).entries@.len() ==> {
                    let e = entries_view(old(self).entries@)[i];
                    #[trigger] entries_view(final (self).entries@)[i] == if spec_touches(
                        e.result,
                        u.pool_id as int,
                    ) {
                        EntryData { state: PathState::Repricing, ..e }
                    } else {
                        e
                    }
                },
    {
        let ghost pv = pools_view(self.pools@);
        match find_pool(&self.pools, u.pool_id) {
            None => {
                proof {
                    assert(pools_view(self.pools@) =~= spec_book_after(pv, u));
                }
            },
            Some(j) => {
                let mut np = crate::pricing::copy_pool(&self.pools[j]);
                np.reserve_a = u.reserve_a;
                np.reserve_b = u.reserve_b;
                self.pools.set(j, np);
                proof {
                    assert(pools_view(self.pools@) =~= spec_book_after(pv, u));
                }
            },
        }
        let ghost ev = entries_view(self.entries@);
        proof {
            assert(ev == entries_view(old(self).entries@));
        }
        let n = self.entries.len();
        let mut i: usize = 0;
        while i < n
            invariant
                n == self.entries.len(),
                0 <= i <= n,
                ev.len() == n,
                old(self).wf(),
                ev == entries_view(old(self).entries@),
                self.thresholds == old(self).thresholds,
                self.amount_in == old(self).amount_in,
                spec_pools_wf(pools_view(self.pools@)),
                pools_view(self.pools@) == spec_book_after(pools_view(old(self).pools@), u),
                forall|k: int|
                    i <= k < n ==> #[trigger] entries_view(self.entries@)[k] == ev[k],
                forall|k: int|
                    0 <= k < i ==> #[trigger] entries_view(self.entries@)[k] == if spec_touches(
                        ev[k].result,
                        u.pool_id as int,
                    ) {
                        EntryData { state: PathState::Repricing, ..ev[k] }
                    } else {
                        ev[k]
                    },
            decreases n - i,
        {
            let ghost ebefore = entries_view(self.entries@);
            proof {
                assert(ebefore[i as int] == ev[i as int]);
            }
            let hit = touches(&self.entries[i].result, u.pool_id);
            if hit {
                let r = copy_result(&self.entries[i].result);
                proof {
                    assert(r@ == ebefore[i as int].result);
                }
                let lp = self.entries[i].last_priced;
                let ne = MonitorEntry { result: r, state: PathState::Repricing, last_priced: lp };
                let ghost nev = ne@;
                self.entries.set(i, ne);
                proof {
                    assert(entries_view(self.entries@) =~= ebefore.update(i as int, nev));
                    assert(nev == EntryData { state: PathState::Repricing, ..ev[i as int] });
                }
            }
            i += 1;
        }
        proof {
            assert forall|ii: int| 0 <= ii < self.entries@.len() implies (
            #[trigger] entries_view(self.entries@)[ii]).result.hops.len() <= 3 by {
                assert(entries_view(old(self).entries@)[ii] == ev[ii]);
            }
        }
    }

    /// Reprices every path marked `Repricing` against the current book and
    /// classifies it `Profitable` or `Unprofitable`; entries in any other
    /// state are untouched.
    pub fn reprice(&mut self, now: u64)
        requires
            old(self).wf(),
        ensures
            final (self).wf(),
            final (self).pools@ == old(self).pools@,
            final (self).thresholds == old(self).thresholds,
            final (self).amount_in == old(self).amount_in,
            final (self).entries@.len() == old(self).entries@.len(),
            forall|i: int|
                0 <= i < old(self).entries@.len() ==> {
                    let e = entries_view(old(self).entries@)[i];
                    #[trigger] entries_view(final (self).entries@)[i] == if e.state
                        == PathState::Repricing {
                        spec_reprice_entry(
                            e,
                            pools_view(old(self).pools@),
                            old(self).amount_in as int,
                            old(self).thresholds,
                            now as int,
                        )
                    } else {
                        e
                    }
                },
    {
        let ghost ev = entries_view(self.entries@);
        let ghost pv = pools_view(self.pools@);
        let n = self.entries.len();
        let mut i: usize = 0;
        while i < n
            invariant
                n == self.entries.len(),
                0 <= i <= n,
                ev.len() == n,
                old(self).wf(),
                ev == entries_view(old(self).entries@),
                pv == pools_view(self.pools@),
                spec_pools_wf(pools_view(self.pools@)),
                self.amount_in == old(self).amount_in,
                self.thresholds == old(self).thresholds,
                self.pools@ == old(self).pools@,
                forall|k: int|
                    i <= k < n ==> #[trigger] entries_view(self.entries@)[k] == ev[k],
                forall|k: int|
                    0 <= k < i ==> #[trigger] entries_view(self.entries@)[k] == if ev[k].state
                        == PathState::Repricing {
                        spec_reprice_entry(
                            ev[k],
                            pv,
                            old(self).amount_in as int,
                            old(self).thresholds,
                            now as int,
                        )
                    } else {
                        ev[k]
                    },
            decreases n - i,
        {
            let ghost ebefore = entries_view(self.entries@);
            proof {
                assert(ebefore[i as int] == ev[i as int]);
                assert(entries_view(old(self).entries@)[i as int] == ev[i as int]);
            }
            if self.entries[i].state == PathState::Repricing {
                proof {
                    assert(ebefore[i as int].result.hops.len() <= 3);
                    assert(ebefore[i as int].result.hops == crate::types::hops_view(
                        self.entries@[i as int].result.path.hops@,
                    ));
                }
                let priced = price_path(
                    &self.pools,
                    &self.entries[i].result.path.hops,
                    self.amount_in,
                    self.entries[i].result.order,
                );
                match priced {
                    Ok(res) => {
                        let profitable = res.profit > self.thresholds.min_profit
                            && res.total_impact_bps <= self.thresholds.max_impact_bps;
                        let st = if profitable {
                            PathState::Profitable
                        } else {
                            PathState::Unprofitable
                        };
                        let ne = MonitorEntry { result: res, state: st, last_priced: now };
                        let ghost nev = ne@;
                        self.entries.set(i, ne);
                        proof {
                            assert(res@.hops == ev[i as int].result.hops);
                        }
                        proof {
                            assert(entries_view(self.entries@) =~= ebefore.update(i as int, nev));
                            assert(nev == spec_reprice_entry(
                                ev[i as int],
                                pv,
                                old(self).amount_in as int,
                                old(self).thresholds,
                                now as int,
                            ));
                        }
                    },
                    Err(_) => {
                        let r = copy_result(&self.entries[i].result);
                        proof {
                            assert(r@ == ebefore[i as int].result);
                        }
                        let ne = MonitorEntry {
                            result: r,
                            state: PathState::Unprofitable,
                            last_priced: now,
                        };
                        let ghost nev = ne@;
                        self.entries.set(i, ne);
                        proof {
                            assert(entries_view(self.entries@) =~= ebefore.update(i as int, nev));
                            assert(nev == spec_reprice_entry(
                                ev[i as int],
                                pv,
                                old(self).amount_in as int,
                                old(self).thresholds,
                                now as int,
                            ));
                        }
                    },
                }
            }
            i += 1;
        }
        proof {
            assert forall|ii: int| 0 <= ii < self.entries@.len() implies (
            #[trigger] entries_view(self.entries@)[ii]).result.hops.len() <= 3 by {
                assert(entries_view(old(self).entries@)[ii] == ev[ii]);
            }
        }
    }

    /// Ages quotes: any path whose last pricing lies further back than the
    /// freshness window drops to `Stale`, even without an update — a
    /// protection against silently stale quotes.
    pub fn tick(&mut self, now: u64)
        requires
            old(self).wf(),
        ensures
            final (self).wf(),
            final (self).pools@ == old(self).pools@,
            final (self).thresholds == old(self).thresholds,
            final (self).amount_in == old(self).amount_in,
            final (self).entries@.len() == old(self).entries@.len(),
            forall|i: int|
                0 <= i < old(self).entries@.len() ==> {
                    let e = entries_view(old(self).entries@)[i];
                    #[trigger] entries_view(final (self).entries@)[i] == if now as int
                        - e.last_priced > old(self).thresholds.freshness_window as int {
                        EntryData { state: PathState::Stale, ..e }
                    } else {
                        e
                    }
                },
    {
        let ghost ev = entries_view(self.entries@);
        let n = self.entries.len();
        let mut i: usize = 0;
        while i < n
            invariant
                n == self.entries.len(),
                0 <= i <= n,
                ev.len() == n,
                old(self).wf(),
                ev == entries_view(old(self).entries@),
                spec_pools_wf(pools_view(self.pools@)),
                self.thresholds == old(self).thresholds,
                self.pools@ == old(self).pools@,
                self.amount_in == old(self).amount_in,
                forall|k: int|
                    i <= k < n ==> #[trigger] entries_view(self.entries@)[k] == ev[k],
                forall|k: int|
                    0 <= k < i ==> #[trigger] entries_view(self.entries@)[k] == if now as int
                        - ev[k].last_priced > old(self).thresholds.freshness_window as int {
                        EntryData { state: PathState::Stale, ..ev[k] }
                    } else {
                        ev[k]
                    },
            decreases n - i,
        {
            let ghost ebefore = entries_view(self.entries@);
            proof {
                assert(ebefore[i as int] == ev[i as int]);
            }
            let lp = self.entries[i].last_priced;
            if now > lp && now - lp > self.thresholds.freshness_window {
                let r = copy_result(&self.entries[i].result);
                proof {
                    assert(r@ == ebefore[i as int].result);
                }
                let ne = MonitorEntry { result: r, state: PathState::Stale, last_priced: lp };
                let ghost nev = ne@;
                self.entries.set(i, ne);
                proof {
                    assert(entries_view(self.entries@) =~= ebefore.update(i as int, nev));
                    assert(nev == EntryData { state: PathState::Stale, ..ev[i as int] });
                }
            }
            i += 1;
        }
        proof {
            assert forall|ii: int| 0 <= ii < self.entries@.len() implies (
            #[trigger] entries_view(self.entries@)[ii]).result.hops.len() <= 3 by {
                assert(entries_view(old(self).entries@)[ii] == ev[ii]);
            }
        }
    }

    /// The paths currently in `Profitable` state, best ranked first: the
    /// monitor's actionable view.  The caller receives copies.
    pub fn actionable(&self) -> (r: Vec<SwapPathResult>)
        ensures
            results_view(r@) == spec_sort_desc(
                spec_profitable(entries_view(self.entries@)),
            ),
    {
        let ghost ev = entries_view(self.entries@);
        let mut picked: Vec<SwapPathResult> = Vec::new();
        let n = self.entries.len();
        let mut i: usize = 0;
        proof {
            assert(results_view(picked@) =~= spec_profitable(ev.take(0)));
        }
        while i < n
            invariant
                n == self.entries.len(),
                0 <= i <= n,
                ev == entries_view(self.entries@),
                results_view(picked@) == spec_profitable(ev.take(i as int)),
            decreases n - i,
        {
            let ghost before = results_view(picked@);
            if self.entries[i].state == PathState::Profitable {
                let r = copy_result(&self.entries[i].result);
                picked.push(r);
            }
            proof {
                assert(ev.take(i + 1).drop_last() =~= ev.take(i as int));
                assert(ev.take(i + 1).last() == ev[i as int]);
                if ev[i as int].state == PathState::Profitable {
                    assert(results_view(picked@) =~= before + seq![ev[i as int].result]);
                } else {
                    assert(results_view(picked@) =~= before + Seq::<ResultData>::empty());
                }
            }
            i += 1;
        }
        proof {
            assert(ev.take(n as int) =~= ev);
        }
        let k = picked.len();
        let ghost pickedv = results_view(picked@);
        let r = select_best_paths(picked, k, false, &Vec::new());
        proof {
            lemma_sort_desc_sorted(pickedv);
            assert(spec_sort_desc(pickedv).take(k as int) =~= spec_sort_desc(pickedv));
        }
        r
    }
}

/// Every selected path of a selection collection, in order.
pub open spec fn spec_all_paths(sel: Seq<crate::types::SelectedData>) -> Seq<ResultData>
    decreases sel.len(),
{
    if sel.len() == 0 {
        Seq::empty()
    } else {
        spec_all_paths(sel.drop_last()) + sel.last().paths
    }
}

/// The results of the entries standing in `Profitable` state, in entry
/// order.
pub open spec fn spec_profitable(es: Seq<EntryData>) -> Seq<ResultData>
    decreases es.len(),
{
    if es.len() == 0 {
        Seq::empty()
    } else {
        spec_profitable(es.drop_last()) + if es.last().state == PathState::Profitable {
            seq![es.last().result]
        } else {
            Seq::empty()
        }
    }
}

} // verus!
