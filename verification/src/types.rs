//! Data model of the pipeline: tokens, pools, paths, priced results,
//! selections, quote updates, and the error taxonomy.
//!
//! Every executable type has a mathematical view (`@`) built from `int`,
//! `bool` and `Seq`, and the contracts of the pipeline are stated over
//! those views.

use vstd::prelude::*;

verus! {

/// Fee rates are expressed in basis points out of this denominator.
pub const FEE_DENOM: u64 = 10000;

/// The pricing curve a pool runs.  A closed set: the pricer dispatches on
/// this tag.
#[derive(Clone, Copy, PartialEq, Eq, Structural, Debug)]
pub enum Curve {
    /// Constant-product market maker (`x * y = k`).
    ConstantProduct,
    /// Constant-sum stable pool (`x + y = k`), output capped by the reserve.
    StableSwap,
}

/// One liquidity pool snapshot: two reserves keyed by token, a fee rate and
/// a curve tag.  A reserve refresh replaces the whole snapshot; a `Pool`
/// value is never patched in place.
#[derive(Clone, Debug)]
pub struct Pool {
    /// Venue-assigned identity, stable across reserve refreshes.
    pub id: u64,
    pub token_a: Vec<u8>,
    pub token_b: Vec<u8>,
    pub reserve_a: u64,
    pub reserve_b: u64,
    /// Fee in basis points out of [`FEE_DENOM`].
    pub fee_bps: u64,
    pub curve: Curve,
}

/// Mathematical view of a [`Pool`].
pub struct PoolData {
    pub id: int,
    pub token_a: Seq<u8>,
    pub token_b: Seq<u8>,
    pub reserve_a: int,
    pub reserve_b: int,
    pub fee_bps: int,
    pub curve: Curve,
}

impl View for Pool {
    type V = PoolData;

    open spec fn view(&self) -> PoolData {
        PoolData {
            id: self.id as int,
            token_a: self.token_a@,
            token_b: self.token_b@,
            reserve_a: self.reserve_a as int,
            reserve_b: self.reserve_b as int,
            fee_bps: self.fee_bps as int,
            curve: self.curve,
        }
    }
}

impl PoolData {
    /// A pool is well formed when its fee is a valid basis-point rate and
    /// it connects two distinct tokens.
    pub open spec fn wf(self) -> bool {
        &&& 0 <= self.fee_bps < FEE_DENOM
        &&& self.token_a != self.token_b
        &&& 0 <= self.id
        &&& 0 <= self.reserve_a
        &&& 0 <= self.reserve_b
    }

    /// Both reserves funded: the precondition for the pool to appear in the
    /// market graph.
    pub open spec fn tradable(self) -> bool {
        self.reserve_a > 0 && self.reserve_b > 0
    }
}

/// One swap through one pool, in one direction.
#[derive(Clone, Copy, Debug)]
pub struct Hop {
    pub pool_id: u64,
    /// `true` swaps `token_a` into `token_b`, `false` the reverse.
    pub a_to_b: bool,
}

/// Mathematical view of a [`Hop`].
pub struct HopData {
    pub pool_id: int,
    pub a_to_b: bool,
}

impl View for Hop {
    type V = HopData;

    open spec fn view(&self) -> HopData {
        HopData { pool_id: self.pool_id as int, a_to_b: self.a_to_b }
    }
}

/// An ordered sequence of hops forming a cycle that starts and ends at the
/// configuration's base token.
#[derive(Clone, Debug)]
pub struct SwapPath {
    pub hops: Vec<Hop>,
}

impl View for SwapPath {
    type V = Seq<HopData>;

    open spec fn view(&self) -> Seq<HopData> {
        hops_view(self.hops@)
    }
}

/// A token the caller wants to arbitrage: chain address and display symbol.
/// Identity is the address.
#[derive(Clone, Debug)]
pub struct TokenInArb {
    pub address: Vec<u8>,
    pub symbol: Vec<u8>,
}

/// Per-token metadata resolved once per run and passed by value to pricing
/// code.
#[derive(Clone, Debug)]
pub struct TokenInfos {
    pub address: Vec<u8>,
    pub decimals: u8,
}

/// One token configuration: which tokens to consider, which hop depths to
/// enumerate, how many best paths to keep, and whether to force a fresh
/// reserve fetch.  Immutable for the duration of a run.
#[derive(Clone, Debug)]
pub struct InputVec {
    pub tokens_to_arb: Vec<TokenInArb>,
    pub include_1hop: bool,
    pub include_2hop: bool,
    pub numbers_of_best_paths: usize,
    pub get_fresh_pools_bool: bool,
}

/// A priced path: the path itself, the simulated input, the simulated
/// output, absolute and relative profit, and per-hop price impact.
/// Recomputed whenever reserves or the input amount change, never mutated.
#[derive(Clone, Debug)]
pub struct SwapPathResult {
    pub path: SwapPath,
    pub amount_in: u64,
    pub amount_out: u64,
    /// `amount_out - amount_in`, in base-token units.
    pub profit: i128,
    /// Relative profit in basis points of `amount_in` (0 when `amount_in`
    /// is 0), rounded toward zero.
    pub profit_bps: i128,
    /// Price impact of each hop, in basis points.
    pub hop_impacts: Vec<u64>,
    /// Sum of `hop_impacts`: the aggregate impact used as ranking tie-break.
    pub total_impact_bps: u64,
    /// Position in the enumeration order, the final ranking tie-break.
    pub order: u64,
}

/// Mathematical view of a [`SwapPathResult`].
pub struct ResultData {
    pub hops: Seq<HopData>,
    pub amount_in: int,
    pub amount_out: int,
    pub profit: int,
    pub profit_bps: int,
    pub hop_impacts: Seq<int>,
    pub total_impact_bps: int,
    pub order: int,
}

impl View for SwapPathResult {
    type V = ResultData;

    open spec fn view(&self) -> ResultData {
        ResultData {
            hops: self.path@,
            amount_in: self.amount_in as int,
            amount_out: self.amount_out as int,
            profit: self.profit as int,
            profit_bps: self.profit_bps as int,
            hop_impacts: impacts_view(self.hop_impacts@),
            total_impact_bps: self.total_impact_bps as int,
            order: self.order as int,
        }
    }
}

/// The paths the selector kept for one token configuration, tagged with the
/// configuration name and a timestamp.
#[derive(Clone, Debug)]
pub struct SwapPathSelected {
    pub name: Vec<u8>,
    pub timestamp: u64,
    pub paths: Vec<SwapPathResult>,
}

/// Mathematical view of a [`SwapPathSelected`].
pub struct SelectedData {
    pub name: Seq<u8>,
    pub timestamp: int,
    pub paths: Seq<ResultData>,
}

impl View for SwapPathSelected {
    type V = SelectedData;

    open spec fn view(&self) -> SelectedData {
        SelectedData {
            name: self.name@,
            timestamp: self.timestamp as int,
            paths: results_view(self.paths@),
        }
    }
}

/// Ordered collection of per-configuration selections: the unit of file
/// serialization and the aggregator's merge input and output.
#[derive(Clone, Debug)]
pub struct VecSwapPathSelected {
    pub value: Vec<SwapPathSelected>,
}

impl View for VecSwapPathSelected {
    type V = Seq<SelectedData>;

    open spec fn view(&self) -> Seq<SelectedData> {
        selecteds_view(self.value@)
    }
}

/// One decoded quote event from the live feed: a full reserve snapshot for
/// one pool, stamped with the feed's clock.
#[derive(Clone, Copy, PartialEq, Eq, Structural, Debug)]
pub struct QuoteUpdate {
    pub pool_id: u64,
    pub reserve_a: u64,
    pub reserve_b: u64,
    pub timestamp: u64,
}

/// Failure taxonomy of the pipeline.
#[derive(Clone, Copy, PartialEq, Eq, Structural, Debug)]
pub enum ArbError {
    /// Malformed configuration (for instance an empty token set); fatal for
    /// that configuration run only.
    InputError,
    /// No data for a required pair or a disconnected feed; degrades to a
    /// zero-result output, never a crash.
    DataUnavailable,
    /// Pricing arithmetic left the representable range; the offending path
    /// is discarded, sibling paths are unaffected.
    NumericOverflow,
    /// A persistence sink failed; surfaced to the caller, not retried.
    PersistenceFailure,
}

/// View of a hop list.
pub open spec fn hops_view(hs: Seq<Hop>) -> Seq<HopData> {
    hs.map_values(|h: Hop| h@)
}

/// View of a pool list.
pub open spec fn pools_view(ps: Seq<Pool>) -> Seq<PoolData> {
    ps.map_values(|p: Pool| p@)
}

/// View of an impact list.
pub open spec fn impacts_view(is: Seq<u64>) -> Seq<int> {
    is.map_values(|i: u64| i as int)
}

/// View of a priced-result list.
pub open spec fn results_view(rs: Seq<SwapPathResult>) -> Seq<ResultData> {
    rs.map_values(|r: SwapPathResult| r@)
}

/// View of a selection list.
pub open spec fn selecteds_view(ss: Seq<SwapPathSelected>) -> Seq<SelectedData> {
    ss.map_values(|s: SwapPathSelected| s@)
}

/// The addresses of a token list.
pub open spec fn addrs_view(ts: Seq<TokenInArb>) -> Seq<Seq<u8>> {
    ts.map_values(|t: TokenInArb| t.address@)
}

/// View of a list of byte strings.
pub open spec fn bytes_view(bs: Seq<Vec<u8>>) -> Seq<Seq<u8>> {
    bs.map_values(|b: Vec<u8>| b@)
}

/// Byte-string equality, the identity test for token addresses.
pub fn bytes_eq(a: &Vec<u8>, b: &Vec<u8>) -> (r: bool)
    ensures
        r == (a@ == b@),
{
    if a.len() != b.len() {
        assert(a@ != b@);
        return false;
    }
    let n = a.len();
    let mut i: usize = 0;
    while i < n
        invariant
            n == a.len() == b.len(),
            0 <= i <= n,
            forall|j: int| 0 <= j < i ==> a@[j] == b@[j],
        decreases n - i,
    {
        if a[i] != b[i] {
            assert(a@ != b@);
            return false;
        }
        i += 1;
    }
    proof {
        assert(a@ =~= b@);
    }
    true
}


/// Copies a byte string.
pub fn copy_bytes(v: &Vec<u8>) -> (r: Vec<u8>)
    ensures
        r@ == v@,
{
    let mut r: Vec<u8> = Vec::new();
    let n = v.len();
    let mut i: usize = 0;
    while i < n
        invariant
            n == v.len(),
            0 <= i <= n,
            r@ == v@.take(i as int),
        decreases n - i,
    {
        r.push(v[i]);
        proof {
            assert(v@.take(i + 1) =~= v@.take(i as int).push(v@[i as int]));
        }
        i += 1;
    }
    proof {
        assert(v@.take(n as int) =~= v@);
    }
    r
}

/// Copies a hop list.
pub fn copy_hops(v: &Vec<Hop>) -> (r: Vec<Hop>)
    ensures
        r@ == v@,
{
    let mut r: Vec<Hop> = Vec::new();
    let n = v.len();
    let mut i: usize = 0;
    while i < n
        invariant
            n == v.len(),
            0 <= i <= n,
            r@ == v@.take(i as int),
        decreases n - i,
    {
        r.push(v[i]);
        proof {
            assert(v@.take(i + 1) =~= v@.take(i as int).push(v@[i as int]));
        }
        i += 1;
    }
    proof {
        assert(v@.take(n as int) =~= v@);
    }
    r
}

/// Copies a list of machine words.
pub fn copy_u64s(v: &Vec<u64>) -> (r: Vec<u64>)
    ensures
        r@ == v@,
{
    let mut r: Vec<u64> = Vec::new();
    let n = v.len();
    let mut i: usize = 0;
    while i < n
        invariant
            n == v.len(),
            0 <= i <= n,
            r@ == v@.take(i as int),
        decreases n - i,
    {
        r.push(v[i]);
        proof {
            assert(v@.take(i + 1) =~= v@.take(i as int).push(v@[i as int]));
        }
        i += 1;
    }
    proof {
        assert(v@.take(n as int) =~= v@);
    }
    r
}

/// Copies one priced result.
pub fn copy_result(r: &SwapPathResult) -> (c: SwapPathResult)
    ensures
        c@ == r@,
{
    let c = SwapPathResult {
        path: SwapPath { hops: copy_hops(&r.path.hops) },
        amount_in: r.amount_in,
        amount_out: r.amount_out,
        profit: r.profit,
        profit_bps: r.profit_bps,
        hop_impacts: copy_u64s(&r.hop_impacts),
        total_impact_bps: r.total_impact_bps,
        order: r.order,
    };
    c
}


/// Copies a priced-result list.
pub fn copy_results(v: &Vec<SwapPathResult>) -> (r: Vec<SwapPathResult>)
    ensures
        results_view(r@) == results_view(v@),
{
    let mut r: Vec<SwapPathResult> = Vec::new();
    let n = v.len();
    let mut i: usize = 0;
    while i < n
        invariant
            n == v.len(),
            0 <= i <= n,
            results_view(r@) == results_view(v@).take(i as int),
        decreases n - i,
    {
        let ghost before = results_view(r@);
        let c = copy_result(&v[i]);
        r.push(c);
        proof {
            assert(results_view(r@) =~= before.push(v@[i as int]@));
            assert(results_view(v@).take(i + 1) =~= results_view(v@).take(i as int).push(
                v@[i as int]@,
            ));
        }
        i += 1;
    }
    proof {
        assert(results_view(v@).take(n as int) =~= results_view(v@));
    }
    r
}

/// Copies one selection.
pub fn copy_selected(s: &SwapPathSelected) -> (c: SwapPathSelected)
    ensures
        c@ == s@,
{
    SwapPathSelected {
        name: copy_bytes(&s.name),
        timestamp: s.timestamp,
        paths: copy_results(&s.paths),
    }
}

} // verus!
