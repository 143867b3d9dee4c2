//! Path ranker and selector: orders priced paths by profit and keeps the
//! best K.
//!
//! Profit descending; ties go to the path with the lower aggregate price
//! impact, then to the earlier enumeration position, so the ranking is a
//! total order and the selection fully deterministic.  K is a hard cap:
//! fewer qualifying paths give a shorter list, never padding.  An optional
//! restriction keeps only paths all of whose hops cross an allow-listed
//! pool set before ranking.

use vstd::prelude::*;
use crate::types::{copy_result, results_view, ResultData, SwapPathResult};

verus! {

/// Ranking order: `a` ranks at least as high as `b`.
pub open spec fn spec_key_ge(a: ResultData, b: ResultData) -> bool {
    ||| a.profit > b.profit
    ||| (a.profit == b.profit && a.total_impact_bps < b.total_impact_bps)
    ||| (a.profit == b.profit && a.total_impact_bps == b.total_impact_bps && a.order <= b.order)
}

/// A sequence is sorted by rank, best first.
pub open spec fn spec_sorted_desc(s: Seq<ResultData>) -> bool {
    forall|i: int, j: int| 0 <= i < j < s.len() ==> spec_key_ge(#[trigger] s[i], #[trigger] s[j])
}

/// Inserts one result into a rank-sorted sequence, before the first entry
/// it outranks or equals.
pub open spec fn spec_insert_desc(x: ResultData, s: Seq<ResultData>) -> Seq<ResultData>
    decreases s.len(),
{
    if s.len() == 0 {
        seq![x]
    } else if spec_key_ge(x, s[0]) {
        seq![x] + s
    } else {
        seq![s[0]] + spec_insert_desc(x, s.skip(1))
    }
}

/// Insertion sort by rank, best first.
pub open spec fn spec_sort_desc(s: Seq<ResultData>) -> Seq<ResultData>
    decreases s.len(),
{
    if s.len() == 0 {
        Seq::empty()
    } else {
        spec_insert_desc(s[0], spec_sort_desc(s.skip(1)))
    }
}

/// Every hop of a path crosses an allowed pool.
pub open spec fn spec_path_allowed(r: ResultData, allowed: Seq<int>) -> bool {
    forall|i: int| 0 <= i < r.hops.len() ==> allowed.contains((#[trigger] r.hops[i]).pool_id)
}

/// The paths that survive the restriction, in input order.
pub open spec fn spec_restrict(s: Seq<ResultData>, allowed: Seq<int>) -> Seq<ResultData>
    decreases s.len(),
{
    if s.len() == 0 {
        Seq::empty()
    } else {
        spec_restrict(s.drop_last(), allowed) + if spec_path_allowed(s.last(), allowed) {
            seq![s.last()]
        } else {
            Seq::empty()
        }
    }
}

/// What the selector returns: the restricted set (when asked), ranked, cut
/// to at most `k` entries.
pub open spec fn spec_select(
    s: Seq<ResultData>,
    k: int,
    restrict: bool,
    allowed: Seq<int>,
) -> Seq<ResultData> {
    let c = if restrict {
        spec_restrict(s, allowed)
    } else {
        s
    };
    let sorted = spec_sort_desc(c);
    sorted.take(if k <= sorted.len() {
        k
    } else {
        sorted.len() as int
    })
}

/// Inserting into a rank-sorted sequence keeps it sorted, grows it by one,
/// and adds no entry that was not there.
pub proof fn lemma_insert_desc_sorted(x: ResultData, s: Seq<ResultData>)
    requires
        spec_sorted_desc(s),
    ensures
        spec_sorted_desc(spec_insert_desc(x, s)),
        spec_insert_desc(x, s).len() == s.len() + 1,
        forall|j: int| 0 <= j < spec_insert_desc(x, s).len() ==> (#[trigger] spec_insert_desc(
            x,
            s,
        )[j] == x || s.contains(spec_insert_desc(x, s)[j])),
    decreases s.len(),
{
    let out = spec_insert_desc(x, s);
    if s.len() == 0 {
    } else if spec_key_ge(x, s[0]) {
        assert(forall|j: int| 0 <= j < s.len() ==> out[j + 1] == s[j]);
        assert forall|i: int, j: int| 0 <= i < j < out.len() implies spec_key_ge(
            #[trigger] out[i],
            #[trigger] out[j],
        ) by {
            if i == 0 {
                if j > 1 {
                    assert(spec_key_ge(s[0], s[j - 1]));
                }
            }
        }
        assert(forall|j: int| 0 <= j < s.len() ==> s.contains(#[trigger] s[j]));
    } else {
        let tail = s.skip(1);
        assert(spec_sorted_desc(tail)) by {
            assert(forall|i: int, j: int|
                0 <= i < j < tail.len() ==> spec_key_ge(#[trigger] tail[i], #[trigger] tail[j]));
        }
        lemma_insert_desc_sorted(x, tail);
        let sub = spec_insert_desc(x, tail);
        assert(out == seq![s[0]] + sub);
        assert(forall|j: int| 0 <= j < sub.len() ==> out[j + 1] == sub[j]);
        assert forall|i: int, j: int| 0 <= i < j < out.len() implies spec_key_ge(
            #[trigger] out[i],
            #[trigger] out[j],
        ) by {
            if i == 0 {
                let e = sub[j - 1];
                assert(e == x || tail.contains(e));
                if e == x {
                    // Totality of the ranking: not ranking above the head
                    // means the head ranks at least as high.
                    assert(spec_key_ge(s[0], x));
                } else {
                    let w = choose|w: int| 0 <= w < tail.len() && tail[w] == e;
                    assert(spec_key_ge(s[0], s[w + 1]));
                }
            } else {
                assert(spec_key_ge(sub[i - 1], sub[j - 1]));
            }
        }
        assert forall|j: int| 0 <= j < out.len() implies (#[trigger] out[j] == x || s.contains(
            out[j],
        )) by {
            if j == 0 {
                assert(s[0] == s[0]);
                assert(s.contains(s[0]));
            } else {
                let e = sub[j - 1];
                if e == x {
                } else {
                    let w = choose|w: int| 0 <= w < tail.len() && tail[w] == e;
                    assert(s[w + 1] == e);
                    assert(s.contains(e));
                }
            }
        }
    }
}

/// The sort really sorts, and keeps the length.
pub proof fn lemma_sort_desc_sorted(s: Seq<ResultData>)
    ensures
        spec_sorted_desc(spec_sort_desc(s)),
        spec_sort_desc(s).len() == s.len(),
    decreases s.len(),
{
    if s.len() == 0 {
    } else {
        lemma_sort_desc_sorted(s.skip(1));
        lemma_insert_desc_sorted(s[0], spec_sort_desc(s.skip(1)));
    }
}

/// Sorting an already rank-sorted sequence returns it unchanged.
pub proof fn lemma_sort_desc_of_sorted(s: Seq<ResultData>)
    requires
        spec_sorted_desc(s),
    ensures
        spec_sort_desc(s) == s,
    decreases s.len(),
{
    if s.len() == 0 {
        assert(spec_sort_desc(s) =~= s);
    } else {
        let tail = s.skip(1);
        assert(spec_sorted_desc(tail)) by {
            assert(forall|i: int, j: int|
                0 <= i < j < tail.len() ==> spec_key_ge(#[trigger] tail[i], #[trigger] tail[j]));
        }
        lemma_sort_desc_of_sorted(tail);
        if tail.len() == 0 {
            assert(spec_sort_desc(s) =~= s);
        } else {
            assert(spec_key_ge(s[0], tail[0]));
            assert(spec_sort_desc(s) == spec_insert_desc(s[0], tail));
            assert(seq![s[0]] + tail =~= s);
        }
    }
}

/// Re-running the selector on its own output with the same cap yields the
/// identical selection, in the same order: selection is idempotent.
pub proof fn lemma_selector_idempotent(s: Seq<ResultData>, k: int)
    requires
        0 <= k,
    ensures
        spec_select(spec_select(s, k, false, Seq::empty()), k, false, Seq::empty()) == spec_select(
            s,
            k,
            false,
            Seq::empty(),
        ),
{
    let sorted = spec_sort_desc(s);
    lemma_sort_desc_sorted(s);
    let cut = if k <= sorted.len() {
        k
    } else {
        sorted.len() as int
    };
    let sel = sorted.take(cut);
    assert(spec_sorted_desc(sel)) by {
        assert(forall|i: int, j: int|
            0 <= i < j < sel.len() ==> spec_key_ge(#[trigger] sel[i], #[trigger] sel[j]));
    }
    lemma_sort_desc_of_sorted(sel);
    assert(sel.take(sel.len() as int) =~= sel);
    if k <= sel.len() {
        assert(sel.len() == k);
        assert(sel.take(k) =~= sel);
    }
}

/// Executable ranking comparison.
fn key_ge_exec(a: &SwapPathResult, b: &SwapPathResult) -> (r: bool)
    ensures
        r == spec_key_ge(a@, b@),
{
    if a.profit > b.profit {
        true
    } else if a.profit == b.profit && a.total_impact_bps < b.total_impact_bps {
        true
    } else if a.profit == b.profit && a.total_impact_bps == b.total_impact_bps && a.order
        <= b.order {
        true
    } else {
        false
    }
}

/// Splices one element into place, `spec_insert_desc` made executable.
proof fn lemma_insert_desc_at(x: ResultData, s: Seq<ResultData>, j: int)
    requires
        0 <= j <= s.len(),
        forall|i: int| 0 <= i < j ==> !spec_key_ge(x, #[trigger] s[i]),
        j == s.len() || spec_key_ge(x, s[j]),
    ensures
        spec_insert_desc(x, s) == s.take(j) + seq![x] + s.skip(j),
    decreases j,
{
    if j == 0 {
        if s.len() == 0 {
            assert(spec_insert_desc(x, s) =~= s.take(0) + seq![x] + s.skip(0));
        } else {
            assert(s.skip(0) =~= s);
            assert(spec_insert_desc(x, s) =~= s.take(0) + seq![x] + s.skip(0));
        }
    } else {
        let tail = s.skip(1);
        assert(forall|i: int| 0 <= i < j - 1 ==> !spec_key_ge(x, #[trigger] tail[i]));
        assert(j - 1 == tail.len() || spec_key_ge(x, tail[j - 1]));
        lemma_insert_desc_at(x, tail, j - 1);
        assert(spec_insert_desc(x, s) == seq![s[0]] + spec_insert_desc(x, tail));
        assert(seq![s[0]] + (tail.take(j - 1) + seq![x] + tail.skip(j - 1)) =~= s.take(j) + seq![x]
            + s.skip(j));
    }
}

/// Inserts one priced path into a rank-sorted list.
fn insert_desc(sorted: &mut Vec<SwapPathResult>, x: SwapPathResult)
    ensures
        results_view(final (sorted)@) == spec_insert_desc(x@, results_view(old(sorted)@)),
{
    let ghost sv = results_view(sorted@);
    let n = sorted.len();
    let mut j: usize = 0;
    while j < n
        invariant
            n == sorted.len(),
            0 <= j <= n,
            sv == results_view(sorted@),
            forall|i: int| 0 <= i < j ==> !spec_key_ge(x@, #[trigger] sv[i]),
        ensures
            n == sorted.len(),
            sv == results_view(sorted@),
            0 <= j <= n,
            forall|i: int| 0 <= i < j ==> !spec_key_ge(x@, #[trigger] sv[i]),
            j == n || spec_key_ge(x@, sv[j as int]),
        decreases n - j,
    {
        if key_ge_exec(&x, &sorted[j]) {
            break ;
        }
        j += 1;
    }
    proof {
        lemma_insert_desc_at(x@, sv, j as int);
    }
    sorted.insert(j, x);
    proof {
        assert(results_view(sorted@) =~= sv.take(j as int) + seq![x@] + sv.skip(j as int));
    }
}

/// Tests whether a pool identity is in the allow list.
fn contains_id(v: &Vec<u64>, x: u64) -> (r: bool)
    ensures
        r == crate::types::impacts_view(v@).contains(x as int),
{
    let ghost iv = crate::types::impacts_view(v@);
    let n = v.len();
    let mut i: usize = 0;
    while i < n
        invariant
            n == v.len(),
            iv == crate::types::impacts_view(v@),
            0 <= i <= n,
            forall|j: int| 0 <= j < i ==> iv[j] != x as int,
        decreases n - i,
    {
        if v[i] == x {
            assert(iv[i as int] == x as int);
            return true;
        }
        i += 1;
    }
    assert(!iv.contains(x as int));
    false
}

/// Tests whether every hop of a priced path crosses an allowed pool.
fn path_allowed(r: &SwapPathResult, allowed: &Vec<u64>) -> (b: bool)
    ensures
        b == spec_path_allowed(r@, crate::types::impacts_view(allowed@)),
{
    let ghost av = crate::types::impacts_view(allowed@);
    let n = r.path.hops.len();
    let mut i: usize = 0;
    while i < n
        invariant
            n == r.path.hops.len(),
            av == crate::types::impacts_view(allowed@),
            0 <= i <= n,
            forall|j: int| 0 <= j < i ==> av.contains((#[trigger] r@.hops[j]).pool_id),
        decreases n - i,
    {
        let ok = contains_id(allowed, r.path.hops[i].pool_id);
        if !ok {
            assert(r@.hops[i as int].pool_id == r.path.hops@[i as int].pool_id as int);
            return false;
        }
        i += 1;
    }
    true
}

/// Ranks priced paths and keeps at most `numbers_of_best_paths` of them.
/// With `restrict` set, paths with a hop outside the `allowed` pool set
/// are dropped before ranking.  Fully deterministic: the result is a
/// function of the inputs alone.
pub fn select_best_paths(
    results: Vec<SwapPathResult>,
    numbers_of_best_paths: usize,
    restrict: bool,
    allowed: &Vec<u64>,
) -> (r: Vec<SwapPathResult>)
    ensures
        results_view(r@) == spec_select(
            results_view(results@),
            numbers_of_best_paths as int,
            restrict,
            crate::types::impacts_view(allowed@),
        ),
{
    let ghost inputv = results_view(results@);
    let ghost av = crate::types::impacts_view(allowed@);
    let n = results.len();
    let mut pool_ok: Vec<SwapPathResult> = Vec::new();
    if restrict {
        let mut i: usize = 0;
        proof {
            assert(spec_restrict(inputv.take(0), av) =~= results_view(pool_ok@));
        }
        while i < n
            invariant
                n == results.len(),
                0 <= i <= n,
                inputv == results_view(results@),
                av == crate::types::impacts_view(allowed@),
                results_view(pool_ok@) == spec_restrict(inputv.take(i as int), av),
            decreases n - i,
        {
            let ghost before = results_view(pool_ok@);
            let keep = path_allowed(&results[i], allowed);
            if keep {
                let x = copy_result(&results[i]);
                pool_ok.push(x);
            }
            proof {
                assert(inputv[i as int] == results@[i as int]@);
                assert(inputv.take(i + 1).drop_last() =~= inputv.take(i as int));
                assert(inputv.take(i + 1).last() == inputv[i as int]);
                if spec_path_allowed(inputv[i as int], av) {
                    assert(results_view(pool_ok@) =~= before + seq![inputv[i as int]]);
                } else {
                    assert(results_view(pool_ok@) =~= before + Seq::<ResultData>::empty());
                }
            }
            i += 1;
        }
        proof {
            assert(inputv.take(n as int) =~= inputv);
        }
    } else {
        pool_ok = results;
    }
    let ghost cv = results_view(pool_ok@);
    assert(cv == if restrict {
        spec_restrict(inputv, av)
    } else {
        inputv
    });

    // Insertion sort, processed back to front so the spec recursion lines
    // up with the loop.
    let mut sorted: Vec<SwapPathResult> = Vec::new();
    let mut stack = pool_ok;
    let mut left = stack.len();
    proof {
        assert(cv.skip(left as int) =~= Seq::<ResultData>::empty());
        assert(cv.take(left as int) =~= cv);
        assert(results_view(sorted@) =~= spec_sort_desc(cv.skip(left as int)));
    }
    while left > 0
        invariant
            left == stack.len(),
            left <= cv.len(),
            results_view(stack@) == cv.take(left as int),
            results_view(sorted@) == spec_sort_desc(cv.skip(left as int)),
        decreases left,
    {
        let ghost stackv = results_view(stack@);
        let x = stack.pop().unwrap();
        proof {
            assert(stackv.last() == x@);
            assert(results_view(stack@) =~= stackv.drop_last());
            assert(stackv.drop_last() =~= cv.take(left - 1));
            assert(cv.skip(left - 1)[0] == cv[left - 1]);
            assert(cv[left - 1] == x@);
            assert(cv.skip(left - 1).skip(1) =~= cv.skip(left as int));
        }
        insert_desc(&mut sorted, x);
        left = left - 1;
    }
    proof {
        assert(cv.skip(0) =~= cv);
    }

    // Cut to the cap.
    let ghost sortedv = results_view(sorted@);
    let mut out = sorted;
    if numbers_of_best_paths < out.len() {
        out.truncate(numbers_of_best_paths);
        proof {
            assert(results_view(out@) =~= sortedv.take(numbers_of_best_paths as int));
        }
    } else {
        proof {
            assert(results_view(out@) =~= sortedv.take(sortedv.len() as int));
        }
    }
    out
}

} // verus!
