//! Strategy aggregator: merges the selections of several token
//! configurations run in one session into a single strategy set.
//!
//! Aggregation is order-preserving concatenation, never re-ranking:
//! downstream consumers re-rank if they need to.  The merged strategy is
//! named by joining the originating configuration names in run order.

use vstd::prelude::*;
use crate::types::{
    copy_selected, selecteds_view, SelectedData, SwapPathSelected, VecSwapPathSelected,
};

verus! {

/// View of a list of selection collections.
pub open spec fn collections_view(vs: Seq<VecSwapPathSelected>) -> Seq<Seq<SelectedData>> {
    vs.map_values(|v: VecSwapPathSelected| v@)
}

/// The merge of several selection collections: their concatenation, in
/// input order.
pub open spec fn spec_merge(inputs: Seq<Seq<SelectedData>>) -> Seq<SelectedData>
    decreases inputs.len(),
{
    if inputs.len() == 0 {
        Seq::empty()
    } else {
        spec_merge(inputs.drop_last()) + inputs.last()
    }
}

/// The merged strategy name: the per-configuration names joined with `-`.
pub open spec fn spec_join_names(ss: Seq<SelectedData>) -> Seq<u8>
    decreases ss.len(),
{
    if ss.len() == 0 {
        Seq::empty()
    } else if ss.len() == 1 {
        ss[0].name
    } else {
        spec_join_names(ss.drop_last()) + seq![0x2Du8] + ss.last().name
    }
}

/// The merge of exactly two collections is their concatenation.
pub proof fn lemma_merge_pair(x: Seq<SelectedData>, y: Seq<SelectedData>)
    ensures
        spec_merge(seq![x, y]) == x + y,
{
    assert(seq![x, y].drop_last() =~= seq![x]);
    assert(seq![x, y].last() == y);
    assert(seq![x].drop_last() =~= Seq::<Seq<SelectedData>>::empty());
    assert(seq![x].last() == x);
    assert(spec_merge(Seq::<Seq<SelectedData>>::empty()) == Seq::<SelectedData>::empty());
    assert(spec_merge(seq![x]) == Seq::<SelectedData>::empty() + x);
    assert(spec_merge(seq![x, y]) == spec_merge(seq![x]) + y);
    assert((Seq::<SelectedData>::empty() + x) + y =~= x + y);
}

/// Merging is associative by concatenation: merging the merge of `a` and
/// `b` with `c` equals merging `a` with the merge of `b` and `c`, order
/// preserved.
pub proof fn lemma_merge_associative(a: Seq<SelectedData>, b: Seq<SelectedData>, c: Seq<
    SelectedData,
>)
    ensures
        spec_merge(seq![spec_merge(seq![a, b]), c]) == spec_merge(
            seq![a, spec_merge(seq![b, c])],
        ),
{
    let ab = spec_merge(seq![a, b]);
    let bc = spec_merge(seq![b, c]);
    lemma_merge_pair(a, b);
    lemma_merge_pair(b, c);
    lemma_merge_pair(ab, c);
    lemma_merge_pair(a, bc);
    assert((a + b) + c =~= a + (b + c));
}

/// Merges the given selection collections into one, in input order.
pub fn aggregate(inputs: &Vec<VecSwapPathSelected>) -> (r: VecSwapPathSelected)
    ensures
        r@ == spec_merge(collections_view(inputs@)),
{
    let ghost iv = collections_view(inputs@);
    let mut value: Vec<SwapPathSelected> = Vec::new();
    let n = inputs.len();
    let mut i: usize = 0;
    proof {
        assert(selecteds_view(value@) =~= spec_merge(iv.take(0)));
    }
    while i < n
        invariant
            n == inputs.len(),
            0 <= i <= n,
            iv == collections_view(inputs@),
            selecteds_view(value@) == spec_merge(iv.take(i as int)),
        decreases n - i,
    {
        let m = inputs[i].value.len();
        let mut j: usize = 0;
        proof {
            assert(iv[i as int] == inputs@[i as int]@);
            assert(selecteds_view(value@) + iv[i as int].take(0) =~= selecteds_view(value@));
        }
        let ghost base = selecteds_view(value@);
        while j < m
            invariant
                n == inputs.len(),
                0 <= i < n,
                m == inputs@[i as int].value.len(),
                0 <= j <= m,
                iv == collections_view(inputs@),
                base == spec_merge(iv.take(i as int)),
                selecteds_view(value@) == base + iv[i as int].take(j as int),
            decreases m - j,
        {
            let ghost before = selecteds_view(value@);
            let s = copy_selected(&inputs[i].value[j]);
            value.push(s);
            proof {
                assert(iv[i as int][j as int] == inputs@[i as int].value@[j as int]@);
                assert(selecteds_view(value@) =~= before.push(iv[i as int][j as int]));
                assert(base + iv[i as int].take(j + 1) =~= (base + iv[i as int].take(
                    j as int,
                )).push(iv[i as int][j as int]));
            }
            j += 1;
        }
        proof {
            assert(iv[i as int].take(m as int) =~= iv[i as int]);
            assert(iv.take(i + 1).drop_last() =~= iv.take(i as int));
            assert(iv.take(i + 1).last() == iv[i as int]);
        }
        i += 1;
    }
    proof {
        assert(iv.take(n as int) =~= iv);
    }
    VecSwapPathSelected { value }
}

/// The name of a merged strategy: the contained configuration names joined
/// with `-`, in run order.
pub fn aggregate_name(merged: &VecSwapPathSelected) -> (r: Vec<u8>)
    ensures
        r@ == spec_join_names(merged@),
{
    let mut r: Vec<u8> = Vec::new();
    let n = merged.value.len();
    let mut i: usize = 0;
    proof {
        assert(merged@.take(0) =~= Seq::<SelectedData>::empty());
        assert(r@ =~= spec_join_names(merged@.take(0)));
    }
    while i < n
        invariant
            n == merged.value.len(),
            0 <= i <= n,
            r@ == spec_join_names(merged@.take(i as int)),
        decreases n - i,
    {
        let ghost before = r@;
        if i > 0 {
            r.push(0x2D);
        }
        let name = &merged.value[i].name;
        let m = name.len();
        let mut j: usize = 0;
        while j < m
            invariant
                m == name.len(),
                0 <= j <= m,
                r@ == if i > 0 {
                    before + seq![0x2Du8] + name@.take(j as int)
                } else {
                    before + name@.take(j as int)
                },
            decreases m - j,
        {
            r.push(name[j]);
            proof {
                assert(name@.take(j + 1) =~= name@.take(j as int).push(name@[j as int]));
                if i > 0 {
                    assert((before + seq![0x2Du8] + name@.take(j as int)).push(name@[j as int])
                        =~= before + seq![0x2Du8] + name@.take(j + 1));
                } else {
                    assert((before + name@.take(j as int)).push(name@[j as int]) =~= before
                        + name@.take(j + 1));
                }
            }
            j += 1;
        }
        proof {
            assert(name@.take(m as int) =~= name@);
            assert(merged@[i as int].name == merged.value@[i as int]@.name);
            assert(merged@.take(i + 1).drop_last() =~= merged@.take(i as int));
            assert(merged@.take(i + 1).last() == merged@[i as int]);
            if i == 0 {
                assert(r@ =~= spec_join_names(merged@.take(1)));
            } else {
                assert(spec_join_names(merged@.take(i + 1)) == spec_join_names(merged@.take(
                    i as int,
                )) + seq![0x2Du8] + merged@[i as int].name);
                assert(r@ =~= spec_join_names(merged@.take(i + 1)));
            }
        }
        i += 1;
    }
    proof {
        assert(merged@.take(n as int) =~= merged@);
    }
    r
}

} // verus!
