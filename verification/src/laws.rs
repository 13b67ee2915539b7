//! What holds of the searches whatever their inputs.

use vstd::prelude::*;
use crate::metric::Metric;
use crate::percentile::retains;
use crate::search::{directed, lemma_directed_is_greatest, lemma_nearest_is_least, nearest, pairs, Pair};

verus! {

/// A point of a list is a point of every list that holds the same points.
proof fn lemma_found_in_other(a: Seq<Seq<usize>>, b: Seq<Seq<usize>>, i: int) -> (k: int)
    requires
        a.to_multiset() == b.to_multiset(),
        0 <= i < a.len(),
    ensures
        0 <= k < b.len(),
        b[k] == a[i],
{
    broadcast use vstd::seq_lib::group_to_multiset_ensures;

    assert(a.contains(a[i]));
    assert(b.to_multiset().count(a[i]) > 0);
    assert(b.contains(a[i]));
    choose|k: int| 0 <= k < b.len() && b[k] == a[i]
}

/// The nearest distance from a point to a list does not depend on the order
/// of the list.
pub proof fn lemma_nearest_any_order<M: Metric>(
    dist: M,
    x: Seq<usize>,
    ys: Seq<Seq<usize>>,
    other: Seq<Seq<usize>>,
)
    requires
        ys.len() > 0,
        ys.to_multiset() == other.to_multiset(),
    ensures
        nearest(dist, x, ys) == nearest(dist, x, other),
{
    broadcast use vstd::seq_lib::group_to_multiset_ensures;

    assert(ys.to_multiset().len() == ys.len());
    assert(other.to_multiset().len() == other.len());
    lemma_nearest_is_least(dist, x, ys);
    lemma_nearest_is_least(dist, x, other);
    let j = choose|j: int| 0 <= j < ys.len() && nearest(dist, x, ys) == #[trigger] dist.value(x, ys[j]);
    let k = lemma_found_in_other(ys, other, j);
    assert(nearest(dist, x, other) <= dist.value(x, other[k]));
    let j2 = choose|j: int|
        0 <= j < other.len() && nearest(dist, x, other) == #[trigger] dist.value(x, other[j]);
    let k2 = lemma_found_in_other(other, ys, j2);
    assert(nearest(dist, x, ys) <= dist.value(x, ys[k2]));
}

/// The directed distance does not depend on the order of either list: a
/// search of the same points in another order finds the same distance.
pub proof fn lemma_directed_any_order<M: Metric>(
    dist: M,
    xs: Seq<Seq<usize>>,
    ys: Seq<Seq<usize>>,
    xs_other: Seq<Seq<usize>>,
    ys_other: Seq<Seq<usize>>,
)
    requires
        xs.len() > 0,
        ys.len() > 0,
        xs.to_multiset() == xs_other.to_multiset(),
        ys.to_multiset() == ys_other.to_multiset(),
    ensures
        directed(dist, xs, ys) == directed(dist, xs_other, ys_other),
{
    broadcast use vstd::seq_lib::group_to_multiset_ensures;

    assert(xs.to_multiset().len() == xs.len());
    assert(xs_other.to_multiset().len() == xs_other.len());
    assert(ys.to_multiset().len() == ys.len());
    assert(ys_other.to_multiset().len() == ys_other.len());
    lemma_directed_is_greatest(dist, xs, ys);
    lemma_directed_is_greatest(dist, xs_other, ys_other);
    let i = choose|i: int| 0 <= i < xs.len() && directed(dist, xs, ys) == #[trigger] nearest(dist, xs[i], ys);
    let k = lemma_found_in_other(xs, xs_other, i);
    lemma_nearest_any_order(dist, xs[i], ys, ys_other);
    assert(nearest(dist, xs_other[k], ys_other) <= directed(dist, xs_other, ys_other));
    let i2 = choose|i: int|
        0 <= i < xs_other.len() && directed(dist, xs_other, ys_other) == #[trigger] nearest(
            dist,
            xs_other[i],
            ys_other,
        );
    let k2 = lemma_found_in_other(xs_other, xs, i2);
    lemma_nearest_any_order(dist, xs_other[i2], ys, ys_other);
    assert(nearest(dist, xs[k2], ys) <= directed(dist, xs, ys));
}

/// The value of a pair of a search is never above the directed distance: a
/// bounded search answers with no more than the exact search.
pub proof fn lemma_pair_at_most_directed<M: Metric>(
    dist: M,
    xs: Seq<Seq<usize>>,
    ys: Seq<Seq<usize>>,
    pair: Pair,
    i: int,
    j: int,
)
    requires
        pairs(dist, xs, ys, pair, i, j),
    ensures
        pair.v <= directed(dist, xs, ys),
{
    lemma_directed_is_greatest(dist, xs, ys);
    assert(nearest(dist, xs[i], ys) <= directed(dist, xs, ys));
}

/// Where a single point is retained, it is a point farthest from `ys`: a
/// bounded search that retains one pair answers with the directed distance.
pub proof fn lemma_one_retained_is_directed<M: Metric>(
    dist: M,
    xs: Seq<Seq<usize>>,
    ys: Seq<Seq<usize>>,
    kept: Set<int>,
    least: int,
)
    requires
        retains(dist, xs, ys, kept, least, 1),
    ensures
        nearest(dist, xs[least], ys) == directed(dist, xs, ys),
{
    lemma_directed_is_greatest(dist, xs, ys);
    let top = choose|i: int| 0 <= i < xs.len() && directed(dist, xs, ys) == #[trigger] nearest(dist, xs[i], ys);
    if kept.contains(top) && top != least {
        let rest = kept.remove(least);
        assert(rest.contains(top));
        assert(rest.len() == 0);
    }
    assert(nearest(dist, xs[top], ys) <= nearest(dist, xs[least], ys));
    assert(nearest(dist, xs[least], ys) <= directed(dist, xs, ys));
}

/// Two ways to retain `count` points agree on the distance of the least of
/// them: what a bounded search answers is that one distance.
pub proof fn lemma_retained_value_unique<M: Metric>(
    dist: M,
    xs: Seq<Seq<usize>>,
    ys: Seq<Seq<usize>>,
    kept: Set<int>,
    least: int,
    kept_other: Set<int>,
    least_other: int,
    count: nat,
)
    requires
        retains(dist, xs, ys, kept, least, count),
        retains(dist, xs, ys, kept_other, least_other, count),
    ensures
        nearest(dist, xs[least], ys) == nearest(dist, xs[least_other], ys),
{
    lemma_retained_value_at_least(dist, xs, ys, kept, least, kept_other, least_other, count);
    lemma_retained_value_at_least(dist, xs, ys, kept_other, least_other, kept, least, count);
}

/// The least of a retained set is not nearer than the least of another
/// retained set of as many points.
proof fn lemma_retained_value_at_least<M: Metric>(
    dist: M,
    xs: Seq<Seq<usize>>,
    ys: Seq<Seq<usize>>,
    kept: Set<int>,
    least: int,
    kept_other: Set<int>,
    least_other: int,
    count: nat,
)
    requires
        retains(dist, xs, ys, kept, least, count),
        retains(dist, xs, ys, kept_other, least_other, count),
    ensures
        nearest(dist, xs[least], ys) >= nearest(dist, xs[least_other], ys),
{
    if nearest(dist, xs[least], ys) < nearest(dist, xs[least_other], ys) {
        let rest = kept.remove(least);
        assert forall|i: int| kept_other.contains(i) implies rest.contains(i) by {
            assert(nearest(dist, xs[i], ys) >= nearest(dist, xs[least_other], ys));
            if !kept.contains(i) {
                assert(nearest(dist, xs[i], ys) <= nearest(dist, xs[least], ys));
            }
        }
        assert(kept_other.subset_of(rest));
        vstd::set_lib::lemma_len_subset(kept_other, rest);
    }
}

} // verus!
