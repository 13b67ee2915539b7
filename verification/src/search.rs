//! The exact search: the point of one list whose nearest neighbour in the
//! other lies farthest away.

use vstd::prelude::*;
use crate::metric::{admits_all, points, Metric};

verus! {

/// A point `x`, the point `y` found for it, and their distance `v`.
#[derive(Debug, Clone, PartialEq, Eq)]
pub struct Pair {
    pub x: Vec<usize>,
    pub y: Vec<usize>,
    pub v: u64,
}

/// The least distance from `x` to a point of `ys`, which must not be empty.
pub open spec fn nearest<M: Metric>(
    dist: M,
    x: Seq<usize>,
    ys: Seq<Seq<usize>>,
) -> nat
    recommends
        ys.len() > 0,
    decreases ys.len(),
{
    if ys.len() <= 1 {
        dist.value(x, ys[0])
    } else {
        let rest = nearest(dist, x, ys.drop_last());
        let d = dist.value(x, ys.last());
        if d < rest {
            d
        } else {
            rest
        }
    }
}

/// The directed distance from `xs` to `ys`, both not empty: the greatest, over
/// the points of `xs`, of the distance to the nearest point of `ys`.
pub open spec fn directed<M: Metric>(
    dist: M,
    xs: Seq<Seq<usize>>,
    ys: Seq<Seq<usize>>,
) -> nat
    recommends
        xs.len() > 0,
        ys.len() > 0,
    decreases xs.len(),
{
    if xs.len() <= 1 {
        nearest(dist, xs[0], ys)
    } else {
        let rest = directed(dist, xs.drop_last(), ys);
        let n = nearest(dist, xs.last(), ys);
        if n > rest {
            n
        } else {
            rest
        }
    }
}

/// `pair` is a pair of the search from `xs` to `ys`: its points are the
/// coordinates of `xs[i]` and `ys[j]`, its value is their distance, and no
/// point of `ys` is nearer to `xs[i]`.
pub open spec fn pairs<M: Metric>(
    dist: M,
    xs: Seq<Seq<usize>>,
    ys: Seq<Seq<usize>>,
    pair: Pair,
    i: int,
    j: int,
) -> bool {
    &&& 0 <= i < xs.len()
    &&& 0 <= j < ys.len()
    &&& pair.x@ == xs[i]
    &&& pair.y@ == ys[j]
    &&& pair.v == dist.value(xs[i], ys[j])
    &&& pair.v == nearest(dist, xs[i], ys)
}

/// Among the pairs of equal value, that of `xs[i]` and `ys[j]` comes first: no
/// earlier point of `xs` lies as far from `ys` as `xs[i]`, and no earlier
/// point of `ys` lies as near to `xs[i]` as `ys[j]`.
pub open spec fn comes_first<M: Metric>(
    dist: M,
    xs: Seq<Seq<usize>>,
    ys: Seq<Seq<usize>>,
    i: int,
    j: int,
) -> bool {
    &&& forall|a: int| 0 <= a < i ==> #[trigger] nearest(dist, xs[a], ys) < nearest(dist, xs[i], ys)
    &&& forall|b: int|
        0 <= b < j ==> #[trigger] dist.value(xs[i], ys[b]) > dist.value(xs[i], ys[j])
}

/// The nearest distance is the distance to some point, and no point is nearer.
pub proof fn lemma_nearest_is_least<M: Metric>(
    dist: M,
    x: Seq<usize>,
    ys: Seq<Seq<usize>>,
)
    requires
        ys.len() > 0,
    ensures
        forall|j: int| 0 <= j < ys.len() ==> nearest(dist, x, ys) <= #[trigger] dist.value(x, ys[j]),
        exists|j: int| 0 <= j < ys.len() && nearest(dist, x, ys) == #[trigger] dist.value(x, ys[j]),
    decreases ys.len(),
{
    if ys.len() <= 1 {
        assert(nearest(dist, x, ys) == dist.value(x, ys[0]));
    } else {
        let front = ys.drop_last();
        lemma_nearest_is_least(dist, x, front);
        assert forall|j: int| 0 <= j < ys.len() implies nearest(dist, x, ys) <= #[trigger] dist.value(x,
            ys[j],
        ) by {
            if j < front.len() {
                assert(front[j] == ys[j]);
                assert(nearest(dist, x, front) <= dist.value(x, front[j]));
            }
        }
        let k = choose|k: int|
            0 <= k < front.len() && nearest(dist, x, front) == #[trigger] dist.value(x, front[k]);
        assert(front[k] == ys[k]);
        if dist.value(x, ys.last()) < nearest(dist, x, front) {
            assert(nearest(dist, x, ys) == dist.value(x, ys[ys.len() - 1]));
        } else {
            assert(nearest(dist, x, ys) == dist.value(x, ys[k]));
        }
    }
}

/// The directed distance is the nearest distance of some point of `xs`, and no
/// point of `xs` has a greater one.
pub proof fn lemma_directed_is_greatest<M: Metric>(
    dist: M,
    xs: Seq<Seq<usize>>,
    ys: Seq<Seq<usize>>,
)
    requires
        xs.len() > 0,
    ensures
        forall|i: int| 0 <= i < xs.len() ==> #[trigger] nearest(dist, xs[i], ys) <= directed(dist, xs, ys),
        exists|i: int| 0 <= i < xs.len() && directed(dist, xs, ys) == #[trigger] nearest(dist, xs[i], ys),
    decreases xs.len(),
{
    if xs.len() <= 1 {
        assert(directed(dist, xs, ys) == nearest(dist, xs[0], ys));
    } else {
        let front = xs.drop_last();
        lemma_directed_is_greatest(dist, front, ys);
        assert forall|i: int| 0 <= i < xs.len() implies #[trigger] nearest(dist, xs[i], ys) <= directed(
            dist,
            xs,
            ys,
        ) by {
            if i < front.len() {
                assert(front[i] == xs[i]);
                assert(nearest(dist, front[i], ys) <= directed(dist, front, ys));
            }
        }
        let k = choose|k: int|
            0 <= k < front.len() && directed(dist, front, ys) == #[trigger] nearest(dist, front[k], ys);
        assert(front[k] == xs[k]);
        if nearest(dist, xs.last(), ys) > directed(dist, front, ys) {
            assert(directed(dist, xs, ys) == nearest(dist, xs[xs.len() - 1], ys));
        } else {
            assert(directed(dist, xs, ys) == nearest(dist, xs[k], ys));
        }
    }
}

/// Looks for the point of `ys` nearest to `x`, and gives up as soon as one
/// lies nearer than `bound`.
///
/// The answer is the index of the first nearest point and its distance, when
/// no point of `ys` lies nearer than `bound`; it is `None` when one does, or
/// when `ys` is empty.
pub fn nearest_neighbor<M: Metric>(
    x: &Vec<usize>,
    ys: &Vec<Vec<usize>>,
    dist: &M,
    bound: u64,
) -> (found: Option<(usize, u64)>)
    requires
        forall|j: int| 0 <= j < ys.len() ==> dist.admits(x@, #[trigger] points(ys@)[j]),
    ensures
        found is Some <==> ys.len() > 0 && nearest(*dist, x@, points(ys@)) >= bound,
        found matches Some((j, least)) ==> j < ys.len() && least == dist.value(x@, ys[j as int]@)
            && least == nearest(*dist, x@, points(ys@)),
        found matches Some((j, least)) ==> forall|k: int|
            0 <= k < j ==> #[trigger] dist.value(x@, points(ys@)[k]) > least,
{
    let ghost all = points(ys@);
    let mut best: Option<(usize, u64)> = None;
    let mut j: usize = 0;
    while j < ys.len()
        invariant
            j <= ys.len(),
            all == points(ys@),
            forall|k: int| 0 <= k < ys.len() ==> dist.admits(x@, #[trigger] all[k]),
            best is None <==> j == 0,
            best matches Some((at, least)) ==> at < j && least == dist.value(x@, ys[at as int]@)
                && least == nearest(*dist, x@, all.take(j as int)) && least >= bound,
            best matches Some((at, least)) ==> forall|k: int|
                0 <= k < j ==> #[trigger] dist.value(x@, all[k]) >= least,
            best matches Some((at, least)) ==> forall|k: int|
                0 <= k < at ==> #[trigger] dist.value(x@, all[k]) > least,
        decreases ys.len() - j,
    {
        assert(all[j as int] == ys[j as int]@);
        let d = dist.distance(x, &ys[j]);
        proof {
            assert(all.take(j + 1).drop_last() =~= all.take(j as int));
            assert(all.take(j + 1).last() == all[j as int]);
            assert(all.take(j + 1)[0] == all[0]);
        }
        if d < bound {
            proof {
                lemma_nearest_is_least(*dist, x@, all);
                assert(nearest(*dist, x@, all) <= dist.value(x@, all[j as int]));
            }
            return None;
        }
        match best {
            None => {
                best = Some((j, d));
            },
            Some((_, least)) => {
                if d < least {
                    best = Some((j, d));
                }
            },
        }
        j += 1;
    }
    proof {
        assert(all.take(j as int) =~= all);
    }
    best
}

/// The exact search: the point of `x_vec` whose nearest neighbour in `y_vec`
/// is farthest away, with that neighbour and their distance.
///
/// There is a pair exactly when neither list is empty. Its value is the
/// directed distance from `x_vec` to `y_vec`, whatever the order of the lists;
/// of several pairs with that value, the first is found.
pub fn find_max<M: Metric>(x_vec: &Vec<Vec<usize>>, y_vec: &Vec<Vec<usize>>, dist: M) -> (found:
    Option<Pair>)
    requires
        admits_all(dist, points(x_vec@), points(y_vec@)),
    ensures
        found is Some <==> x_vec.len() > 0 && y_vec.len() > 0,
        found matches Some(pair) ==> pair.v == directed(dist, points(x_vec@), points(y_vec@)),
        found matches Some(pair) ==> exists|i: int, j: int|
            pairs(dist, points(x_vec@), points(y_vec@), pair, i, j) && comes_first(
                dist,
                points(x_vec@),
                points(y_vec@),
                i,
                j,
            ),
{
    let ghost xs = points(x_vec@);
    let ghost ys = points(y_vec@);
    let mut best: Option<(usize, usize, u64)> = None;
    let mut i: usize = 0;
    while i < x_vec.len()
        invariant
            i <= x_vec.len(),
            xs == points(x_vec@),
            ys == points(y_vec@),
            admits_all(dist, xs, ys),
            best is Some <==> i > 0 && y_vec.len() > 0,
            best matches Some((bi, bj, max)) ==> bi < i && bj < y_vec.len() && max == dist.value(
                xs[bi as int],
                ys[bj as int],
            ) && max == nearest(dist, xs[bi as int], ys) && max == directed(
                dist,
                xs.take(i as int),
                ys,
            ) && comes_first(dist, xs, ys, bi as int, bj as int),
        decreases x_vec.len() - i,
    {
        let bound: u64 = match best {
            Some((_, _, max)) => max,
            None => 0,
        };
        proof {
            assert forall|j: int| 0 <= j < y_vec.len() implies dist.admits(
                x_vec[i as int]@,
                #[trigger] ys[j],
            ) by {
                assert(dist.admits(xs[i as int], ys[j]));
            }
            assert(xs.take(i + 1).drop_last() =~= xs.take(i as int));
            assert(xs.take(i + 1).last() == xs[i as int]);
            assert(xs.take(i + 1)[0] == xs[0]);
            if i > 0 {
                lemma_directed_is_greatest(dist, xs.take(i as int), ys);
                assert forall|a: int| 0 <= a < i implies #[trigger] nearest(dist, xs[a], ys)
                    <= directed(dist, xs.take(i as int), ys) by {
                    assert(xs.take(i as int)[a] == xs[a]);
                }
            }
        }
        match nearest_neighbor(&x_vec[i], y_vec, &dist, bound) {
            Some((j, least)) => {
                let better = match best {
                    Some((_, _, max)) => least > max,
                    None => true,
                };
                if better {
                    best = Some((i, j, least));
                }
            },
            None => {},
        }
        i += 1;
    }
    proof {
        assert(xs.take(i as int) =~= xs);
    }
    if let Some((bi, bj, max)) = best {
        let pair = Pair { x: x_vec[bi].clone(), y: y_vec[bj].clone(), v: max };
        proof {
            assert(pair.x@ =~= x_vec[bi as int]@);
            assert(pair.y@ =~= y_vec[bj as int]@);
        }
        let found = Some(pair);
        assert(pairs(dist, xs, ys, found->0, bi as int, bj as int) && comes_first(
            dist,
            xs,
            ys,
            bi as int,
            bj as int,
        ));
        return found;
    }
    None
}

} // verus!
