//! Distances between coordinate vectors.
//!
//! A point is a `Vec<usize>` of grid coordinates. The searches of this crate
//! take the metric as a value of a type with the trait `Metric`; this module
//! has the trait, and the squared Euclidean distance as one such metric.

use vstd::prelude::*;

verus! {

/// The difference of two coordinates, taken from the greater.
pub open spec fn gap(a: usize, b: usize) -> nat {
    if a >= b {
        (a - b) as nat
    } else {
        (b - a) as nat
    }
}

/// The square of the difference of two coordinates.
pub open spec fn squared_gap(a: usize, b: usize) -> nat {
    gap(a, b) * gap(a, b)
}

/// The Manhattan distance of two coordinate vectors of one length: the sum,
/// axis by axis, of the differences.
pub open spec fn manhattan_distance(a: Seq<usize>, b: Seq<usize>) -> nat
    recommends
        a.len() == b.len(),
    decreases a.len(),
{
    if a.len() == 0 {
        0
    } else {
        manhattan_distance(a.drop_last(), b.drop_last()) + gap(a.last(), b.last())
    }
}

/// The squared Euclidean distance of two coordinate vectors of one length:
/// the sum, axis by axis, of the squared differences.
pub open spec fn squared_distance(a: Seq<usize>, b: Seq<usize>) -> nat
    recommends
        a.len() == b.len(),
    decreases a.len(),
{
    if a.len() == 0 {
        0
    } else {
        squared_distance(a.drop_last(), b.drop_last()) + squared_gap(a.last(), b.last())
    }
}

/// The coordinates of the points of a list.
pub open spec fn points(list: Seq<Vec<usize>>) -> Seq<Seq<usize>> {
    Seq::new(list.len(), |i: int| list[i]@)
}

/// A way to measure how far two points lie apart.
pub trait Metric {
    /// The distance of `a` and `b`.
    spec fn value(&self, a: Seq<usize>, b: Seq<usize>) -> nat;

    /// Whether the distance of `a` and `b` may be asked for.
    spec fn admits(&self, a: Seq<usize>, b: Seq<usize>) -> bool;

    /// Computes the distance of `a` and `b`.
    fn distance(&self, a: &Vec<usize>, b: &Vec<usize>) -> (d: u64)
        requires
            self.admits(a@, b@),
        ensures
            d == self.value(a@, b@),
    ;
}

/// `dist` admits every point of `xs` with every point of `ys`.
pub open spec fn admits_all<M: Metric>(dist: M, xs: Seq<Seq<usize>>, ys: Seq<Seq<usize>>) -> bool {
    forall|i: int, j: int|
        0 <= i < xs.len() && 0 <= j < ys.len() ==> #[trigger] dist.admits(xs[i], ys[j])
}

/// The squared Euclidean distance as a metric. It admits two points that have
/// the same number of coordinates and whose squared distance fits a `u64`.
#[derive(Clone, Copy, Debug, PartialEq, Eq, Structural)]
pub struct SquaredEuclidean;

impl Metric for SquaredEuclidean {
    open spec fn value(&self, a: Seq<usize>, b: Seq<usize>) -> nat {
        squared_distance(a, b)
    }

    open spec fn admits(&self, a: Seq<usize>, b: Seq<usize>) -> bool {
        a.len() == b.len() && squared_distance(a, b) <= u64::MAX
    }

    fn distance(&self, a: &Vec<usize>, b: &Vec<usize>) -> (d: u64) {
        distance(a, b)
    }
}

/// The Manhattan distance as a metric. It admits two points that have the
/// same number of coordinates and whose distance fits a `u64`.
#[derive(Clone, Copy, Debug, PartialEq, Eq, Structural)]
pub struct Manhattan;

impl Metric for Manhattan {
    open spec fn value(&self, a: Seq<usize>, b: Seq<usize>) -> nat {
        manhattan_distance(a, b)
    }

    open spec fn admits(&self, a: Seq<usize>, b: Seq<usize>) -> bool {
        a.len() == b.len() && manhattan_distance(a, b) <= u64::MAX
    }

    fn distance(&self, a: &Vec<usize>, b: &Vec<usize>) -> (d: u64) {
        let mut sum: u64 = 0;
        let mut k: usize = 0;
        while k < a.len()
            invariant
                k <= a.len(),
                a.len() == b.len(),
                manhattan_distance(a@, b@) <= u64::MAX,
                sum == manhattan_distance(a@.take(k as int), b@.take(k as int)),
            decreases a.len() - k,
        {
            let step: u64 = if a[k] >= b[k] {
                (a[k] - b[k]) as u64
            } else {
                (b[k] - a[k]) as u64
            };
            proof {
                lemma_prefix_manhattan(a@, b@, k + 1);
                assert(a@.take(k + 1).drop_last() =~= a@.take(k as int));
                assert(b@.take(k + 1).drop_last() =~= b@.take(k as int));
            }
            sum = sum + step;
            k += 1;
        }
        proof {
            assert(a@.take(k as int) =~= a@);
            assert(b@.take(k as int) =~= b@);
        }
        sum
    }
}

/// A prefix of two vectors is no farther apart than the vectors themselves.
proof fn lemma_prefix_manhattan(a: Seq<usize>, b: Seq<usize>, k: int)
    requires
        a.len() == b.len(),
        0 <= k <= a.len(),
    ensures
        manhattan_distance(a.take(k), b.take(k)) <= manhattan_distance(a, b),
    decreases a.len() - k,
{
    if k == a.len() {
        assert(a.take(k) =~= a);
        assert(b.take(k) =~= b);
    } else {
        lemma_prefix_manhattan(a, b, k + 1);
        assert(a.take(k + 1).drop_last() =~= a.take(k));
        assert(b.take(k + 1).drop_last() =~= b.take(k));
    }
}

/// A prefix of two vectors is no farther apart than the vectors themselves.
proof fn lemma_prefix_distance(a: Seq<usize>, b: Seq<usize>, k: int)
    requires
        a.len() == b.len(),
        0 <= k <= a.len(),
    ensures
        squared_distance(a.take(k), b.take(k)) <= squared_distance(a, b),
    decreases a.len() - k,
{
    if k == a.len() {
        assert(a.take(k) =~= a);
        assert(b.take(k) =~= b);
    } else {
        lemma_prefix_distance(a, b, k + 1);
        assert(a.take(k + 1).drop_last() =~= a.take(k));
        assert(b.take(k + 1).drop_last() =~= b.take(k));
    }
}

/// The squared Euclidean distance of `x` and `y`.
///
/// The two points must have the same number of coordinates, and the sum must
/// fit the result type.
pub fn distance(x: &Vec<usize>, y: &Vec<usize>) -> (d: u64)
    requires
        x.len() == y.len(),
        squared_distance(x@, y@) <= u64::MAX,
    ensures
        d == squared_distance(x@, y@),
{
    let mut sum: u64 = 0;
    let mut k: usize = 0;
    while k < x.len()
        invariant
            k <= x.len(),
            x.len() == y.len(),
            squared_distance(x@, y@) <= u64::MAX,
            sum == squared_distance(x@.take(k as int), y@.take(k as int)),
        decreases x.len() - k,
    {
        let gap: u128 = if x[k] >= y[k] {
            (x[k] - y[k]) as u128
        } else {
            (y[k] - x[k]) as u128
        };
        proof {
            lemma_prefix_distance(x@, y@, k + 1);
            lemma_prefix_distance(x@, y@, k as int);
            assert(x@.take(k + 1).drop_last() =~= x@.take(k as int));
            assert(y@.take(k + 1).drop_last() =~= y@.take(k as int));
            assert(gap * gap == squared_gap(x[k as int], y[k as int]));
        }
        let square: u128 = gap * gap;
        sum = sum + (square as u64);
        k += 1;
    }
    proof {
        assert(x@.take(k as int) =~= x@);
        assert(y@.take(k as int) =~= y@);
    }
    sum
}

/// The squared Euclidean distance of `x` and `y`, where there is one: where
/// the points have the same number of coordinates and the sum fits.
pub fn checked_distance(x: &Vec<usize>, y: &Vec<usize>) -> (d: Option<u64>)
    ensures
        d is Some <==> SquaredEuclidean.admits(x@, y@),
        d matches Some(sum) ==> sum == squared_distance(x@, y@),
{
    if x.len() != y.len() {
        return None;
    }
    let mut sum: u64 = 0;
    let mut k: usize = 0;
    while k < x.len()
        invariant
            k <= x.len(),
            x.len() == y.len(),
            sum == squared_distance(x@.take(k as int), y@.take(k as int)),
        decreases x.len() - k,
    {
        let gap: u128 = if x[k] >= y[k] {
            (x[k] - y[k]) as u128
        } else {
            (y[k] - x[k]) as u128
        };
        proof {
            lemma_prefix_distance(x@, y@, k + 1);
            assert(x@.take(k + 1).drop_last() =~= x@.take(k as int));
            assert(y@.take(k + 1).drop_last() =~= y@.take(k as int));
            assert(gap * gap == squared_gap(x[k as int], y[k as int]));
            assert(gap * gap <= 0xffff_ffff_ffff_ffff * 0xffff_ffff_ffff_ffff) by (nonlinear_arith)
                requires
                    0 <= gap <= 0xffff_ffff_ffff_ffff,
            ;
        }
        let total: u128 = sum as u128 + gap * gap;
        if total > u64::MAX as u128 {
            return None;
        }
        sum = total as u64;
        k += 1;
    }
    proof {
        assert(x@.take(k as int) =~= x@);
        assert(y@.take(k as int) =~= y@);
    }
    Some(sum)
}

/// Whether the squared Euclidean distance admits every point of `x_vec` with
/// every point of `y_vec`, so that the searches may be asked for them.
pub fn admissible(x_vec: &Vec<Vec<usize>>, y_vec: &Vec<Vec<usize>>) -> (ok: bool)
    ensures
        ok <==> admits_all(SquaredEuclidean, points(x_vec@), points(y_vec@)),
{
    let ghost xs = points(x_vec@);
    let ghost ys = points(y_vec@);
    let mut i: usize = 0;
    while i < x_vec.len()
        invariant
            i <= x_vec.len(),
            xs == points(x_vec@),
            ys == points(y_vec@),
            forall|a: int, b: int|
                0 <= a < i && 0 <= b < ys.len() ==> #[trigger] SquaredEuclidean.admits(xs[a], ys[b]),
        decreases x_vec.len() - i,
    {
        let mut j: usize = 0;
        while j < y_vec.len()
            invariant
                i < x_vec.len(),
                j <= y_vec.len(),
                xs == points(x_vec@),
                ys == points(y_vec@),
                forall|a: int, b: int|
                    0 <= a < i && 0 <= b < ys.len() ==> #[trigger] SquaredEuclidean.admits(
                        xs[a],
                        ys[b],
                    ),
                forall|b: int| 0 <= b < j ==> #[trigger] SquaredEuclidean.admits(xs[i as int], ys[b]),
            decreases y_vec.len() - j,
        {
            assert(xs[i as int] == x_vec[i as int]@ && ys[j as int] == y_vec[j as int]@);
            if checked_distance(&x_vec[i], &y_vec[j]).is_none() {
                assert(!SquaredEuclidean.admits(xs[i as int], ys[j as int]));
                return false;
            }
            j += 1;
        }
        i += 1;
    }
    true
}

} // verus!
