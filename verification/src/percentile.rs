//! The bounded search: a percentile of the nearest-neighbour distances, found
//! by keeping only the greatest of them.

use vstd::prelude::*;
use vstd::arithmetic::div_mod::lemma_hoist_over_denominator;
use vstd::arithmetic::div_mod::lemma_fundamental_div_mod;
use crate::metric::{admits_all, points, Metric};
use crate::search::{nearest, nearest_neighbor, pairs, Pair};
use crate::top_set::{is_least, Candidate, Offered, TopSet};

verus! {

/// A percentile as the fraction `numer / denom`.
#[derive(Clone, Copy, Debug, PartialEq, Eq, Structural)]
pub struct Percentile {
    pub numer: u64,
    pub denom: u64,
}

impl Percentile {
    /// The fraction lies between zero and one, both included.
    pub open spec fn valid(&self) -> bool {
        0 < self.denom && self.numer <= self.denom
    }

    /// Whether the fraction lies between zero and one.
    pub fn is_valid(&self) -> (ok: bool)
        ensures
            ok == self.valid(),
    {
        0 < self.denom && self.numer <= self.denom
    }
}

/// Why a search gave no answer.
#[derive(Clone, Copy, Debug, PartialEq, Eq, Structural)]
pub enum SearchError {
    /// The percentile is not a fraction between zero and one.
    InvalidPercentile,
}

/// The pair that a bounded search found, and how it was ranked.
#[derive(Debug, Clone, PartialEq, Eq)]
pub struct Ranked {
    /// The least of the retained pairs.
    pub pair: Pair,
    /// How many pairs were retained.
    pub retained: usize,
    /// How many pairs the percentile asked to retain.
    pub capacity: u128,
}

/// The number of pairs to retain for `percentile`, of `nx` points searched
/// against `ny`: the part of `nx * ny` above the percentile, rounded up, and
/// at least one.
pub open spec fn retained_size(nx: nat, ny: nat, percentile: Percentile) -> nat {
    let above = nx * ny * (percentile.denom - percentile.numer);
    let size = (above + percentile.denom - 1) / (percentile.denom as int);
    if size >= 1 {
        size as nat
    } else {
        1
    }
}

/// The points `kept` are `count` points of `xs`, among them `xs[least]`; none
/// of them is nearer to `ys` than `xs[least]`, and no other point of `xs` is
/// farther from `ys`.
pub open spec fn retains<M: Metric>(
    dist: M,
    xs: Seq<Seq<usize>>,
    ys: Seq<Seq<usize>>,
    kept: Set<int>,
    least: int,
    count: nat,
) -> bool {
    &&& kept.finite()
    &&& kept.len() == count
    &&& kept.contains(least)
    &&& forall|i: int|
        kept.contains(i) ==> 0 <= i < xs.len() && #[trigger] nearest(dist, xs[i], ys) >= nearest(
            dist,
            xs[least],
            ys,
        )
    &&& forall|i: int|
        0 <= i < xs.len() && !kept.contains(i) ==> #[trigger] nearest(dist, xs[i], ys) <= nearest(
            dist,
            xs[least],
            ys,
        )
}

/// `pair` is the pair of `xs[i]` and `ys[j]`, and `xs[i]` is the least of the
/// `count` points of `kept`, which are the farthest from `ys`.
pub open spec fn ranks<M: Metric>(
    dist: M,
    xs: Seq<Seq<usize>>,
    ys: Seq<Seq<usize>>,
    pair: Pair,
    count: nat,
    i: int,
    j: int,
    kept: Set<int>,
) -> bool {
    pairs(dist, xs, ys, pair, i, j) && retains(dist, xs, ys, kept, i, count)
}

/// The number of pairs that a bounded search retains for `percentile`, of
/// `nx` points searched against `ny`.
pub fn heap_size(nx: usize, ny: usize, percentile: Percentile) -> (size: u128)
    requires
        percentile.valid(),
    ensures
        size == retained_size(nx as nat, ny as nat, percentile),
        1 <= size,
        size <= nx * ny || size == 1,
{
    let d: u128 = percentile.denom as u128;
    let q: u128 = (percentile.denom - percentile.numer) as u128;
    assert(nx * ny <= u128::MAX) by (nonlinear_arith)
        requires
            nx <= 0xffff_ffff_ffff_ffff,
            ny <= 0xffff_ffff_ffff_ffff,
    ;
    let n: u128 = (nx as u128) * (ny as u128);
    let whole: u128 = n / d;
    let part: u128 = n % d;
    proof {
        lemma_fundamental_div_mod(n as int, d as int);
        assert(whole * q <= whole * d) by (nonlinear_arith)
            requires
                q <= d,
                0 <= whole,
        ;
        assert(d * whole == whole * d) by (nonlinear_arith);
        assert(part * q <= part * d) by (nonlinear_arith)
            requires
                q <= d,
                0 <= part,
        ;
        assert(part * d <= (d - 1) * d) by (nonlinear_arith)
            requires
                part <= d - 1,
                0 < d,
        ;
        assert((d - 1) * d + d - 1 <= u128::MAX) by (nonlinear_arith)
            requires
                0 < d <= 0xffff_ffff_ffff_ffff,
        ;
        assert(part * q + d - 1 <= u128::MAX);
    }
    let rest: u128 = (part * q + (d - 1)) / d;
    proof {
        // rest <= part, so that whole * q + rest <= whole * d + part == n
        assert(part * q + d - 1 <= part * d + d - 1);
        lemma_hoist_over_denominator(d - 1, part as int, d as nat);
        assert((d - 1) / (d as int) == 0) by {
            vstd::arithmetic::div_mod::lemma_basic_div(d - 1, d as int);
        }
        assert((part * d + d - 1) / (d as int) == part);
        vstd::arithmetic::div_mod::lemma_div_is_ordered(
            part * q + d - 1,
            part * d + d - 1,
            d as int,
        );
        assert(rest <= part);
        // the two parts together are the whole quotient
        lemma_hoist_over_denominator(part * q + d - 1, whole * q, d as nat);
        assert(n * q == whole * q * d + part * q) by (nonlinear_arith)
            requires
                n == d * whole + part,
        ;
        assert(nx * ny * (percentile.denom - percentile.numer) == n * q);
        assert(whole * q + rest == (n * q + d - 1) / (d as int));
    }
    let size: u128 = whole * q + rest;
    if size >= 1 {
        size
    } else {
        1
    }
}

/// The state of a bounded search after the first `done` points of `xs`: what
/// the set `top` holds, the points `kept` that its members stand for, and the
/// `threshold` below which a point is not admitted.
spec fn progress<M: Metric>(
    dist: M,
    xs: Seq<Seq<usize>>,
    ys: Seq<Seq<usize>>,
    top: TopSet,
    kept: Set<int>,
    threshold: u64,
    done: int,
) -> bool {
    &&& top.wf()
    &&& kept.finite()
    &&& kept.len() == top@.len()
    &&& forall|c: Candidate| #[trigger]
        top@.count(c) > 0 ==> {
            &&& top@.count(c) == 1
            &&& c.x < done
            &&& c.y < ys.len()
            &&& c.v == dist.value(xs[c.x as int], ys[c.y as int])
            &&& c.v == nearest(dist, xs[c.x as int], ys)
            &&& kept.contains(c.x as int)
        }
    &&& forall|c: Candidate, e: Candidate|
        top@.count(c) > 0 && top@.count(e) > 0 && c.x == e.x ==> c == e
    &&& forall|i: int| #[trigger]
        kept.contains(i) ==> 0 <= i < done && exists|c: Candidate| #[trigger]
            top@.count(c) > 0 && c.x == i
    &&& if top@.len() < top.capacity() {
        threshold == 0 && top@.len() == done
    } else {
        exists|least: Candidate| #[trigger] is_least(top@, least) && threshold == least.v
    }
    &&& forall|i: int|
        0 <= i < done && !kept.contains(i) ==> top@.len() >= top.capacity() && #[trigger] nearest(
            dist,
            xs[i],
            ys,
        ) <= threshold
}

/// The bounded search: the pair that stands at `percentile` among the pairs
/// of the points of `x_vec` with their nearest neighbours in `y_vec`.
///
/// A percentile that is no fraction between zero and one is refused before
/// anything else. There is a pair exactly when neither list is empty. The
/// search retains the `heap_size` pairs with the greatest distances, or all
/// of them where `x_vec` has fewer points, and answers with the least pair
/// retained; `retained` below `capacity` says that the second was the case.
pub fn find_max_percentile<M: Metric>(
    x_vec: &Vec<Vec<usize>>,
    y_vec: &Vec<Vec<usize>>,
    dist: M,
    percentile: Percentile,
) -> (result: Result<Option<Ranked>, SearchError>)
    requires
        admits_all(dist, points(x_vec@), points(y_vec@)),
    ensures
        result is Err <==> !percentile.valid(),
        result matches Ok(found) ==> (found is Some <==> x_vec.len() > 0 && y_vec.len() > 0),
        result matches Ok(Some(ranked)) ==> ranked.capacity == retained_size(
            x_vec.len() as nat,
            y_vec.len() as nat,
            percentile,
        ),
        result matches Ok(Some(ranked)) ==> ranked.retained == if ranked.capacity < x_vec.len() {
            ranked.capacity as int
        } else {
            x_vec.len() as int
        },
        result matches Ok(Some(ranked)) ==> exists|i: int, j: int, kept: Set<int>|
            ranks(dist, points(x_vec@), points(y_vec@), ranked.pair, ranked.retained as nat, i, j, kept),
{
    let ghost xs = points(x_vec@);
    let ghost ys = points(y_vec@);
    if !percentile.is_valid() {
        return Err(SearchError::InvalidPercentile);
    }
    let nx: usize = x_vec.len();
    let capacity: u128 = heap_size(nx, y_vec.len(), percentile);
    if nx == 0 || y_vec.len() == 0 {
        return Ok(None);
    }
    let room: usize = if capacity < nx as u128 {
        capacity as usize
    } else {
        nx
    };
    let mut top = TopSet::new(room);
    let mut threshold: u64 = 0;
    let ghost mut kept: Set<int> = Set::empty();
    let mut i: usize = 0;
    while i < nx
        invariant
            i <= nx,
            nx == x_vec.len(),
            y_vec.len() > 0,
            1 <= room <= nx,
            top.capacity() == room,
            xs == points(x_vec@),
            ys == points(y_vec@),
            admits_all(dist, xs, ys),
            progress(dist, xs, ys, top, kept, threshold, i as int),
        decreases nx - i,
    {
        proof {
            assert forall|j: int| 0 <= j < y_vec.len() implies dist.admits(
                x_vec[i as int]@,
                #[trigger] ys[j],
            ) by {
                assert(dist.admits(xs[i as int], ys[j]));
            }
        }
        let ghost before = top;
        let ghost kept_before = kept;
        let ghost threshold_before = threshold;
        match nearest_neighbor(&x_vec[i], y_vec, &dist, threshold) {
            Some((j, least)) => {
                let c = Candidate { x: i, y: j, v: least };
                assert(before@.count(c) == 0);
                assert(!kept.contains(i as int));
                match top.offer(c) {
                    Offered::Added => {
                        proof {
                            kept = kept_before.insert(i as int);
                        }
                        threshold = top.threshold();
                        proof {
                            lemma_progress_added(
                                dist,
                                xs,
                                ys,
                                before,
                                top,
                                kept_before,
                                threshold,
                                i as int,
                                c,
                            );
                        }
                    },
                    Offered::Replaced(gone) => {
                        proof {
                            kept = kept_before.insert(i as int).remove(gone.x as int);
                        }
                        threshold = top.threshold();
                        proof {
                            lemma_progress_replaced(
                                dist,
                                xs,
                                ys,
                                before,
                                top,
                                kept_before,
                                threshold_before,
                                threshold,
                                i as int,
                                c,
                                gone,
                            );
                        }
                    },
                    Offered::Refused => {
                        proof {
                            let e = choose|e: Candidate| is_least(before@, e) && c.v <= e.v;
                            let l = choose|l: Candidate| #[trigger]
                                is_least(before@, l) && threshold_before == l.v;
                            assert(e.v == l.v);
                        }
                    },
                }
            },
            None => {
                assert(top@.len() >= top.capacity());
            },
        }
        i += 1;
    }
    let least = top.peek();
    assert(least is Some);
    let c = least.unwrap();
    let retained = top.len();
    let pair = Pair { x: x_vec[c.x].clone(), y: y_vec[c.y].clone(), v: c.v };
    proof {
        assert(pair.x@ =~= x_vec[c.x as int]@);
        assert(pair.y@ =~= y_vec[c.y as int]@);
        assert(top@.count(c) > 0);
        assert(pairs(dist, xs, ys, pair, c.x as int, c.y as int));
        assert forall|k: int| kept.contains(k) implies 0 <= k < x_vec.len() && #[trigger] nearest(
            dist,
            xs[k],
            ys,
        ) >= nearest(dist, xs[c.x as int], ys) by {
            let m = choose|m: Candidate| #[trigger] top@.count(m) > 0 && m.x == k;
            assert(c.v <= m.v);
        }
        assert forall|k: int| 0 <= k < x_vec.len() && !kept.contains(k) implies #[trigger] nearest(
            dist,
            xs[k],
            ys,
        ) <= nearest(dist, xs[c.x as int], ys) by {
            let l = choose|l: Candidate| #[trigger] is_least(top@, l) && threshold == l.v;
            assert(l.v == c.v);
        }
        assert(retains(dist, xs, ys, kept, c.x as int, retained as nat));
    }
    let result = Ok(Some(Ranked { pair, retained, capacity }));
    proof {
        let ranked = result->Ok_0->Some_0;
        assert(ranks(
            dist,
            xs,
            ys,
            ranked.pair,
            ranked.retained as nat,
            c.x as int,
            c.y as int,
            kept,
        ));
    }
    result
}

/// The search stays in step when a candidate for the point `done` is added
/// to a set that had room.
proof fn lemma_progress_added<M: Metric>(
    dist: M,
    xs: Seq<Seq<usize>>,
    ys: Seq<Seq<usize>>,
    before: TopSet,
    after: TopSet,
    kept: Set<int>,
    threshold: u64,
    done: int,
    c: Candidate,
)
    requires
        progress(dist, xs, ys, before, kept, 0, done),
        before@.len() < before.capacity(),
        after.wf(),
        after.capacity() == before.capacity(),
        after@ == before@.insert(c),
        c.x == done,
        c.y < ys.len(),
        c.v == dist.value(xs[done], ys[c.y as int]),
        c.v == nearest(dist, xs[done], ys),
        after@.len() < after.capacity() ==> threshold == 0,
        after@.len() >= after.capacity() ==> exists|least: Candidate| #[trigger]
            is_least(after@, least) && threshold == least.v,
    ensures
        progress(dist, xs, ys, after, kept.insert(done), threshold, done + 1),
{
    let kept_after = kept.insert(done);
    assert(!kept.contains(done));
    assert(before@.count(c) == 0);
    assert forall|i: int| #[trigger] kept_after.contains(i) implies 0 <= i < done + 1 && exists|
        m: Candidate,
    | #[trigger] after@.count(m) > 0 && m.x == i by {
        if i == done {
            assert(after@.count(c) > 0 && c.x == i);
        } else {
            let m = choose|m: Candidate| #[trigger] before@.count(m) > 0 && m.x == i;
            assert(after@.count(m) > 0 && m.x == i);
        }
    }
    assert forall|i: int| 0 <= i < done + 1 && !kept_after.contains(i) implies after@.len()
        >= after.capacity() && #[trigger] nearest(dist, xs[i], ys) <= threshold by {
        assert(!kept.contains(i));
    }
}

/// The search stays in step when a candidate for the point `done` takes the
/// place of the least member `gone` of a full set.
proof fn lemma_progress_replaced<M: Metric>(
    dist: M,
    xs: Seq<Seq<usize>>,
    ys: Seq<Seq<usize>>,
    before: TopSet,
    after: TopSet,
    kept: Set<int>,
    threshold_before: u64,
    threshold: u64,
    done: int,
    c: Candidate,
    gone: Candidate,
)
    requires
        progress(dist, xs, ys, before, kept, threshold_before, done),
        before@.len() >= before.capacity(),
        after.wf(),
        after.capacity() == before.capacity(),
        is_least(before@, gone),
        gone.v < c.v,
        after@ == before@.insert(c).remove(gone),
        c.x == done,
        c.y < ys.len(),
        c.v == dist.value(xs[done], ys[c.y as int]),
        c.v == nearest(dist, xs[done], ys),
        after@.len() < after.capacity() ==> threshold == 0,
        after@.len() >= after.capacity() ==> exists|least: Candidate| #[trigger]
            is_least(after@, least) && threshold == least.v,
    ensures
        progress(
            dist,
            xs,
            ys,
            after,
            kept.insert(done).remove(gone.x as int),
            threshold,
            done + 1,
        ),
{
    let kept_after = kept.insert(done).remove(gone.x as int);
    assert(!kept.contains(done));
    assert(before@.count(c) == 0);
    assert(before@.count(gone) == 1);
    assert(kept.contains(gone.x as int));
    assert(after@.count(gone) == 0);
    assert(after@.len() == before@.len());
    let l0 = choose|l: Candidate| #[trigger] is_least(before@, l) && threshold_before == l.v;
    assert(l0.v == gone.v);
    let l1 = choose|l: Candidate| #[trigger] is_least(after@, l) && threshold == l.v;
    assert(after@.count(l1) > 0);
    assert(l1 == c || before@.count(l1) > 0);
    assert(threshold >= threshold_before);
    assert forall|m: Candidate| #[trigger] after@.count(m) > 0 implies {
        &&& after@.count(m) == 1
        &&& m.x < done + 1
        &&& m.y < ys.len()
        &&& m.v == dist.value(xs[m.x as int], ys[m.y as int])
        &&& m.v == nearest(dist, xs[m.x as int], ys)
        &&& kept_after.contains(m.x as int)
    } by {
        if m == c {
        } else {
            assert(before@.count(m) > 0);
            assert(m != gone);
            assert(m.x != gone.x);
        }
    }
    assert forall|m: Candidate, e: Candidate|
        after@.count(m) > 0 && after@.count(e) > 0 && m.x == e.x implies m == e by {
        if m != c {
            assert(before@.count(m) > 0);
        }
        if e != c {
            assert(before@.count(e) > 0);
        }
    }
    assert forall|i: int| #[trigger] kept_after.contains(i) implies 0 <= i < done + 1 && exists|
        m: Candidate,
    | #[trigger] after@.count(m) > 0 && m.x == i by {
        if i == done {
            assert(after@.count(c) > 0 && c.x == i);
        } else {
            let m = choose|m: Candidate| #[trigger] before@.count(m) > 0 && m.x == i;
            assert(m != gone);
            assert(after@.count(m) > 0 && m.x == i);
        }
    }
    assert forall|i: int| 0 <= i < done + 1 && !kept_after.contains(i) implies after@.len()
        >= after.capacity() && #[trigger] nearest(dist, xs[i], ys) <= threshold by {
        if i == gone.x {
        } else {
            assert(!kept.contains(i));
        }
    }
}

} // verus!
