//! Boolean grids, and the points that their cells mark.
//!
//! A grid is kept as an `ndarray` array. Verus does not look into it: what it
//! holds is named by `grid_cells`, and the functions below that touch the
//! array state over that name what `ndarray` documents of them.

use vstd::prelude::*;
use ndarray::Dimension;
use rand::seq::SliceRandom;
use crate::metric::points;

verus! {

/// A dense grid of booleans with any number of axes.
#[verifier::external_body]
pub struct BoolGrid {
    cells: ndarray::ArrayD<bool>,
}

/// What a grid holds: the value of each of its cells, by the cell's position.
pub uninterp spec fn grid_cells(grid: BoolGrid) -> Map<Seq<usize>, bool>;

impl View for BoolGrid {
    type V = Map<Seq<usize>, bool>;

    open spec fn view(&self) -> Map<Seq<usize>, bool> {
        grid_cells(*self)
    }
}

/// The position `at` lies in a grid of the given extents.
pub open spec fn within(extents: Seq<usize>, at: Seq<usize>) -> bool {
    &&& at.len() == extents.len()
    &&& forall|k: int| 0 <= k < at.len() ==> at[k] < extents[k]
}

/// The place of the position `at` among the cells of a grid listed with the
/// last coordinate running fastest.
pub open spec fn offset(extents: Seq<usize>, at: Seq<usize>) -> int
    recommends
        at.len() == extents.len(),
    decreases extents.len(),
{
    if extents.len() == 0 {
        0
    } else {
        offset(extents.drop_last(), at.drop_last()) * extents.last() + at.last()
    }
}

/// The number of cells of a grid: the product of its extents.
pub open spec fn volume(extents: Seq<usize>) -> int
    decreases extents.len(),
{
    if extents.len() == 0 {
        1
    } else {
        volume(extents.drop_last()) * extents.last()
    }
}

/// The product of those extents that are not zero.
pub open spec fn nonzero_volume(extents: Seq<usize>) -> int
    decreases extents.len(),
{
    if extents.len() == 0 {
        1
    } else if extents.last() == 0 {
        nonzero_volume(extents.drop_last())
    } else {
        nonzero_volume(extents.drop_last()) * extents.last()
    }
}

/// A grid of these extents can be made of `count` cells.
pub open spec fn fits(extents: Seq<usize>, count: nat) -> bool {
    nonzero_volume(extents) <= isize::MAX && volume(extents) == count
}

/// The grid holds exactly the cells of `cells`, laid out by `extents` with
/// the last coordinate running fastest.
pub open spec fn holds(grid: Map<Seq<usize>, bool>, extents: Seq<usize>, cells: Seq<bool>) -> bool {
    &&& forall|at: Seq<usize>| grid.dom().contains(at) <==> within(extents, at)
    &&& forall|at: Seq<usize>| within(extents, at) ==> grid[at] == cells[offset(extents, at)]
}

/// The positions of the cells of `cells` that are on, in their order.
pub open spec fn selected(cells: Seq<(Vec<usize>, bool)>) -> Seq<Seq<usize>>
    decreases cells.len(),
{
    if cells.len() == 0 {
        Seq::empty()
    } else if cells.last().1 {
        selected(cells.drop_last()).push(cells.last().0@)
    } else {
        selected(cells.drop_last())
    }
}

/// `list` names each cell of `grid` that is on, once, and nothing else.
pub open spec fn marks(grid: Map<Seq<usize>, bool>, list: Seq<Seq<usize>>) -> bool {
    &&& list.no_duplicates()
    &&& forall|at: Seq<usize>| list.contains(at) <==> grid.dom().contains(at) && grid[at]
}

/// `ndarray::ArrayD::from_shape_vec` on the shape `ndarray::IxDyn(extents)`.
///
/// Claimed of it: it succeeds exactly when the product of the extents that
/// are not zero does not exceed `isize::MAX` and the product of all extents
/// is the number of cells given; the array then has a cell at each position
/// within the extents, and the cells given fill it with the last coordinate
/// running fastest.
#[verifier::external_body]
fn grid_from_shape_vec(extents: &Vec<usize>, cells: Vec<bool>) -> (grid: Option<BoolGrid>)
    ensures
        grid is Some <==> fits(extents@, cells.len() as nat),
        grid matches Some(g) ==> holds(grid_cells(g), extents@, cells@),
{
    match ndarray::ArrayD::from_shape_vec(ndarray::IxDyn(extents), cells) {
        Ok(cells) => Some(BoolGrid { cells }),
        Err(_) => None,
    }
}

/// `ndarray::ArrayBase::indexed_iter`, each item handed out as the cell's
/// position and its value.
///
/// Claimed of it: every cell of the array comes once, with its own position
/// and the value that the array holds there.
#[verifier::external_body]
fn grid_indexed_cells(grid: &BoolGrid) -> (cells: Vec<(Vec<usize>, bool)>)
    ensures
        forall|i: int|
            0 <= i < cells.len() ==> grid_cells(*grid).dom().contains((#[trigger] cells[i]).0@)
                && grid_cells(*grid)[cells[i].0@] == cells[i].1,
        forall|i: int, j: int|
            0 <= i < j < cells.len() ==> (#[trigger] cells[i]).0@ != (#[trigger] cells[j]).0@,
        forall|at: Seq<usize>|
            grid_cells(*grid).dom().contains(at) ==> exists|i: int|
                0 <= i < cells.len() && (#[trigger] cells[i]).0@ == at,
{
    grid.cells.indexed_iter().map(|(at, on)| (at.slice().to_vec(), *on)).collect()
}

/// `rand::seq::SliceRandom::shuffle` with the generator of `rand::thread_rng`.
///
/// Claimed of it: the list afterwards holds the points that it held before,
/// each as often as before. Nothing is claimed of their order.
#[verifier::external_body]
fn shuffle_points(list: &mut Vec<Vec<usize>>)
    ensures
        points(final(list)@).to_multiset() == points(old(list)@).to_multiset(),
{
    list.shuffle(&mut rand::thread_rng());
}

impl BoolGrid {
    /// A grid of the given extents, filled with `cells` with the last
    /// coordinate running fastest.
    ///
    /// There is a grid exactly when there is at least one axis and the
    /// extents fit the number of cells.
    pub fn new(extents: Vec<usize>, cells: Vec<bool>) -> (grid: Option<BoolGrid>)
        ensures
            grid is Some <==> extents.len() >= 1 && fits(extents@, cells.len() as nat),
            grid matches Some(g) ==> holds(g@, extents@, cells@),
    {
        if extents.len() == 0 {
            None
        } else {
            grid_from_shape_vec(&extents, cells)
        }
    }
}

/// Whatever `selected` lists is the position of a cell that is on, and the
/// other way round; where no position comes twice, none is listed twice.
pub proof fn lemma_selected(cells: Seq<(Vec<usize>, bool)>)
    ensures
        forall|at: Seq<usize>|
            selected(cells).contains(at) <==> exists|i: int|
                0 <= i < cells.len() && (#[trigger] cells[i]).1 && cells[i].0@ == at,
        (forall|i: int, j: int|
            0 <= i < j < cells.len() ==> (#[trigger] cells[i]).0@ != (#[trigger] cells[j]).0@)
            ==> selected(cells).no_duplicates(),
    decreases cells.len(),
{
    if cells.len() == 0 {
    } else {
        let front = cells.drop_last();
        let last = cells.last();
        lemma_selected(front);
        assert forall|at: Seq<usize>|
            selected(cells).contains(at) <==> exists|i: int|
                0 <= i < cells.len() && (#[trigger] cells[i]).1 && cells[i].0@ == at by {
            if selected(cells).contains(at) {
                if selected(front).contains(at) {
                    let i = choose|i: int|
                        0 <= i < front.len() && (#[trigger] front[i]).1 && front[i].0@ == at;
                    assert(cells[i] == front[i]);
                } else {
                    let k = choose|k: int|
                        0 <= k < selected(cells).len() && selected(cells)[k] == at;
                    assert(last.1 && k == selected(front).len());
                    assert(cells[cells.len() - 1].1 && cells[cells.len() - 1].0@ == at);
                }
            }
            if exists|i: int| 0 <= i < cells.len() && (#[trigger] cells[i]).1 && cells[i].0@ == at {
                let i = choose|i: int|
                    0 <= i < cells.len() && (#[trigger] cells[i]).1 && cells[i].0@ == at;
                if i < front.len() {
                    assert(front[i] == cells[i]);
                    assert(selected(front).contains(at));
                    let k = choose|k: int|
                        0 <= k < selected(front).len() && selected(front)[k] == at;
                    assert(selected(cells)[k] == at);
                } else {
                    assert(selected(cells)[selected(front).len() as int] == at);
                }
            }
        }
        if forall|i: int, j: int|
            0 <= i < j < cells.len() ==> (#[trigger] cells[i]).0@ != (#[trigger] cells[j]).0@ {
            assert forall|i: int, j: int| 0 <= i < j < front.len() implies (#[trigger] front[i]).0@
                != (#[trigger] front[j]).0@ by {
                assert(front[i] == cells[i] && front[j] == cells[j]);
            }
            if last.1 {
                if selected(front).contains(last.0@) {
                    let i = choose|i: int|
                        0 <= i < front.len() && (#[trigger] front[i]).1 && front[i].0@ == last.0@;
                    assert(cells[i] == front[i]);
                    assert(cells[i].0@ != cells[cells.len() - 1].0@);
                }
                let list = selected(cells);
                assert forall|a: int, b: int|
                    0 <= a < list.len() && 0 <= b < list.len() && a != b implies list[a]
                    != list[b] by {
                    if a < selected(front).len() && b < selected(front).len() {
                        assert(selected(front)[a] != selected(front)[b]);
                    } else if a < selected(front).len() {
                        assert(selected(front).contains(selected(front)[a]));
                    } else {
                        assert(selected(front).contains(selected(front)[b]));
                    }
                }
            }
        }
    }
}

/// The positions of the cells that are on, in the order of `cells`.
pub fn true_positions(cells: &Vec<(Vec<usize>, bool)>) -> (list: Vec<Vec<usize>>)
    ensures
        points(list@) == selected(cells@),
{
    let mut list: Vec<Vec<usize>> = Vec::new();
    let mut i: usize = 0;
    assert(cells@.take(0) =~= Seq::empty());
    while i < cells.len()
        invariant
            i <= cells.len(),
            points(list@) == selected(cells@.take(i as int)),
        decreases cells.len() - i,
    {
        proof {
            assert(cells@.take(i + 1).drop_last() =~= cells@.take(i as int));
            assert(cells@.take(i + 1).last() == cells[i as int]);
        }
        if cells[i].1 {
            let at = cells[i].0.clone();
            let ghost before = list@;
            list.push(at);
            proof {
                assert(at@ =~= cells[i as int].0@);
                assert(points(list@) =~= points(before).push(at@));
            }
        }
        i += 1;
    }
    proof {
        assert(cells@.take(i as int) =~= cells@);
    }
    list
}

/// The positions of the cells of `grid` that are on: each once, in the order
/// in which the grid lists its cells.
pub fn positions(grid: &BoolGrid) -> (list: Vec<Vec<usize>>)
    ensures
        marks(grid@, points(list@)),
{
    let cells = grid_indexed_cells(grid);
    let list = true_positions(&cells);
    proof {
        lemma_selected(cells@);
        assert forall|at: Seq<usize>|
            points(list@).contains(at) <==> grid@.dom().contains(at) && grid@[at] by {
            if points(list@).contains(at) {
                let i = choose|i: int|
                    0 <= i < cells.len() && (#[trigger] cells[i]).1 && cells[i].0@ == at;
                assert(grid@.dom().contains(cells[i].0@));
            }
            if grid@.dom().contains(at) && grid@[at] {
                let i = choose|i: int| 0 <= i < cells.len() && (#[trigger] cells[i]).0@ == at;
                assert(cells[i].1);
            }
        }
    }
    list
}

/// The positions of the cells of `grid` that are on: each once, in an order
/// left to chance.
pub fn flatten(grid: &BoolGrid) -> (list: Vec<Vec<usize>>)
    ensures
        marks(grid@, points(list@)),
{
    let mut list = positions(grid);
    let ghost before = points(list@);
    shuffle_points(&mut list);
    proof {
        broadcast use vstd::seq_lib::group_to_multiset_ensures;

        let after = points(list@);
        before.lemma_multiset_has_no_duplicates();
        after.lemma_multiset_has_no_duplicates_conv();
        assert forall|at: Seq<usize>| after.contains(at) <==> before.contains(at) by {
            assert(after.to_multiset().count(at) == before.to_multiset().count(at));
        }
    }
    list
}

} // verus!
