use hausdorff::grid::{flatten, positions, true_positions, BoolGrid};
use hausdorff::metric::{admissible, SquaredEuclidean};
use hausdorff::search::find_max;

fn grid_of(extents: Vec<usize>, rows: &[u8]) -> BoolGrid {
    let cells: Vec<bool> = rows.iter().map(|&cell| cell > 0).collect();
    BoolGrid::new(extents, cells).unwrap()
}

fn upper_right() -> BoolGrid {
    grid_of(vec![4, 4], &[0, 0, 1, 1, 0, 0, 1, 1, 0, 0, 0, 0, 0, 0, 0, 0])
}

fn lower_left() -> BoolGrid {
    grid_of(vec![4, 4], &[0, 0, 0, 0, 0, 0, 0, 0, 1, 1, 0, 0, 1, 1, 0, 0])
}

fn sorted(mut list: Vec<Vec<usize>>) -> Vec<Vec<usize>> {
    list.sort();
    list
}

#[test]
fn grid_needs_cells_that_fit_its_extents() {
    assert!(BoolGrid::new(vec![4, 4], vec![false; 16]).is_some());
    assert!(BoolGrid::new(vec![4, 4], vec![false; 15]).is_none());
    assert!(BoolGrid::new(vec![4, 4], vec![false; 17]).is_none());
    assert!(BoolGrid::new(vec![2, 3, 4], vec![true; 24]).is_some());
    assert!(BoolGrid::new(vec![5], vec![true; 5]).is_some());
    assert!(BoolGrid::new(vec![5], Vec::new()).is_none());
}

#[test]
fn grid_needs_an_axis() {
    assert!(BoolGrid::new(Vec::new(), vec![true]).is_none());
    assert!(BoolGrid::new(Vec::new(), Vec::new()).is_none());
}

#[test]
fn grid_may_have_an_axis_of_no_extent() {
    assert!(BoolGrid::new(vec![0, 3], Vec::new()).is_some());
    assert!(BoolGrid::new(vec![3, 0], Vec::new()).is_some());
    assert!(BoolGrid::new(vec![0, 3], vec![true; 3]).is_none());
}

#[test]
fn grid_refuses_extents_beyond_the_largest_size() {
    assert!(BoolGrid::new(vec![usize::MAX, 2], Vec::new()).is_none());
    assert!(BoolGrid::new(vec![usize::MAX, 0], Vec::new()).is_none());
    assert!(BoolGrid::new(vec![0, usize::MAX, usize::MAX], Vec::new()).is_none());
}

#[test]
fn positions_of_a_block_in_a_corner() {
    assert_eq!(positions(&upper_right()), vec![vec![0, 2], vec![0, 3], vec![1, 2], vec![1, 3]]);
    assert_eq!(positions(&lower_left()), vec![vec![2, 0], vec![2, 1], vec![3, 0], vec![3, 1]]);
}

#[test]
fn positions_run_with_the_last_coordinate_fastest() {
    let grid = grid_of(vec![2, 3], &[1, 1, 1, 1, 1, 1]);
    assert_eq!(
        positions(&grid),
        vec![vec![0, 0], vec![0, 1], vec![0, 2], vec![1, 0], vec![1, 1], vec![1, 2]]
    );
    let grid = grid_of(vec![2, 3], &[0, 0, 0, 0, 1, 0]);
    assert_eq!(positions(&grid), vec![vec![1, 1]]);
}

#[test]
fn positions_in_one_and_three_axes() {
    let grid = grid_of(vec![4], &[0, 0, 1, 1]);
    assert_eq!(positions(&grid), vec![vec![2], vec![3]]);
    let grid = grid_of(vec![2, 2, 2], &[0, 0, 0, 1, 0, 1, 0, 0]);
    assert_eq!(positions(&grid), vec![vec![0, 1, 1], vec![1, 0, 1]]);
    let mut cells = vec![0u8; 24];
    cells[23] = 1;
    cells[12] = 1;
    cells[7] = 1;
    let grid = grid_of(vec![2, 3, 4], &cells);
    assert_eq!(positions(&grid), vec![vec![0, 1, 3], vec![1, 0, 0], vec![1, 2, 3]]);
}

#[test]
fn positions_of_a_grid_without_marks() {
    assert_eq!(positions(&grid_of(vec![3, 3], &[0; 9])), Vec::<Vec<usize>>::new());
    assert_eq!(positions(&grid_of(vec![0, 3], &[])), Vec::<Vec<usize>>::new());
    assert_eq!(flatten(&grid_of(vec![3, 3], &[0; 9])), Vec::<Vec<usize>>::new());
}

#[test]
fn true_positions_keeps_the_marked_in_order() {
    let cells = vec![
        (vec![0, 0], false),
        (vec![0, 1], true),
        (vec![1, 0], true),
        (vec![1, 1], false),
        (vec![0, 1], true),
    ];
    assert_eq!(true_positions(&cells), vec![vec![0, 1], vec![1, 0], vec![0, 1]]);
    assert_eq!(true_positions(&Vec::new()), Vec::<Vec<usize>>::new());
    assert_eq!(true_positions(&vec![(vec![3], false)]), Vec::<Vec<usize>>::new());
}

#[test]
fn flatten_lists_each_marked_cell_once() {
    for _ in 0..20 {
        assert_eq!(
            sorted(flatten(&upper_right())),
            vec![vec![0, 2], vec![0, 3], vec![1, 2], vec![1, 3]]
        );
        assert_eq!(
            sorted(flatten(&lower_left())),
            vec![vec![2, 0], vec![2, 1], vec![3, 0], vec![3, 1]]
        );
    }
}

#[test]
fn flatten_leaves_the_order_to_chance() {
    let grid = grid_of(vec![8, 8], &[1; 64]);
    let in_order = positions(&grid);
    assert_eq!(in_order.len(), 64);
    let mut moved = false;
    for _ in 0..8 {
        let list = flatten(&grid);
        assert_eq!(sorted(list.clone()), in_order);
        if list != in_order {
            moved = true;
        }
    }
    assert!(moved);
}

#[test]
fn exact_search_between_two_grids() {
    for _ in 0..20 {
        let xs = flatten(&upper_right());
        let ys = flatten(&lower_left());
        assert!(admissible(&xs, &ys));
        let found = find_max(&xs, &ys, SquaredEuclidean).unwrap();
        assert_eq!(found.v, 8);
        assert_eq!(found.x, vec![0, 3]);
        assert_eq!(found.y, vec![2, 1]);
    }
}

#[test]
fn exact_search_between_two_rows() {
    let xs = flatten(&grid_of(vec![4], &[0, 0, 1, 1]));
    let ys = flatten(&grid_of(vec![4], &[1, 1, 0, 0]));
    let found = find_max(&xs, &ys, SquaredEuclidean).unwrap();
    assert_eq!(found.v, 4);
    assert_eq!(found.x, vec![3]);
    assert_eq!(found.y, vec![1]);
}
