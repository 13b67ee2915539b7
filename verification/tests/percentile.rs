use hausdorff::metric::SquaredEuclidean;
use hausdorff::percentile::{find_max_percentile, heap_size, Percentile, Ranked, SearchError};
use hausdorff::search::{find_max, Pair};

fn corner_x() -> Vec<Vec<usize>> {
    vec![vec![0, 2], vec![0, 3], vec![1, 2], vec![1, 3]]
}

fn corner_y() -> Vec<Vec<usize>> {
    vec![vec![2, 0], vec![2, 1], vec![3, 0], vec![3, 1]]
}

fn fraction(numer: u64, denom: u64) -> Percentile {
    Percentile { numer, denom }
}

fn ranked(xs: &Vec<Vec<usize>>, ys: &Vec<Vec<usize>>, numer: u64, denom: u64) -> Ranked {
    find_max_percentile(xs, ys, SquaredEuclidean, fraction(numer, denom)).unwrap().unwrap()
}

#[test]
fn percentile_validity() {
    assert!(fraction(0, 1).is_valid());
    assert!(fraction(1, 1).is_valid());
    assert!(fraction(95, 100).is_valid());
    assert!(!fraction(2, 1).is_valid());
    assert!(!fraction(0, 0).is_valid());
    assert!(!fraction(1, 0).is_valid());
}

#[test]
fn heap_size_rounds_up() {
    assert_eq!(heap_size(4, 4, fraction(95, 100)), 1);
    assert_eq!(heap_size(10, 10, fraction(95, 100)), 5);
    assert_eq!(heap_size(10, 10, fraction(1, 2)), 50);
    assert_eq!(heap_size(7, 1, fraction(1, 2)), 4);
    assert_eq!(heap_size(3, 3, fraction(1, 3)), 6);
    assert_eq!(heap_size(3, 3, fraction(2, 3)), 3);
    assert_eq!(heap_size(5, 1, fraction(2, 3)), 2);
    assert_eq!(heap_size(4, 4, fraction(7, 8)), 2);
    assert_eq!(heap_size(4, 4, fraction(13, 16)), 3);
    assert_eq!(heap_size(1000, 1000, fraction(999_999, 1_000_000)), 1);
    assert_eq!(heap_size(1000, 1000, fraction(999_998, 1_000_000)), 2);
    assert_eq!(heap_size(1001, 1000, fraction(999_998, 1_000_000)), 3);
}

#[test]
fn heap_size_is_at_least_one() {
    assert_eq!(heap_size(4, 4, fraction(1, 1)), 1);
    assert_eq!(heap_size(0, 4, fraction(0, 1)), 1);
    assert_eq!(heap_size(4, 0, fraction(1, 2)), 1);
    assert_eq!(heap_size(0, 0, fraction(1, 1)), 1);
}

#[test]
fn heap_size_at_percentile_zero_is_the_product() {
    assert_eq!(heap_size(4, 4, fraction(0, 1)), 16);
    assert_eq!(heap_size(4, 4, fraction(0, 100)), 16);
    assert_eq!(heap_size(1, 1, fraction(0, 7)), 1);
    assert_eq!(
        heap_size(usize::MAX, usize::MAX, fraction(0, u64::MAX)),
        (usize::MAX as u128) * (usize::MAX as u128)
    );
}

#[test]
fn heap_size_of_large_lists() {
    let n = (usize::MAX as u128) * (usize::MAX as u128);
    assert_eq!(heap_size(usize::MAX, usize::MAX, fraction(1, 2)), (n + 1) / 2);
    assert_eq!(heap_size(usize::MAX, usize::MAX, fraction(u64::MAX - 1, u64::MAX)), n / (u64::MAX as u128));
    assert_eq!(heap_size(usize::MAX, 3, fraction(1, 3)), 2 * (usize::MAX as u128));
}

#[test]
fn percentile_outside_zero_and_one_is_refused() {
    let got = find_max_percentile(&corner_x(), &corner_y(), SquaredEuclidean, fraction(3, 2));
    assert_eq!(got, Err(SearchError::InvalidPercentile));
    let got = find_max_percentile(&corner_x(), &corner_y(), SquaredEuclidean, fraction(0, 0));
    assert_eq!(got, Err(SearchError::InvalidPercentile));
}

#[test]
fn percentile_is_refused_before_the_lists_are_looked_at() {
    let got = find_max_percentile(&Vec::new(), &Vec::new(), SquaredEuclidean, fraction(5, 4));
    assert_eq!(got, Err(SearchError::InvalidPercentile));
}

#[test]
fn percentile_search_without_points_finds_no_pair() {
    assert_eq!(find_max_percentile(&Vec::new(), &corner_y(), SquaredEuclidean, fraction(1, 2)), Ok(None));
    assert_eq!(find_max_percentile(&corner_x(), &Vec::new(), SquaredEuclidean, fraction(1, 2)), Ok(None));
}

#[test]
fn percentile_search_of_one_candidate_returns_it() {
    let got = ranked(&vec![vec![0, 3]], &vec![vec![2, 1]], 1, 1);
    assert_eq!(got, Ranked { pair: Pair { x: vec![0, 3], y: vec![2, 1], v: 8 }, retained: 1, capacity: 1 });
    let got = ranked(&vec![vec![6]], &vec![vec![6]], 1, 1);
    assert_eq!(got, Ranked { pair: Pair { x: vec![6], y: vec![6], v: 0 }, retained: 1, capacity: 1 });
}

#[test]
fn percentile_search_that_retains_one_is_the_exact_search() {
    let got = ranked(&corner_x(), &corner_y(), 1, 1);
    assert_eq!(got, Ranked { pair: Pair { x: vec![0, 3], y: vec![2, 1], v: 8 }, retained: 1, capacity: 1 });
    let got = ranked(&corner_x(), &corner_y(), 95, 100);
    assert_eq!(got.pair, find_max(&corner_x(), &corner_y(), SquaredEuclidean).unwrap());
}

#[test]
fn percentile_search_returns_the_least_retained() {
    // the nearest distances are 5, 8, 2 and 5
    let got = ranked(&corner_x(), &corner_y(), 7, 8);
    assert_eq!(got.capacity, 2);
    assert_eq!(got.retained, 2);
    assert_eq!(got.pair, Pair { x: vec![0, 2], y: vec![2, 1], v: 5 });
    let got = ranked(&corner_x(), &corner_y(), 13, 16);
    assert_eq!(got.capacity, 3);
    assert_eq!(got.retained, 3);
    assert_eq!(got.pair.v, 5);
    let got = ranked(&corner_x(), &corner_y(), 3, 4);
    assert_eq!(got.capacity, 4);
    assert_eq!(got.retained, 4);
    assert_eq!(got.pair, Pair { x: vec![1, 2], y: vec![2, 1], v: 2 });
}

#[test]
fn percentile_search_with_room_left_says_so() {
    let got = ranked(&corner_x(), &corner_y(), 0, 1);
    assert_eq!(got.capacity, 16);
    assert_eq!(got.retained, 4);
    assert_eq!(got.pair, Pair { x: vec![1, 2], y: vec![2, 1], v: 2 });
}

#[test]
fn percentile_search_keeps_candidates_of_distance_zero() {
    let same = vec![vec![1, 1], vec![2, 2], vec![3, 3]];
    let got = ranked(&same, &same, 0, 1);
    assert_eq!(got.retained, 3);
    assert_eq!(got.capacity, 9);
    assert_eq!(got.pair.v, 0);
    assert_eq!(got.pair.x, got.pair.y);
}

#[test]
fn percentile_search_is_at_most_the_exact_search() {
    let xs = vec![vec![0, 0], vec![9, 9], vec![4, 5], vec![20, 1], vec![7, 7], vec![3, 8]];
    let ys = vec![vec![1, 1], vec![8, 8], vec![15, 3]];
    let exact = find_max(&xs, &ys, SquaredEuclidean).unwrap().v;
    let mut last = exact;
    for numer in (0..=18).rev() {
        let got = ranked(&xs, &ys, numer, 18);
        assert!(got.pair.v <= exact);
        // a lower percentile retains more, and answers with no more
        assert!(got.pair.v <= last);
        last = got.pair.v;
    }
    assert_eq!(ranked(&xs, &ys, 18, 18).pair.v, exact);
    assert_eq!(ranked(&xs, &ys, 17, 18).pair.v, exact);
}

#[test]
fn percentile_search_returns_the_value_of_its_rank() {
    let xs = vec![vec![0, 0], vec![9, 9], vec![4, 5], vec![20, 1], vec![7, 7], vec![3, 8], vec![15, 4]];
    let ys = vec![vec![1, 1], vec![8, 8], vec![15, 3]];
    let mut nearest: Vec<u64> = Vec::new();
    for x in &xs {
        let mut least = u64::MAX;
        for y in &ys {
            least = least.min(hausdorff::metric::distance(x, y));
        }
        nearest.push(least);
    }
    nearest.sort();
    nearest.reverse();
    for numer in 0..=21u64 {
        let got = ranked(&xs, &ys, numer, 21);
        assert_eq!(got.capacity, std::cmp::max(1, 21 - numer as u128));
        let kept = std::cmp::min(got.capacity as usize, xs.len());
        assert_eq!(got.retained, kept);
        assert_eq!(got.pair.v, nearest[kept - 1]);
        assert_eq!(hausdorff::metric::distance(&got.pair.x, &got.pair.y), got.pair.v);
    }
}

#[test]
fn percentile_search_does_not_depend_on_order() {
    let xs = vec![vec![0, 0], vec![9, 9], vec![4, 5], vec![20, 1], vec![7, 7], vec![3, 8], vec![15, 4]];
    let ys = vec![vec![1, 1], vec![8, 8], vec![15, 3]];
    let mut xs_back = xs.clone();
    xs_back.reverse();
    let mut ys_back = ys.clone();
    ys_back.rotate_left(1);
    for numer in 0..=21u64 {
        let one = ranked(&xs, &ys, numer, 21);
        let other = ranked(&xs_back, &ys_back, numer, 21);
        assert_eq!(one.pair.v, other.pair.v);
        assert_eq!(one.retained, other.retained);
    }
}
