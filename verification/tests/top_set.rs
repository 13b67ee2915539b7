use hausdorff::top_set::{Candidate, Offered, TopSet};

fn candidate(x: usize, v: u64) -> Candidate {
    Candidate { x, y: 0, v }
}

#[test]
fn top_set_starts_empty() {
    let set = TopSet::new(3);
    assert_eq!(set.len(), 0);
    assert!(!set.is_full());
    assert_eq!(set.peek(), None);
    assert_eq!(set.threshold(), 0);
}

#[test]
fn top_set_adds_while_it_has_room() {
    let mut set = TopSet::new(3);
    assert_eq!(set.offer(candidate(0, 7)), Offered::Added);
    assert_eq!(set.peek(), Some(candidate(0, 7)));
    assert_eq!(set.offer(candidate(1, 3)), Offered::Added);
    assert_eq!(set.peek(), Some(candidate(1, 3)));
    assert_eq!(set.threshold(), 0);
    assert_eq!(set.offer(candidate(2, 5)), Offered::Added);
    assert_eq!(set.len(), 3);
    assert!(set.is_full());
    assert_eq!(set.peek(), Some(candidate(1, 3)));
    assert_eq!(set.threshold(), 3);
}

#[test]
fn top_set_adds_a_candidate_of_value_zero() {
    let mut set = TopSet::new(2);
    assert_eq!(set.offer(candidate(0, 0)), Offered::Added);
    assert_eq!(set.len(), 1);
    assert_eq!(set.peek(), Some(candidate(0, 0)));
}

#[test]
fn top_set_replaces_its_least_member() {
    let mut set = TopSet::new(3);
    set.offer(candidate(0, 7));
    set.offer(candidate(1, 3));
    set.offer(candidate(2, 5));
    assert_eq!(set.offer(candidate(3, 6)), Offered::Replaced(candidate(1, 3)));
    assert_eq!(set.len(), 3);
    assert_eq!(set.peek(), Some(candidate(2, 5)));
    assert_eq!(set.offer(candidate(4, 9)), Offered::Replaced(candidate(2, 5)));
    assert_eq!(set.peek(), Some(candidate(3, 6)));
    assert_eq!(set.offer(candidate(5, 8)), Offered::Replaced(candidate(3, 6)));
    assert_eq!(set.peek(), Some(candidate(0, 7)));
    assert_eq!(set.threshold(), 7);
}

#[test]
fn top_set_refuses_what_is_not_greater() {
    let mut set = TopSet::new(2);
    set.offer(candidate(0, 7));
    set.offer(candidate(1, 3));
    assert_eq!(set.offer(candidate(2, 3)), Offered::Refused);
    assert_eq!(set.offer(candidate(3, 1)), Offered::Refused);
    assert_eq!(set.len(), 2);
    assert_eq!(set.peek(), Some(candidate(1, 3)));
}

#[test]
fn top_set_of_one_keeps_the_greatest() {
    let mut set = TopSet::new(1);
    let mut greatest = 0;
    for (x, v) in [4u64, 9, 2, 9, 11, 0, 10].iter().enumerate() {
        set.offer(candidate(x, *v));
        greatest = std::cmp::max(greatest, *v);
        assert_eq!(set.peek().unwrap().v, greatest);
        assert_eq!(set.len(), 1);
    }
    assert_eq!(set.peek(), Some(candidate(4, 11)));
}

#[test]
fn top_set_keeps_the_greatest_of_many() {
    let capacity = 10;
    let mut set = TopSet::new(capacity);
    let mut offered: Vec<u64> = Vec::new();
    let mut state: u64 = 12345;
    for x in 0..500 {
        state = state.wrapping_mul(6364136223846793005).wrapping_add(1442695040888963407);
        let v = (state >> 40) % 1000;
        offered.push(v);
        set.offer(candidate(x, v));
        let mut sorted = offered.clone();
        sorted.sort();
        sorted.reverse();
        let kept = std::cmp::min(capacity, offered.len());
        assert_eq!(set.len(), kept);
        assert_eq!(set.peek().unwrap().v, sorted[kept - 1]);
        let expected = if kept == capacity { sorted[kept - 1] } else { 0 };
        assert_eq!(set.threshold(), expected);
    }
}
