use flexss::rendevouz_shuffle::rebuild_heap;

#[test]
fn rebuild_test() {
    let mut xs: Vec<u64> = vec![3, 1, 4, 1, 5, 9, 2, 6];
    rebuild_heap(&mut xs);
    assert_eq!(xs, vec![9, 6, 4, 1, 5, 3, 2, 1]);
}

#[test]
fn rebuild_empty_and_single() {
    let mut xs: Vec<u64> = vec![];
    rebuild_heap(&mut xs);
    assert_eq!(xs, Vec::<u64>::new());
    let mut ys: Vec<u64> = vec![7];
    rebuild_heap(&mut ys);
    assert_eq!(ys, vec![7]);
}

#[test]
fn rebuild_sorted_input() {
    let mut xs: Vec<u64> = (0..16).collect();
    rebuild_heap(&mut xs);
    // Max-heap property over the result.
    for c in 1..xs.len() {
        assert!(xs[c] <= xs[(c - 1) / 2]);
    }
    let mut sorted = xs.clone();
    sorted.sort();
    assert_eq!(sorted, (0..16).collect::<Vec<u64>>());
}
