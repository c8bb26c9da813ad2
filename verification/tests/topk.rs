use rinha::knn::TopK;

#[test]
fn topk_keeps_smallest_k() {
    let mut t = TopK::new();
    for (i, d) in [10_i64, 1, 50, 3, 8, 2, 100].iter().enumerate() {
        t.try_push(*d, i as u32);
    }
    let mut dists = t.dists;
    dists.sort();
    assert_eq!(dists, [1, 2, 3, 8, 10]);
}

#[test]
fn topk_fills_free_slots_first_and_keeps_ties() {
    let mut t = TopK::new();
    t.try_push(7, 0);
    t.try_push(7, 1);
    assert_eq!(t.len, 2);
    assert_eq!(&t.dists[..2], &[7, 7]);
    assert_eq!(t.dists[2], i64::MAX);
    for i in 2..5 {
        t.try_push(7, i);
    }
    // A tie does not replace a kept candidate.
    t.try_push(7, 99);
    assert!(!t.indices.contains(&99));
    // A closer candidate replaces the first farthest one.
    t.try_push(1, 42);
    assert_eq!(t.dists, [1, 7, 7, 7, 7]);
    assert_eq!(t.indices, [42, 1, 2, 3, 4]);
}
