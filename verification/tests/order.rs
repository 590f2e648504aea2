use progression_website::order::sort_by_keys;

#[test]
fn items_are_sorted_by_their_keys() {
    let out = sort_by_keys(vec!["c", "a", "b"], &vec![3, 1, 2]);
    assert_eq!(out, vec!["a", "b", "c"]);
}

#[test]
fn equal_keys_keep_their_order() {
    let out = sort_by_keys(vec!["x1", "y1", "x2", "y2", "x3"], &vec![5, 1, 5, 1, 5]);
    assert_eq!(out, vec!["y1", "y2", "x1", "x2", "x3"]);
    assert_eq!(sort_by_keys(Vec::<u8>::new(), &vec![]), Vec::<u8>::new());
    assert_eq!(sort_by_keys(vec![1, 2, 3], &vec![0, 0, 0]), vec![1, 2, 3]);
    assert_eq!(sort_by_keys(vec![1, 2, 3], &vec![u128::MAX, 0, 7]), vec![2, 3, 1]);
}
