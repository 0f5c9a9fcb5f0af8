use magictile::util::stable_sort_by;

#[test]
fn stable_sort_by_sorts() {
    let mut v = vec![3, 1, 2, 1];
    stable_sort_by(&mut v, |a: &i32, b: &i32| a.cmp(b));
    assert_eq!(v, vec![1, 1, 2, 3]);
}

#[test]
fn stable_sort_keeps_equal_items_in_order() {
    let mut v = vec![(2, 'a'), (1, 'b'), (2, 'c'), (1, 'd')];
    stable_sort_by(&mut v, |a: &(i32, char), b: &(i32, char)| a.0.cmp(&b.0));
    assert_eq!(v, vec![(1, 'b'), (1, 'd'), (2, 'a'), (2, 'c')]);
}

#[test]
fn tolerant_comparators_do_not_panic() {
    // Within 1 counts as equal, which is not transitive.
    let mut v = vec![5, 4, 3, 2, 1];
    stable_sort_by(&mut v, |a: &i32, b: &i32| if (a - b).abs() <= 1 { std::cmp::Ordering::Equal } else { a.cmp(b) });
    assert_eq!(v.len(), 5);
    let mut sorted_items = v.clone();
    sorted_items.sort();
    assert_eq!(sorted_items, vec![1, 2, 3, 4, 5]);
    let mut empty: Vec<i32> = Vec::new();
    stable_sort_by(&mut empty, |a: &i32, b: &i32| a.cmp(b));
    assert!(empty.is_empty());
}
