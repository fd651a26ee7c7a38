use oast::histogram::make_histogram;

#[test]
fn histogram_counts_each_key() {
    let keys: Vec<i64> = vec![1, 2, 2, -3, 2];
    let h = make_histogram(&keys);
    assert_eq!(h.len(), 3);
    assert_eq!(h.get(&1), Some(&1));
    assert_eq!(h.get(&2), Some(&3));
    assert_eq!(h.get(&-3), Some(&1));
    assert_eq!(h.get(&0), None);
}

#[test]
fn histogram_of_nothing_is_empty() {
    let keys: Vec<i64> = Vec::new();
    assert!(make_histogram(&keys).is_empty());
}

#[test]
fn histogram_ignores_the_order_of_keys() {
    let a: Vec<i64> = vec![5, -1, 5, 3, 5, -1];
    let b: Vec<i64> = vec![-1, 5, 3, -1, 5, 5];
    assert_eq!(make_histogram(&a), make_histogram(&b));
}
