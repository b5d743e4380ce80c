use graph_store::index_set::IndexSet;

#[test]
fn index_set_keeps_sorted_unique_elements() {
    let mut s = IndexSet::new();
    assert!(s.is_empty());
    s.insert(5);
    s.insert(2);
    s.insert(5);
    s.insert(9);
    assert_eq!(s.len(), 3);
    assert!(s.contains(2));
    assert!(s.contains(5));
    assert!(s.contains(9));
    assert!(!s.contains(3));
    assert_eq!(s.as_slice(), &[2, 5, 9]);
    assert_eq!(s.at(1), 5);
    s.remove(5);
    assert_eq!(s.as_slice(), &[2, 9]);
    s.remove(7);
    assert_eq!(s.len(), 2);
    assert!(!s.is_empty());
}
