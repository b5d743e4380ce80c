use graph_store::slot_vec::SlotVec;

#[test]
fn basic_api() {
    let mut sv = SlotVec::new();
    assert_eq!(sv.len(), 0);
    assert_eq!(sv.nb_slots(), 0);

    let id_42 = sv.insert(42);
    assert_eq!(sv.get(id_42), Some(&42));
    assert_eq!(*sv.get(id_42).unwrap(), 42);
    assert_eq!(sv.len(), 1);
    assert_eq!(sv.nb_slots(), 1);

    let id_12 = sv.insert(12);
    assert_ne!(id_42, id_12);
    assert_eq!(sv.len(), 2);
    assert_eq!(sv.nb_slots(), 2);

    assert_eq!(sv.remove(id_42), Some(42));
    assert_eq!(sv.len(), 1);
    assert_eq!(sv.get(id_42), None);
    assert_eq!(sv.nb_slots(), 2);

    // Check reuse
    let id_34 = sv.insert(34);
    assert_eq!(id_34, id_42);
    assert_ne!(id_42, id_12);
    assert_eq!(sv.nb_slots(), 2);

    *sv.get_mut(id_34).unwrap() = 0;
    assert_eq!(sv.get(id_34), Some(&0));
}

#[test]
fn remove_empty_slot_is_none() {
    let mut sv = SlotVec::new();
    let id = sv.insert(7);
    assert_eq!(sv.remove(id), Some(7));
    assert_eq!(sv.remove(id), None);
    assert_eq!(sv.len(), 0);
}

#[test]
fn reuse_is_most_recently_freed_first() {
    let mut sv = SlotVec::new();
    let a = sv.insert(1);
    let b = sv.insert(2);
    let c = sv.insert(3);
    assert_eq!(sv.remove(a), Some(1));
    assert_eq!(sv.remove(c), Some(3));
    // c was freed last, so it is reused first
    assert_eq!(sv.insert(4), c);
    assert_eq!(sv.insert(5), a);
    assert_eq!(sv.insert(6), 3);
    let _ = b;
}

#[test]
fn from_options_keeps_positions() {
    let sv = SlotVec::from_options(vec![Some(10), None, Some(30)]);
    assert_eq!(sv.nb_slots(), 3);
    assert_eq!(sv.len(), 2);
    assert_eq!(sv.get(0), Some(&10));
    assert_eq!(sv.get(1), None);
    assert_eq!(sv.get(2), Some(&30));
}
