use graph_store::graph::Graph;
use graph_store::types::{Atom, Error, Link, Object};

fn object_count(g: &Graph) -> usize {
    let mut n: usize = 0;
    let mut it = g.objects();
    while let Some(_) = it.next() {
        n += 1;
    }
    n
}

#[test]
fn atom_dedup_is_idempotent() {
    let mut g = Graph::new();
    let first = g.use_atom(Atom::text("x"));
    let second = g.use_atom(Atom::text("x"));
    assert_eq!(first, second);
    assert_eq!(object_count(&g), 1);
}

#[test]
fn integer_and_text_atoms_are_distinct() {
    let mut g = Graph::new();
    let t = g.use_atom(Atom::text("1"));
    let i = g.use_atom(Atom::Integer(1));
    assert_ne!(t, i);
    assert_eq!(g.get_atom_index(&Atom::Integer(1)), Some(i));
    assert_eq!(g.get_atom_index(&Atom::text("1")), Some(t));
    assert_eq!(g.get_atom_index(&Atom::Integer(2)), None);
}

#[test]
fn link_same_pair_same_index() {
    let mut g = Graph::new();
    let x = g.create_abstract();
    let y = g.create_abstract();
    let l1 = g.use_link(Link::new(x, y)).unwrap();
    let l2 = g.use_link(Link::new(x, y)).unwrap();
    assert_eq!(l1, l2);
    assert_eq!(object_count(&g), 3);
}

#[test]
fn link_direction_matters() {
    let mut g = Graph::new();
    let x = g.create_abstract();
    let y = g.create_abstract();
    let forward = g.use_link(Link::new(x, y)).unwrap();
    let backward = g.use_link(Link::new(y, x)).unwrap();
    assert_ne!(forward, backward);
}

#[test]
fn invalid_endpoint_is_rejected() {
    let mut g = Graph::new();
    let x = g.create_abstract();
    let before = g.nb_slots();
    let r = g.use_link(Link::new(x, 7));
    assert!(matches!(r, Err(Error::InvalidIndex)));
    assert_eq!(g.nb_slots(), before);
    assert!(g.get_link_index(&Link::new(x, 7)).is_none());
}

#[test]
fn removal_guard_is_bottom_up() {
    let mut g = Graph::new();
    let a = g.use_atom(Atom::text("x"));
    let b = g.create_abstract();
    let l = g.use_link(Link::new(a, b)).unwrap();
    assert!(matches!(g.remove_object(a), Err(Error::CannotRemoveLinked)));
    assert!(matches!(g.remove_object(b), Err(Error::CannotRemoveLinked)));
    g.remove_object(l).unwrap();
    g.remove_object(a).unwrap();
    g.remove_object(b).unwrap();
    assert_eq!(object_count(&g), 0);
}

#[test]
fn removed_slot_is_reused_next() {
    let mut g = Graph::new();
    let i0 = g.create_abstract();
    let i1 = g.create_abstract();
    g.remove_object(i0).unwrap();
    let i2 = g.create_abstract();
    assert_eq!(i2, i0);
    assert_eq!(g.nb_slots(), 2);
    assert!(g.valid(i1));
}

#[test]
fn entities_are_never_deduplicated() {
    let mut g = Graph::new();
    let e1 = g.create_abstract();
    let e2 = g.create_abstract();
    assert_ne!(e1, e2);
    assert_eq!(object_count(&g), 2);
}

#[test]
fn remove_dead_index_is_invalid() {
    let mut g = Graph::new();
    assert!(matches!(g.remove_object(0), Err(Error::InvalidIndex)));
    let i = g.create_abstract();
    g.remove_object(i).unwrap();
    assert!(matches!(g.remove_object(i), Err(Error::InvalidIndex)));
}

#[test]
fn set_description_needs_live_index() {
    let mut g = Graph::new();
    assert!(matches!(
        g.set_description(3, String::from("nothing")),
        Err(Error::InvalidIndex)
    ));
    let i = g.use_atom(Atom::text("described"));
    g.set_description(i, String::from("some text")).unwrap();
    assert_eq!(g.object(i).description(), "some text");
}

#[test]
fn back_links_track_topology() {
    let mut g = Graph::new();
    let a = g.use_atom(Atom::text("a"));
    let b = g.create_abstract();
    let l1 = g.use_link(Link::new(a, b)).unwrap();
    let l2 = g.use_link(Link::new(b, a)).unwrap();
    assert_eq!(g.object(a).out_links_index(), &[l1]);
    assert_eq!(g.object(a).in_links_index(), &[l2]);
    assert_eq!(g.object(b).in_links_index(), &[l1]);
    assert_eq!(g.object(b).out_links_index(), &[l2]);
    g.remove_object(l1).unwrap();
    assert!(g.object(a).out_links_index().is_empty());
    assert_eq!(g.object(b).out_links_index(), &[l2]);
}

#[test]
fn objects_iterates_live_slots_ascending() {
    let mut g = Graph::new();
    let i0 = g.create_abstract();
    let i1 = g.create_abstract();
    let i2 = g.create_abstract();
    g.remove_object(i1).unwrap();
    let mut seen = Vec::new();
    let mut it = g.objects();
    while let Some(or) = it.next() {
        seen.push(or.index());
    }
    assert_eq!(seen, vec![i0, i2]);
}

#[test]
fn object_refs_resolve_links() {
    let mut g = Graph::new();
    let a = g.use_atom(Atom::text("left"));
    let b = g.use_atom(Atom::text("right"));
    let l = g.use_link(Link::new(a, b)).unwrap();
    let link_ref = g.object(l).as_link().expect("a link");
    assert_eq!(link_ref.from.index(), a);
    assert_eq!(link_ref.to.index(), b);
    assert!(g.object(a).as_link().is_none());

    let outs = g.object(a).out_links();
    assert_eq!(outs.len(), 1);
    assert!(!outs.is_empty());
    assert_eq!(outs.at(0).index(), l);
    assert_eq!(outs.first().unwrap().index(), l);
    let mut it = outs.iter();
    assert_eq!(it.next().unwrap().index(), l);
    assert!(it.next().is_none());

    match g.object(a).object() {
        Object::Atom(atom) => assert!(*atom == Atom::text("left")),
        _ => panic!("expected an atom"),
    }
    assert!(g.object(a).object().is_atom());
    assert!(g.object(l).object().is_link());
    let e = g.create_abstract();
    assert!(g.object(e).object().is_abstract());
}

#[test]
fn get_atom_and_get_link_find_live_objects() {
    let mut g = Graph::new();
    let a = g.use_atom(Atom::text("findme"));
    let b = g.create_abstract();
    let l = g.use_link(Link::new(a, b)).unwrap();
    assert_eq!(g.get_atom(&Atom::text("findme")).unwrap().index(), a);
    assert!(g.get_atom(&Atom::text("absent")).is_none());
    assert_eq!(g.get_link(&Link::new(a, b)).unwrap().index(), l);
    assert!(g.get_link(&Link::new(b, a)).is_none());
    assert!(g.get_object(99).is_err());
    assert_eq!(g.get_object(a).unwrap().index(), a);
}
