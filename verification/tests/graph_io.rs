use graph_store::codec::{decode, encode};
use graph_store::graph::Graph;
use graph_store::types::{Atom, Link, Object};

fn same_object(a: &Object, b: &Object) -> bool {
    match (a, b) {
        (Object::Atom(x), Object::Atom(y)) => x == y,
        (Object::Link(x), Object::Link(y)) => x == y,
        (Object::Abstract, Object::Abstract) => true,
        _ => false,
    }
}

#[test]
fn io() {
    // Dummy graph
    let mut graph = Graph::new();
    let i0 = graph.create_abstract();
    let i1 = graph.use_atom(Atom::text("Abstract"));
    let i2 = graph.use_link(Link::new(i1, i0)).unwrap();
    let _i3 = graph.use_link(Link::new(i0, i2)).unwrap();
    // Serialize and deserialize
    let serialized = encode(&graph);
    let deserialized = decode(&serialized).expect("Deserialization failure");
    // Compare
    let mut objects = graph.objects();
    while let Some(object) = objects.next() {
        let deserialized_object = deserialized.object(object.index());
        assert!(same_object(object.object(), deserialized_object.object()));
    }
}

#[test]
fn round_trip_after_removals() {
    let mut g = Graph::new();
    let a = g.use_atom(Atom::text("name"));
    let b = g.use_atom(Atom::Integer(2018));
    let e = g.create_abstract();
    let l1 = g.use_link(Link::new(a, e)).unwrap();
    let _l2 = g.use_link(Link::new(b, l1)).unwrap();
    let doomed = g.create_abstract();
    g.set_description(e, String::from("an entity")).unwrap();
    g.remove_object(doomed).unwrap();

    let encoded = encode(&g);
    let d = decode(&encoded).expect("Deserialization failure");

    assert_eq!(g.nb_slots(), d.nb_slots());
    for i in 0..g.nb_slots() {
        assert_eq!(g.valid(i), d.valid(i));
        if g.valid(i) {
            let x = g.object(i);
            let y = d.object(i);
            assert!(same_object(x.object(), y.object()));
            assert_eq!(x.description(), y.description());
            assert_eq!(x.in_links_index(), y.in_links_index());
            assert_eq!(x.out_links_index(), y.out_links_index());
        }
    }
}

#[test]
fn serialize_scenario() {
    let mut g = Graph::new();
    let person = g.create_abstract();
    assert_eq!(person, 0);
    let pj = g.use_atom(Atom::text("PJ"));
    assert_eq!(pj, 1);
    let link = g.use_link(Link::new(0, 1)).unwrap();
    assert_eq!(link, 2);

    let encoded = encode(&g);
    let d = decode(&encoded).expect("Deserialization failure");

    match d.object(2).object() {
        Object::Link(l) => {
            assert_eq!(l.from, 0);
            assert_eq!(l.to, 1);
        },
        _ => panic!("slot 2 is not a link"),
    }
    assert!(d.object(0).out_links_index().contains(&2));
}
