use graph_store::codec::{decode, encode, DecodeError, LinkField, SlotEntry};
use graph_store::graph::Graph;
use graph_store::types::{Atom, Link, Object};

#[test]
fn decode_empty_sequence() {
    let g = decode(&Vec::new()).expect("Deserialization failure");
    assert_eq!(g.nb_slots(), 0);
}

#[test]
fn decode_rejects_out_of_range_endpoint() {
    let entries = vec![SlotEntry::Occupied {
        object: Object::Link(Link::new(0, 5)),
        description: String::new(),
    }];
    let r = decode(&entries);
    assert!(matches!(
        r,
        Err(DecodeError::InvalidEndpoint { slot: 0, field: LinkField::To })
    ));
}

#[test]
fn decode_rejects_empty_endpoint() {
    let entries = vec![
        SlotEntry::Empty,
        SlotEntry::Occupied {
            object: Object::Link(Link::new(0, 1)),
            description: String::new(),
        },
    ];
    let r = decode(&entries);
    assert!(matches!(
        r,
        Err(DecodeError::InvalidEndpoint { slot: 1, field: LinkField::From })
    ));
}

#[test]
fn decode_rejects_duplicate_atom() {
    let entries = vec![
        SlotEntry::Occupied { object: Object::Atom(Atom::text("a")), description: String::new() },
        SlotEntry::Occupied { object: Object::Atom(Atom::text("a")), description: String::new() },
    ];
    assert!(matches!(decode(&entries), Err(DecodeError::DuplicateAtom { slot: 1 })));
}

#[test]
fn decode_rejects_duplicate_link() {
    let entries = vec![
        SlotEntry::Occupied { object: Object::Abstract, description: String::new() },
        SlotEntry::Occupied { object: Object::Abstract, description: String::new() },
        SlotEntry::Occupied {
            object: Object::Link(Link::new(0, 1)),
            description: String::new(),
        },
        SlotEntry::Occupied {
            object: Object::Link(Link::new(0, 1)),
            description: String::new(),
        },
    ];
    assert!(matches!(decode(&entries), Err(DecodeError::DuplicateLink { slot: 3 })));
}

#[test]
fn decode_accepts_forward_references() {
    // A link may point at a slot that comes later in the sequence.
    let entries = vec![
        SlotEntry::Occupied {
            object: Object::Link(Link::new(1, 2)),
            description: String::new(),
        },
        SlotEntry::Occupied { object: Object::Abstract, description: String::new() },
        SlotEntry::Occupied { object: Object::Atom(Atom::text("t")), description: String::new() },
    ];
    let g = decode(&entries).expect("Deserialization failure");
    assert!(g.object(1).out_links_index().contains(&0));
    assert!(g.object(2).in_links_index().contains(&0));
}

#[test]
fn decode_keeps_holes_and_reuses_them() {
    let entries = vec![
        SlotEntry::Occupied { object: Object::Atom(Atom::text("kept")), description: String::new() },
        SlotEntry::Empty,
        SlotEntry::Occupied { object: Object::Abstract, description: String::new() },
    ];
    let mut g = decode(&entries).expect("Deserialization failure");
    assert!(g.valid(0));
    assert!(!g.valid(1));
    assert!(g.valid(2));
    // the hole is reused before the store grows
    let fresh = g.create_abstract();
    assert_eq!(fresh, 1);
    assert_eq!(g.nb_slots(), 3);
}

#[test]
fn encode_marks_empty_slots() {
    let mut g = Graph::new();
    let a = g.use_atom(Atom::Integer(7));
    let doomed = g.create_abstract();
    g.remove_object(doomed).unwrap();
    let entries = encode(&g);
    assert_eq!(entries.len(), 2);
    assert!(matches!(entries[0], SlotEntry::Occupied { .. }));
    assert!(matches!(entries[1], SlotEntry::Empty));
    let _ = a;
}
