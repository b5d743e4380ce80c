//! Serialization codec: the store as an ordered sequence of slot records,
//! one per slot, so that sequence position *is* the object's index. Only
//! objects and descriptions are recorded; back-link sets and value indices
//! are derived state, rebuilt from the records on decode.
use vstd::prelude::*;

use crate::graph::{
    atom_at, backlinks_ok, description_at, link_pair_at, links_from, links_to, object_at,
    slot_live, store_consistent, views_of, Graph, ObjectData, SlotView, StoreView,
};
use crate::index_set::IndexSet;
use crate::slot_vec::SlotVec;
use crate::types::{Atom, Error, Index, Link, Object, ObjectView};

verus! {

/// One serialized slot: empty, or an object with its description.
pub enum SlotEntry {
    Empty,
    Occupied { object: Object, description: String },
}

impl View for SlotEntry {
    type V = Option<SlotView>;

    open spec fn view(&self) -> Option<SlotView> {
        match self {
            SlotEntry::Empty => None,
            SlotEntry::Occupied { object, description } => Some(
                SlotView { object: object@, description: description@ },
            ),
        }
    }
}

/// The slot contents described by a record sequence.
pub open spec fn entry_views(entries: Seq<SlotEntry>) -> Seq<Option<SlotView>> {
    Seq::new(entries.len(), |i: int| entries[i]@)
}

/// Which endpoint of a link record is at fault.
#[derive(Debug, Clone, Copy, PartialEq, Eq, Structural)]
pub enum LinkField {
    From,
    To,
}

/// Decoding failures. Each one names the offending slot.
#[derive(Debug, Clone, Copy, PartialEq, Eq, Structural)]
pub enum DecodeError {
    /// The slot holds a link whose named endpoint is out of range or empty.
    InvalidEndpoint { slot: Index, field: LinkField },
    /// The slot repeats the atom value of an earlier slot.
    DuplicateAtom { slot: Index },
    /// The slot repeats the endpoint pair of an earlier slot.
    DuplicateLink { slot: Index },
}

/// What is wrong with slot `i` taken on its own: a link endpoint that does
/// not resolve to an occupied slot, or a value an earlier slot already has.
pub open spec fn slot_defect(slots: Seq<Option<SlotView>>, i: usize) -> Option<DecodeError> {
    if slot_live(slots, i) {
        match object_at(slots, i) {
            ObjectView::Link(l) => {
                if !slot_live(slots, l.from) {
                    Some(DecodeError::InvalidEndpoint { slot: i, field: LinkField::From })
                } else if !slot_live(slots, l.to) {
                    Some(DecodeError::InvalidEndpoint { slot: i, field: LinkField::To })
                } else if exists|k: usize| k < i && #[trigger] link_pair_at(slots, k, l) {
                    Some(DecodeError::DuplicateLink { slot: i })
                } else {
                    None
                }
            },
            ObjectView::Atom(a) => {
                if exists|k: usize| k < i && #[trigger] atom_at(slots, k, a) {
                    Some(DecodeError::DuplicateAtom { slot: i })
                } else {
                    None
                }
            },
            ObjectView::Abstract => None,
        }
    } else {
        None
    }
}

/// The first defect at or after slot `i`, scanning in ascending order.
pub open spec fn first_defect_from(slots: Seq<Option<SlotView>>, i: int) -> Option<DecodeError>
    decreases slots.len() - i,
{
    if i < 0 || i >= slots.len() {
        None
    } else if slot_defect(slots, i as usize) is Some {
        slot_defect(slots, i as usize)
    } else {
        first_defect_from(slots, i + 1)
    }
}

/// The first defect in the record sequence, if any. Decoding succeeds
/// exactly when there is none.
pub open spec fn first_defect(slots: Seq<Option<SlotView>>) -> Option<DecodeError> {
    first_defect_from(slots, 0)
}

/// Scanning can skip over a defect-free stretch.
proof fn lemma_defect_skip(slots: Seq<Option<SlotView>>, i: int, j: int)
    requires
        0 <= i <= j <= slots.len(),
        forall|m: int| i <= m < j ==> #[trigger] slot_defect(slots, m as usize) is None,
    ensures
        first_defect_from(slots, i) == first_defect_from(slots, j),
    decreases j - i,
{
    if i < j {
        lemma_defect_skip(slots, i + 1, j);
    }
}

/// In a defect-free sequence every slot is defect-free.
proof fn lemma_no_defect_all(slots: Seq<Option<SlotView>>)
    requires
        first_defect(slots) is None,
    ensures
        forall|i: usize| (i as int) < slots.len() ==> #[trigger] slot_defect(slots, i) is None,
{
    assert forall|i: int|
        0 <= i < slots.len() implies #[trigger] slot_defect(slots, i as usize) is None by {
        if slot_defect(slots, i as usize) is Some {
            let k = choose|k: int|
                0 <= k <= i && #[trigger] slot_defect(slots, k as usize) is Some && forall|m: int|
                    0 <= m < k ==> #[trigger] slot_defect(slots, m as usize) is None;
            assert(exists|k0: int|
                0 <= k0 <= i && #[trigger] slot_defect(slots, k0 as usize) is Some && forall|
                m: int,
            |
                0 <= m < k0 ==> #[trigger] slot_defect(slots, m as usize) is None) by {
                lemma_least_defect(slots, i);
            }
            lemma_defect_skip(slots, 0, k);
            assert(first_defect_from(slots, k) == slot_defect(slots, k as usize));
        }
    }
    assert forall|i: usize| (i as int) < slots.len() implies #[trigger] slot_defect(
        slots,
        i,
    ) is None by {
        assert(slot_defect(slots, (i as int) as usize) is None);
    }
}

/// If some slot up to `i` has a defect, a least such slot exists.
proof fn lemma_least_defect(slots: Seq<Option<SlotView>>, i: int)
    requires
        0 <= i < slots.len(),
        slot_defect(slots, i as usize) is Some,
    ensures
        exists|k: int|
            0 <= k <= i && #[trigger] slot_defect(slots, k as usize) is Some && forall|m: int|
                0 <= m < k ==> #[trigger] slot_defect(slots, m as usize) is None,
    decreases i,
{
    if forall|m: int| 0 <= m < i ==> #[trigger] slot_defect(slots, m as usize) is None {
        assert(slot_defect(slots, i as usize) is Some && forall|m: int|
            0 <= m < i ==> #[trigger] slot_defect(slots, m as usize) is None);
    } else {
        let m0 = choose|m: int| 0 <= m < i && !(#[trigger] slot_defect(slots, m as usize) is None);
        lemma_least_defect(slots, m0);
    }
}

/// A consistent store serializes to a defect-free record sequence.
pub proof fn lemma_consistent_no_defect(slots: Seq<Option<SlotView>>)
    requires
        store_consistent(slots),
    ensures
        first_defect(slots) is None,
{
    assert forall|i: int|
        0 <= i < slots.len() implies #[trigger] slot_defect(slots, i as usize) is None by {
        if slot_live(slots, i as usize) {
            match object_at(slots, i as usize) {
                ObjectView::Link(l) => {
                    assert(link_pair_at(slots, i as usize, l));
                    if exists|k: usize| k < i as usize && #[trigger] link_pair_at(slots, k, l) {
                        let k = choose|k: usize|
                            k < i as usize && #[trigger] link_pair_at(slots, k, l);
                        assert(k == i as usize);
                    }
                },
                ObjectView::Atom(a) => {
                    assert(atom_at(slots, i as usize, a));
                    if exists|k: usize| k < i as usize && #[trigger] atom_at(slots, k, a) {
                        let k = choose|k: usize| k < i as usize && #[trigger] atom_at(slots, k, a);
                        assert(k == i as usize);
                    }
                },
                ObjectView::Abstract => {},
            }
        }
    }
    lemma_defect_skip(slots, 0, slots.len() as int);
}

/// Serialize the store: one record per slot, occupied or empty, in index
/// order. Only objects and descriptions are recorded.
pub fn encode(graph: &Graph) -> (r: Vec<SlotEntry>)
    requires
        graph.wf(),
    ensures
        entry_views(r@) == graph@.slots,
        first_defect(entry_views(r@)) is None,
{
    let n = graph.nb_slots();
    let mut out: Vec<SlotEntry> = Vec::new();
    let mut i: usize = 0;
    while i < n
        invariant
            graph.wf(),
            n == graph@.slots.len(),
            i <= n,
            out@.len() == i,
            forall|k: int| 0 <= k < i ==> (#[trigger] out@[k])@ == graph@.slots[k],
        decreases n - i,
    {
        match graph.get_object(i) {
            Ok(object_ref) => {
                let object = object_ref.object().clone();
                let description = object_ref.description().to_owned();
                out.push(SlotEntry::Occupied { object, description });
                proof {
                    assert(graph@.slots[i as int]->Some_0 =~= (SlotView {
                        object: object_at(graph@.slots, i),
                        description: description_at(graph@.slots, i),
                    }));
                }
            },
            Err(_) => {
                out.push(SlotEntry::Empty);
            },
        }
        i = i + 1;
    }
    proof {
        assert(entry_views(out@) =~= graph@.slots);
        crate::graph::lemma_wf_consistent(graph);
        lemma_consistent_no_defect(graph@.slots);
    }
    out
}

} // verus!

verus! {

/// Whether record `j` exists and is occupied.
fn entry_occupied(entries: &Vec<SlotEntry>, j: usize) -> (r: bool)
    ensures
        r == slot_live(entry_views(entries@), j),
{
    j < entries.len() && match &entries[j] {
        SlotEntry::Occupied { .. } => true,
        SlotEntry::Empty => false,
    }
}

/// Scan the records for the first defect, in ascending slot order.
fn check_entries(entries: &Vec<SlotEntry>) -> (r: Option<DecodeError>)
    ensures
        r == first_defect(entry_views(entries@)),
{
    let ghost views = entry_views(entries@);
    let n = entries.len();
    let mut i: usize = 0;
    while i < n
        invariant
            n == entries@.len(),
            views == entry_views(entries@),
            i <= n,
            forall|m: int| 0 <= m < i ==> #[trigger] slot_defect(views, m as usize) is None,
        decreases n - i,
    {
        match &entries[i] {
            SlotEntry::Occupied { object: Object::Link(l), .. } => {
                if !entry_occupied(entries, l.from) {
                    let e = DecodeError::InvalidEndpoint { slot: i, field: LinkField::From };
                    proof {
                        assert(object_at(views, i) == ObjectView::Link(*l));
                        assert(slot_defect(views, i) == Some(e));
                        lemma_defect_skip(views, 0, i as int);
                    }
                    return Some(e);
                } else if !entry_occupied(entries, l.to) {
                    let e = DecodeError::InvalidEndpoint { slot: i, field: LinkField::To };
                    proof {
                        assert(object_at(views, i) == ObjectView::Link(*l));
                        assert(slot_defect(views, i) == Some(e));
                        lemma_defect_skip(views, 0, i as int);
                    }
                    return Some(e);
                } else {
                    let mut k: usize = 0;
                    while k < i
                        invariant
                            n == entries@.len(),
                            views == entry_views(entries@),
                            k <= i < n,
                            forall|m: int|
                                0 <= m < i ==> #[trigger] slot_defect(views, m as usize) is None,
                            entries@[i as int] matches SlotEntry::Occupied { object: o, .. }
                                && o@ == ObjectView::Link(*l),
                            slot_live(views, l.from),
                            slot_live(views, l.to),
                            forall|m: usize| m < k ==> !(#[trigger] link_pair_at(views, m, *l)),
                        decreases i - k,
                    {
                        match &entries[k] {
                            SlotEntry::Occupied { object: Object::Link(l2), .. } => {
                                if l2.from == l.from && l2.to == l.to {
                                    let e = DecodeError::DuplicateLink { slot: i };
                                    proof {
                                        assert(link_pair_at(views, k, *l));
                                        assert(object_at(views, i) == ObjectView::Link(*l));
                                        assert(slot_defect(views, i) == Some(e));
                                        lemma_defect_skip(views, 0, i as int);
                                    }
                                    return Some(e);
                                }
                            },
                            _ => {},
                        }
                        proof {
                            assert(!link_pair_at(views, k, *l));
                        }
                        k = k + 1;
                    }
                    proof {
                        assert(object_at(views, i) == ObjectView::Link(*l));
                        assert(slot_defect(views, i) is None);
                    }
                }
            },
            SlotEntry::Occupied { object: Object::Atom(a), .. } => {
                let mut k: usize = 0;
                while k < i
                    invariant
                        n == entries@.len(),
                        views == entry_views(entries@),
                        k <= i < n,
                        forall|m: int|
                            0 <= m < i ==> #[trigger] slot_defect(views, m as usize) is None,
                        entries@[i as int] matches SlotEntry::Occupied { object: o, .. } && o@
                            == ObjectView::Atom(a@),
                        forall|m: usize| m < k ==> !(#[trigger] atom_at(views, m, a@)),
                    decreases i - k,
                {
                    match &entries[k] {
                        SlotEntry::Occupied { object: Object::Atom(a2), .. } => {
                            if *a2 == *a {
                                let e = DecodeError::DuplicateAtom { slot: i };
                                proof {
                                    assert(atom_at(views, k, a@));
                                    assert(object_at(views, i) == ObjectView::Atom(a@));
                                    assert(slot_defect(views, i) == Some(e));
                                    lemma_defect_skip(views, 0, i as int);
                                }
                                return Some(e);
                            }
                        },
                        _ => {},
                    }
                    proof {
                        assert(!atom_at(views, k, a@));
                    }
                    k = k + 1;
                }
                proof {
                    assert(object_at(views, i) == ObjectView::Atom(a@));
                    assert(slot_defect(views, i) is None);
                }
            },
            _ => {
                proof {
                    assert(slot_defect(views, i) is None);
                }
            },
        }
        i = i + 1;
    }
    proof {
        lemma_defect_skip(views, 0, n as int);
    }
    None
}

/// Rebuild the store from a record sequence. Fails, naming the offending
/// slot and field, if a link endpoint resolves to an empty or out-of-range
/// slot, or if two occupied slots carry the same atom value or the same
/// endpoint pair. On success, slot position is the object's index, and
/// every back-link set is rebuilt from the records.
pub fn decode(entries: &Vec<SlotEntry>) -> (r: Result<Graph, DecodeError>)
    ensures
        match r {
            Ok(g) => {
                &&& first_defect(entry_views(entries@)) is None
                &&& g.wf()
                &&& store_consistent(g@.slots)
                &&& g@.slots == entry_views(entries@)
            },
            Err(e) => first_defect(entry_views(entries@)) == Some(e),
        },
{
    let ghost views = entry_views(entries@);
    match check_entries(entries) {
        Some(e) => {
            return Err(e);
        },
        None => {},
    }
    proof {
        lemma_no_defect_all(views);
    }
    let n = entries.len();
    let mut data: Vec<Option<ObjectData>> = Vec::new();
    let mut i: usize = 0;
    while i < n
        invariant
            n == entries@.len(),
            views == entry_views(entries@),
            i <= n,
            data@.len() == i,
            forall|k: int|
                0 <= k < i ==> ((#[trigger] data@[k]) is Some <==> views[k] is Some),
            forall|k: int|
                0 <= k < i && data@[k] is Some ==> {
                    let od = (#[trigger] data@[k])->Some_0;
                    &&& od@ == views[k]->Some_0
                    &&& od.in_links.wf() && od.in_links@ == Seq::<usize>::empty()
                    &&& od.out_links.wf() && od.out_links@ == Seq::<usize>::empty()
                },
        decreases n - i,
    {
        match &entries[i] {
            SlotEntry::Occupied { object, description } => {
                data.push(
                    Some(
                        ObjectData {
                            object: object.clone(),
                            description: description.clone(),
                            in_links: IndexSet::new(),
                            out_links: IndexSet::new(),
                        },
                    ),
                );
            },
            SlotEntry::Empty => {
                data.push(None);
            },
        }
        i = i + 1;
    }
    let ghost data_view = data@;
    let mut sv = SlotVec::from_options(data);
    proof {
        assert forall|k: int| 0 <= k < n implies #[trigger] views_of(sv@.slots)[k]
            == views[k] by {
            assert(sv@.slots[k] == data_view[k]);
        }
        assert forall|i2: usize| #[trigger]
            slot_live(views, i2) implies {
            let od = sv@.slots[i2 as int]->Some_0;
            &&& od.in_links.wf()
            &&& od.out_links.wf()
            &&& forall|x: usize|
                #[trigger] od.in_links@.contains(x) == (links_to(views, x, i2) && x < 0)
            &&& forall|x: usize|
                #[trigger] od.out_links@.contains(x) == (links_from(views, x, i2) && x < 0)
        } by {
            assert(sv@.slots[i2 as int] == data_view[i2 as int]);
            let od = sv@.slots[i2 as int]->Some_0;
            assert(od.in_links@ == Seq::<usize>::empty());
            assert(od.out_links@ == Seq::<usize>::empty());
        }
    }
    let mut j: usize = 0;
    while j < n
        invariant
            n == entries@.len(),
            views == entry_views(entries@),
            first_defect(views) is None,
            forall|m: usize| (m as int) < views.len() ==> #[trigger] slot_defect(views, m) is None,
            j <= n,
            sv.wf(),
            sv@.slots.len() == n,
            forall|k: int| 0 <= k < n ==> #[trigger] views_of(sv@.slots)[k] == views[k],
            forall|i2: usize| #[trigger]
                slot_live(views, i2) ==> {
                    let od = sv@.slots[i2 as int]->Some_0;
                    &&& od.in_links.wf()
                    &&& od.out_links.wf()
                    &&& forall|x: usize|
                        #[trigger] od.in_links@.contains(x) == (links_to(views, x, i2) && x < j)
                    &&& forall|x: usize|
                        #[trigger] od.out_links@.contains(x) == (links_from(views, x, i2) && x < j)
                },
        decreases n - j,
    {
        let ghost pre_slots = sv@.slots;
        let found_link: Option<Link> = match sv.get(j) {
            Some(od) => match &od.object {
                Object::Link(l) => Some(*l),
                _ => None,
            },
            None => None,
        };
        match found_link {
            Some(l) => {
                proof {
                    assert(views_of(sv@.slots)[j as int] == views[j as int]);
                    assert(object_at(views, j) == ObjectView::Link(l));
                    assert(slot_defect(views, j) is None);
                    assert(slot_live(views, l.from) && slot_live(views, l.to));
                    assert(views_of(sv@.slots)[l.from as int] == views[l.from as int]);
                    assert(sv@.slots[l.from as int] is Some);
                }
                match sv.get_mut(l.from) {
                    Some(od_f) => od_f.out_links.insert(j),
                    None => unreached(),
                }
                proof {
                    if l.to != l.from {
                        assert(sv@.slots[l.to as int] == pre_slots[l.to as int]);
                        assert(views_of(pre_slots)[l.to as int] == views[l.to as int]);
                    }
                    assert(sv@.slots[l.to as int] is Some);
                }
                match sv.get_mut(l.to) {
                    Some(od_t) => od_t.in_links.insert(j),
                    None => unreached(),
                }
                proof {
                    assert forall|k: int|
                        0 <= k < n implies #[trigger] views_of(sv@.slots)[k] == views[k] by {
                        assert(views_of(sv@.slots)[k] == views_of(pre_slots)[k]);
                    }
                    assert forall|i2: usize| #[trigger]
                        slot_live(views, i2) implies {
                        let od = sv@.slots[i2 as int]->Some_0;
                        &&& od.in_links.wf()
                        &&& od.out_links.wf()
                        &&& forall|x: usize|
                            #[trigger] od.in_links@.contains(x) == (links_to(views, x, i2) && x < j
                                + 1)
                        &&& forall|x: usize|
                            #[trigger] od.out_links@.contains(x) == (links_from(views, x, i2) && x
                                < j + 1)
                    } by {
                        let od0 = pre_slots[i2 as int]->Some_0;
                        let od = sv@.slots[i2 as int]->Some_0;
                        assert forall|x: usize|
                            #[trigger] od.in_links@.contains(x) == (links_to(views, x, i2) && x < j
                                + 1) by {
                            if i2 == l.to {
                                assert(od.in_links@.contains(x) == (od0.in_links@.contains(x) || x
                                    == j));
                            } else {
                                assert(od.in_links == od0.in_links);
                                if x == j && links_to(views, x, i2) {
                                    assert(object_at(views, j) == ObjectView::Link(l));
                                }
                            }
                        }
                        assert forall|x: usize|
                            #[trigger] od.out_links@.contains(x) == (links_from(views, x, i2) && x
                                < j + 1) by {
                            if i2 == l.from {
                                assert(od.out_links@.contains(x) == (od0.out_links@.contains(x)
                                    || x == j));
                            } else {
                                assert(od.out_links == od0.out_links);
                                if x == j && links_from(views, x, i2) {
                                    assert(object_at(views, j) == ObjectView::Link(l));
                                }
                            }
                        }
                    }
                }
            },
            None => {
                proof {
                    assert(views_of(sv@.slots)[j as int] == views[j as int]);
                    assert forall|i2: usize| #[trigger]
                        slot_live(views, i2) implies {
                        let od = sv@.slots[i2 as int]->Some_0;
                        &&& od.in_links.wf()
                        &&& od.out_links.wf()
                        &&& forall|x: usize|
                            #[trigger] od.in_links@.contains(x) == (links_to(views, x, i2) && x < j
                                + 1)
                        &&& forall|x: usize|
                            #[trigger] od.out_links@.contains(x) == (links_from(views, x, i2) && x
                                < j + 1)
                    } by {
                        let od = sv@.slots[i2 as int]->Some_0;
                        assert forall|x: usize|
                            #[trigger] od.in_links@.contains(x) == (links_to(views, x, i2) && x < j
                                + 1) by {
                            if x == j && links_to(views, x, i2) {
                                assert(views_of(sv@.slots)[j as int] == views[j as int]);
                            }
                        }
                        assert forall|x: usize|
                            #[trigger] od.out_links@.contains(x) == (links_from(views, x, i2) && x
                                < j + 1) by {
                            if x == j && links_from(views, x, i2) {
                                assert(views_of(sv@.slots)[j as int] == views[j as int]);
                            }
                        }
                    }
                }
            },
        }
        j = j + 1;
    }
    let graph = Graph { objects: sv };
    proof {
        assert(graph@.slots =~= views);
        // consistency from the defect-free scan
        assert forall|j2: usize, l: Link| #[trigger]
            link_pair_at(views, j2, l) implies slot_live(views, l.from) && slot_live(
            views,
            l.to,
        ) by {
            assert(slot_defect(views, j2) is None);
        }
        assert forall|j2: usize, k2: usize, a: crate::types::AtomView|
            #[trigger] atom_at(views, j2, a) && #[trigger] atom_at(views, k2, a) implies j2
            == k2 by {
            if j2 < k2 {
                assert(slot_defect(views, k2) is None);
            } else if k2 < j2 {
                assert(slot_defect(views, j2) is None);
            }
        }
        assert forall|j2: usize, k2: usize, l: Link|
            #[trigger] link_pair_at(views, j2, l) && #[trigger] link_pair_at(views, k2, l) implies
            j2 == k2 by {
            if j2 < k2 {
                assert(slot_defect(views, k2) is None);
            } else if k2 < j2 {
                assert(slot_defect(views, j2) is None);
            }
        }
        assert(store_consistent(graph@.slots));
        // back-link sets are exact
        assert forall|i2: usize| #[trigger]
            slot_live(graph@.slots, i2) implies backlinks_ok(graph.objects@.slots, i2) by {
            assert(slot_live(views, i2));
            let od = graph.objects@.slots[i2 as int]->Some_0;
            assert forall|x: usize| #[trigger]
                od.in_links@.contains(x) implies links_to(graph@.slots, x, i2) by {
                assert(links_to(views, x, i2));
            }
            assert forall|x: usize| #[trigger]
                links_to(graph@.slots, x, i2) implies od.in_links@.contains(x) by {
                assert(links_to(views, x, i2));
                assert(x < n);
            }
            assert forall|x: usize| #[trigger]
                od.out_links@.contains(x) implies links_from(graph@.slots, x, i2) by {
                assert(links_from(views, x, i2));
            }
            assert forall|x: usize| #[trigger]
                links_from(graph@.slots, x, i2) implies od.out_links@.contains(x) by {
                assert(links_from(views, x, i2));
                assert(x < n);
            }
            assert(backlinks_ok(graph.objects@.slots, i2));
        }
        assert(graph.wf());
    }
    Ok(graph)
}

} // verus!
