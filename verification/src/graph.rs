//! The graph store: a slot-indexed container of objects with value
//! deduplication for atoms and links, derived back-link sets for cheap
//! traversal, and a referential-integrity guard on removal.
use vstd::prelude::*;

use crate::index_set::IndexSet;
use crate::slot_vec::{
    alloc_target, free_matches, lemma_len_bound, lemma_wf_free_matches, slot_alloc, slot_release,
    SlotVec, SlotsView,
};
use crate::types::{Atom, AtomView, Error, Index, Link, Object, ObjectView};

verus! {

/// What one occupied slot holds: the object, and its free-text description.
#[verifier::ext_equal]
pub struct SlotView {
    pub object: ObjectView,
    pub description: Seq<char>,
}

/// Mathematical state of a `Graph`: slot contents, plus the order in which
/// empty slots will be reused.
pub type StoreView = SlotsView<SlotView>;

/// Whether slot `i` currently holds an object.
pub open spec fn slot_live(slots: Seq<Option<SlotView>>, i: usize) -> bool {
    i < slots.len() && slots[i as int] is Some
}

/// The object in slot `i`.
pub open spec fn object_at(slots: Seq<Option<SlotView>>, i: usize) -> ObjectView
    recommends
        slot_live(slots, i),
{
    slots[i as int]->Some_0.object
}

/// The description in slot `i`.
pub open spec fn description_at(slots: Seq<Option<SlotView>>, i: usize) -> Seq<char>
    recommends
        slot_live(slots, i),
{
    slots[i as int]->Some_0.description
}

/// Slot `j` holds the atom value `a`.
pub open spec fn atom_at(slots: Seq<Option<SlotView>>, j: usize, a: AtomView) -> bool {
    slot_live(slots, j) && object_at(slots, j) == ObjectView::Atom(a)
}

/// Slot `j` holds the link `l`.
pub open spec fn link_pair_at(slots: Seq<Option<SlotView>>, j: usize, l: Link) -> bool {
    slot_live(slots, j) && object_at(slots, j) == ObjectView::Link(l)
}

/// Slot `j` holds a link that starts at slot `i`.
pub open spec fn links_from(slots: Seq<Option<SlotView>>, j: usize, i: usize) -> bool {
    slot_live(slots, j) && (object_at(slots, j) matches ObjectView::Link(l) && l.from == i)
}

/// Slot `j` holds a link that ends at slot `i`.
pub open spec fn links_to(slots: Seq<Option<SlotView>>, j: usize, i: usize) -> bool {
    slot_live(slots, j) && (object_at(slots, j) matches ObjectView::Link(l) && l.to == i)
}

/// Slot `j` holds a link that starts or ends at slot `i`.
pub open spec fn link_touches(slots: Seq<Option<SlotView>>, j: usize, i: usize) -> bool {
    links_from(slots, j, i) || links_to(slots, j, i)
}

/// Some live link points at or from slot `i`.
pub open spec fn referenced(slots: Seq<Option<SlotView>>, i: usize) -> bool {
    exists|j: usize| #[trigger] link_touches(slots, j, i)
}

/// Some live slot holds the atom value `a`.
pub open spec fn has_atom(slots: Seq<Option<SlotView>>, a: AtomView) -> bool {
    exists|j: usize| atom_at(slots, j, a)
}

/// The slot holding the atom value `a` (meaningful when `has_atom`).
pub open spec fn atom_index(slots: Seq<Option<SlotView>>, a: AtomView) -> usize {
    choose|j: usize| atom_at(slots, j, a)
}

/// Some live slot holds the link `l`.
pub open spec fn has_link(slots: Seq<Option<SlotView>>, l: Link) -> bool {
    exists|j: usize| link_pair_at(slots, j, l)
}

/// The slot holding the link `l` (meaningful when `has_link`).
pub open spec fn link_index(slots: Seq<Option<SlotView>>, l: Link) -> usize {
    choose|j: usize| link_pair_at(slots, j, l)
}

/// Every live link's endpoints are live, and at most one live slot holds a
/// given atom value or a given ordered endpoint pair.
pub open spec fn store_consistent(slots: Seq<Option<SlotView>>) -> bool {
    &&& forall|j: usize, l: Link| #[trigger]
        link_pair_at(slots, j, l) ==> slot_live(slots, l.from) && slot_live(slots, l.to)
    &&& forall|j: usize, k: usize, a: AtomView|
        #[trigger] atom_at(slots, j, a) && #[trigger] atom_at(slots, k, a) ==> j == k
    &&& forall|j: usize, k: usize, l: Link|
        #[trigger] link_pair_at(slots, j, l) && #[trigger] link_pair_at(slots, k, l) ==> j == k
}

/// The slot content a newly inserted object starts with.
pub open spec fn fresh_slot(o: ObjectView) -> SlotView {
    SlotView { object: o, description: Seq::empty() }
}

/// State after `use_atom(a)`: unchanged if the atom is present, else the
/// atom is inserted into the allocation target.
pub open spec fn use_atom_next(v: StoreView, a: AtomView) -> StoreView {
    if has_atom(v.slots, a) {
        v
    } else {
        slot_alloc(v, fresh_slot(ObjectView::Atom(a)))
    }
}

/// Index returned by `use_atom(a)`: the atom's slot, existing or new.
pub open spec fn use_atom_index(v: StoreView, a: AtomView) -> usize {
    if has_atom(v.slots, a) {
        atom_index(v.slots, a)
    } else {
        alloc_target(v)
    }
}

/// `use_link` succeeds exactly when both endpoints are live.
pub open spec fn use_link_allowed(v: StoreView, l: Link) -> bool {
    slot_live(v.slots, l.from) && slot_live(v.slots, l.to)
}

/// State after a successful `use_link(l)`.
pub open spec fn use_link_next(v: StoreView, l: Link) -> StoreView {
    if has_link(v.slots, l) {
        v
    } else {
        slot_alloc(v, fresh_slot(ObjectView::Link(l)))
    }
}

/// Index returned by a successful `use_link(l)`.
pub open spec fn use_link_index(v: StoreView, l: Link) -> usize {
    if has_link(v.slots, l) {
        link_index(v.slots, l)
    } else {
        alloc_target(v)
    }
}

/// Result of `remove_object(i)`: the slot is freed only when it is live and
/// nothing still links at or from it.
pub open spec fn remove_result(v: StoreView, i: usize) -> Result<StoreView, Error> {
    if !slot_live(v.slots, i) {
        Err(Error::InvalidIndex)
    } else if referenced(v.slots, i) {
        Err(Error::CannotRemoveLinked)
    } else {
        Ok(slot_release(v, i))
    }
}

/// Result of `set_description(i, text)`.
pub open spec fn set_description_result(v: StoreView, i: usize, text: Seq<char>) -> Result<
    StoreView,
    Error,
> {
    if !slot_live(v.slots, i) {
        Err(Error::InvalidIndex)
    } else {
        Ok(
            SlotsView {
                slots: v.slots.update(
                    i as int,
                    Some(SlotView { object: object_at(v.slots, i), description: text }),
                ),
                free: v.free,
            },
        )
    }
}

/// Per-slot data: the object, plus local topology for fast traversal.
/// `in_links`/`out_links` hold the indices of the live links pointing
/// to/from this slot; they are derived state, maintained on every insert
/// and remove, and never serialized.
pub(crate) struct ObjectData {
    pub(crate) object: Object,
    pub(crate) description: String,
    pub(crate) in_links: IndexSet,
    pub(crate) out_links: IndexSet,
}

impl View for ObjectData {
    type V = SlotView;

    open(crate) spec fn view(&self) -> SlotView {
        SlotView { object: self.object@, description: self.description@ }
    }
}

/// The slot contents, as slot views.
pub(crate) open spec fn views_of(raw: Seq<Option<ObjectData>>) -> Seq<Option<SlotView>> {
    Seq::new(
        raw.len(),
        |i: int|
            match raw[i] {
                Some(od) => Some(od@),
                None => None,
            },
    )
}

/// The back-link sets of slot `i` list exactly the live links touching `i`.
pub(crate) open spec fn backlinks_ok(raw: Seq<Option<ObjectData>>, i: usize) -> bool {
    let od = raw[i as int]->Some_0;
    let slots = views_of(raw);
    &&& od.in_links.wf()
    &&& od.out_links.wf()
    &&& forall|j: usize| #[trigger] od.in_links@.contains(j) ==> links_to(slots, j, i)
    &&& forall|j: usize| #[trigger] links_to(slots, j, i) ==> od.in_links@.contains(j)
    &&& forall|j: usize| #[trigger] od.out_links@.contains(j) ==> links_from(slots, j, i)
    &&& forall|j: usize| #[trigger] links_from(slots, j, i) ==> od.out_links@.contains(j)
}

/// The graph store.
pub struct Graph {
    pub(crate) objects: SlotVec<ObjectData>,
}

impl View for Graph {
    type V = StoreView;

    open(crate) spec fn view(&self) -> StoreView {
        SlotsView { slots: views_of(self.objects@.slots), free: self.objects@.free }
    }
}

impl Graph {
    /// The store's internal invariant: the slot vector is well formed, the
    /// live objects are consistent (live endpoints, value uniqueness), and
    /// every live slot's back-link sets are exact.
    pub open(crate) spec fn wf(&self) -> bool {
        &&& self.objects.wf()
        &&& store_consistent(self@.slots)
        &&& forall|i: usize| #[trigger]
            slot_live(self@.slots, i) ==> backlinks_ok(self.objects@.slots, i)
    }

    /// Create an empty graph.
    pub fn new() -> (r: Self)
        ensures
            r.wf(),
            r@.slots.len() == 0,
            r@.free.len() == 0,
    {
        let r = Graph { objects: SlotVec::new() };
        proof {
            assert(r@.slots.len() == 0);
        }
        r
    }

    /// Whether `index` currently names a live object.
    pub fn valid(&self, index: Index) -> (r: bool)
        ensures
            r == slot_live(self@.slots, index),
    {
        index < self.objects.nb_slots() && self.objects.get(index).is_some()
    }

    /// The index of the live slot holding this atom value, if any.
    pub fn get_atom_index(&self, atom: &Atom) -> (r: Option<Index>)
        requires
            self.wf(),
        ensures
            r == (if has_atom(self@.slots, atom@) {
                Some(atom_index(self@.slots, atom@))
            } else {
                None::<Index>
            }),
            r matches Some(i) ==> atom_at(self@.slots, i, atom@),
    {
        let n = self.objects.nb_slots();
        let mut i: usize = 0;
        while i < n
            invariant
                self.wf(),
                n == self@.slots.len(),
                forall|k: usize| k < i ==> !atom_at(self@.slots, k, atom@),
            decreases n - i,
        {
            match self.objects.get(i) {
                Some(od) => {
                    match &od.object {
                        Object::Atom(a) => {
                            if *a == *atom {
                                proof {
                                    assert(atom_at(self@.slots, i, atom@));
                                    let j = atom_index(self@.slots, atom@);
                                    assert(atom_at(self@.slots, j, atom@));
                                }
                                return Some(i);
                            }
                        },
                        _ => {},
                    }
                },
                None => {},
            }
            proof {
                assert(!atom_at(self@.slots, i, atom@));
            }
            i = i + 1;
        }
        proof {
            assert forall|j: usize| !atom_at(self@.slots, j, atom@) by {
                if j < n {
                    assert(!atom_at(self@.slots, j, atom@));
                }
            }
        }
        None
    }

    /// The index of the live slot holding this link pair, if any.
    pub fn get_link_index(&self, link: &Link) -> (r: Option<Index>)
        requires
            self.wf(),
        ensures
            r == (if has_link(self@.slots, *link) {
                Some(link_index(self@.slots, *link))
            } else {
                None::<Index>
            }),
            r matches Some(i) ==> link_pair_at(self@.slots, i, *link),
    {
        let n = self.objects.nb_slots();
        let mut i: usize = 0;
        while i < n
            invariant
                self.wf(),
                n == self@.slots.len(),
                forall|k: usize| k < i ==> !link_pair_at(self@.slots, k, *link),
            decreases n - i,
        {
            match self.objects.get(i) {
                Some(od) => {
                    match &od.object {
                        Object::Link(l) => {
                            if l.from == link.from && l.to == link.to {
                                proof {
                                    assert(link_pair_at(self@.slots, i, *link));
                                    let j = link_index(self@.slots, *link);
                                    assert(link_pair_at(self@.slots, j, *link));
                                }
                                return Some(i);
                            }
                        },
                        _ => {},
                    }
                },
                None => {},
            }
            proof {
                assert(!link_pair_at(self@.slots, i, *link));
            }
            i = i + 1;
        }
        proof {
            assert forall|j: usize| !link_pair_at(self@.slots, j, *link) by {
                if j < n {
                    assert(!link_pair_at(self@.slots, j, *link));
                }
            }
        }
        None
    }
}

} // verus!

verus! {

/// What allocation does to the store view: the target slot was dead and now
/// holds the fresh object, every other slot is untouched, no old link
/// touches the target, and both consistency and the free-list account of
/// the holes are preserved.
pub(crate) proof fn lemma_alloc(v: StoreView, o: ObjectView)
    requires
        v.slots.len() <= usize::MAX,
        free_matches(v),
        store_consistent(v.slots),
        (o matches ObjectView::Atom(a) ==> !has_atom(v.slots, a)),
        (o matches ObjectView::Link(l) ==> !has_link(v.slots, l) && slot_live(v.slots, l.from)
            && slot_live(v.slots, l.to)),
    ensures
        ({
            let t = alloc_target(v);
            let v2 = slot_alloc(v, fresh_slot(o));
            &&& !slot_live(v.slots, t)
            &&& slot_live(v2.slots, t)
            &&& v2.slots[t as int] == Some(fresh_slot(o))
            &&& v2.free == (if v.free.len() > 0 {
                v.free.drop_first()
            } else {
                v.free
            })
            &&& forall|i: usize| i != t ==> #[trigger] slot_live(v2.slots, i) == slot_live(v.slots, i)
            &&& forall|i: usize|
                i != t && i < v.slots.len() ==> #[trigger] v2.slots[i as int] == v.slots[i as int]
            &&& forall|j: usize| !(#[trigger] link_touches(v.slots, j, t))
            &&& forall|j: usize, a: AtomView| #[trigger]
                atom_at(v2.slots, j, a) == (atom_at(v.slots, j, a) || (j == t && o
                    == ObjectView::Atom(a)))
            &&& forall|j: usize, l: Link| #[trigger]
                link_pair_at(v2.slots, j, l) == (link_pair_at(v.slots, j, l) || (j == t && o
                    == ObjectView::Link(l)))
            &&& forall|j: usize, x: usize| #[trigger]
                links_to(v2.slots, j, x) == (links_to(v.slots, j, x) || (j == t && (
                o matches ObjectView::Link(l)
                    && l.to == x)))
            &&& forall|j: usize, x: usize| #[trigger]
                links_from(v2.slots, j, x) == (links_from(v.slots, j, x) || (j == t && (
                o matches ObjectView::Link(l)
                    && l.from == x)))
            &&& store_consistent(v2.slots)
            &&& free_matches(v2)
        }),
{
    let t = alloc_target(v);
    let v2 = slot_alloc(v, fresh_slot(o));
    if v.free.len() > 0 {
        assert(v.free[0] < v.slots.len() && v.slots[v.free[0] as int] is None);
    }
    assert forall|k: int|
        0 <= k < v2.free.len() implies (#[trigger] v2.free[k]) < v2.slots.len()
            && v2.slots[v2.free[k] as int] is None by {
        if v.free.len() > 0 {
            assert(v2.free[k] == v.free[k + 1]);
            assert(v.free[k + 1] != v.free[0]);
        }
    }
    assert forall|i: int|
        0 <= i < v2.slots.len() && (#[trigger] v2.slots[i]) is None implies v2.free.contains(
            i as usize,
        ) by {
        if v.free.len() > 0 {
            assert(v.slots[i] is None);
            assert(v.free.contains(i as usize));
            let k = choose|k: int| 0 <= k < v.free.len() && v.free[k] == i as usize;
            assert(v.free[k] != v.free[0]);
            assert(v2.free[k - 1] == i as usize);
        } else {
            assert(v.slots[i] is None);
            assert(v.free.contains(i as usize));
        }
    }
    assert(!slot_live(v.slots, t));
    assert(slot_live(v2.slots, t));
    assert forall|j: usize| !(#[trigger] link_touches(v.slots, j, t)) by {
        if link_touches(v.slots, j, t) {
            let l = object_at(v.slots, j)->Link_0;
            assert(link_pair_at(v.slots, j, l));
            assert(slot_live(v.slots, t));
        }
    }
    assert forall|j: usize, a: AtomView| #[trigger]
        atom_at(v2.slots, j, a) == (atom_at(v.slots, j, a) || (j == t && o == ObjectView::Atom(
            a,
        ))) by {
        if j != t && atom_at(v2.slots, j, a) {
            assert(slot_live(v.slots, j));
        }
    }
    assert forall|j: usize, l: Link| #[trigger]
        link_pair_at(v2.slots, j, l) == (link_pair_at(v.slots, j, l) || (j == t && o
            == ObjectView::Link(l))) by {
        if j != t && link_pair_at(v2.slots, j, l) {
            assert(slot_live(v.slots, j));
        }
    }
    assert forall|j: usize, x: usize| #[trigger]
        links_to(v2.slots, j, x) == (links_to(v.slots, j, x) || (j == t && (
        o matches ObjectView::Link(l)
            && l.to == x))) by {
        if j != t && links_to(v2.slots, j, x) {
            assert(slot_live(v.slots, j));
        }
    }
    assert forall|j: usize, x: usize| #[trigger]
        links_from(v2.slots, j, x) == (links_from(v.slots, j, x) || (j == t && (
        o matches ObjectView::Link(l)
            && l.from == x))) by {
        if j != t && links_from(v2.slots, j, x) {
            assert(slot_live(v.slots, j));
        }
    }
    assert forall|j: usize, l: Link| #[trigger]
        link_pair_at(v2.slots, j, l) implies slot_live(v2.slots, l.from) && slot_live(
        v2.slots,
        l.to,
    ) by {
        if j == t && o == ObjectView::Link(l) {
            assert(slot_live(v.slots, l.from));
            assert(slot_live(v.slots, l.to));
        } else {
            assert(link_pair_at(v.slots, j, l));
        }
    }
    assert forall|j: usize, k: usize, a: AtomView|
        #[trigger] atom_at(v2.slots, j, a) && #[trigger] atom_at(v2.slots, k, a) implies j
        == k by {
        if j == t && k != t {
            assert(atom_at(v.slots, k, a));
            assert(has_atom(v.slots, a));
        }
        if k == t && j != t {
            assert(atom_at(v.slots, j, a));
            assert(has_atom(v.slots, a));
        }
    }
    assert forall|j: usize, k: usize, l: Link|
        #[trigger] link_pair_at(v2.slots, j, l) && #[trigger] link_pair_at(v2.slots, k, l) implies j
        == k by {
        if j == t && k != t {
            assert(link_pair_at(v.slots, k, l));
            assert(has_link(v.slots, l));
        }
        if k == t && j != t {
            assert(link_pair_at(v.slots, j, l));
            assert(has_link(v.slots, l));
        }
    }
}

/// Two slot sequences that agree on length, liveness and objects (though
/// not necessarily on descriptions) carry the same links and atoms.
proof fn lemma_same_objects(s1: Seq<Option<SlotView>>, s2: Seq<Option<SlotView>>)
    requires
        s1.len() == s2.len(),
        forall|i: usize| #[trigger] slot_live(s1, i) == slot_live(s2, i),
        forall|i: usize| slot_live(s1, i) ==> #[trigger] object_at(s1, i) == object_at(s2, i),
    ensures
        forall|j: usize, x: usize| #[trigger] links_to(s1, j, x) == links_to(s2, j, x),
        forall|j: usize, x: usize| #[trigger] links_from(s1, j, x) == links_from(s2, j, x),
        forall|j: usize, a: AtomView| #[trigger] atom_at(s1, j, a) == atom_at(s2, j, a),
        forall|j: usize, l: Link| #[trigger] link_pair_at(s1, j, l) == link_pair_at(s2, j, l),
        store_consistent(s1) == store_consistent(s2),
{
    assert forall|j: usize, x: usize| #[trigger] links_to(s1, j, x) == links_to(s2, j, x) by {
        if slot_live(s1, j) {
            assert(object_at(s1, j) == object_at(s2, j));
        }
    }
    assert forall|j: usize, x: usize| #[trigger] links_from(s1, j, x) == links_from(s2, j, x) by {
        if slot_live(s1, j) {
            assert(object_at(s1, j) == object_at(s2, j));
        }
    }
    assert forall|j: usize, a: AtomView| #[trigger] atom_at(s1, j, a) == atom_at(s2, j, a) by {
        if slot_live(s1, j) {
            assert(object_at(s1, j) == object_at(s2, j));
        }
    }
    assert forall|j: usize, l: Link| #[trigger] link_pair_at(s1, j, l) == link_pair_at(
        s2,
        j,
        l,
    ) by {
        if slot_live(s1, j) {
            assert(object_at(s1, j) == object_at(s2, j));
        }
    }
    if store_consistent(s1) {
        assert forall|j: usize, l: Link| #[trigger]
            link_pair_at(s2, j, l) implies slot_live(s2, l.from) && slot_live(s2, l.to) by {
            assert(link_pair_at(s1, j, l));
        }
        assert forall|j: usize, k: usize, a: AtomView|
            #[trigger] atom_at(s2, j, a) && #[trigger] atom_at(s2, k, a) implies j == k by {
            assert(atom_at(s1, j, a));
            assert(atom_at(s1, k, a));
        }
        assert forall|j: usize, k: usize, l: Link|
            #[trigger] link_pair_at(s2, j, l) && #[trigger] link_pair_at(s2, k, l) implies j
            == k by {
            assert(link_pair_at(s1, j, l));
            assert(link_pair_at(s1, k, l));
        }
        assert(store_consistent(s2));
    }
    if store_consistent(s2) {
        assert forall|j: usize, l: Link| #[trigger]
            link_pair_at(s1, j, l) implies slot_live(s1, l.from) && slot_live(s1, l.to) by {
            assert(link_pair_at(s2, j, l));
        }
        assert forall|j: usize, k: usize, a: AtomView|
            #[trigger] atom_at(s1, j, a) && #[trigger] atom_at(s1, k, a) implies j == k by {
            assert(atom_at(s2, j, a));
            assert(atom_at(s2, k, a));
        }
        assert forall|j: usize, k: usize, l: Link|
            #[trigger] link_pair_at(s1, j, l) && #[trigger] link_pair_at(s1, k, l) implies j
            == k by {
            assert(link_pair_at(s2, j, l));
            assert(link_pair_at(s2, k, l));
        }
        assert(store_consistent(s1));
    }
}

/// A well-formed graph's view satisfies the open invariants the laws
/// assume: live link endpoints and unique values, an exact free-list
/// account of the empty slots, and a slot count that fits a `usize`.
pub proof fn lemma_wf_consistent(g: &Graph)
    requires
        g.wf(),
    ensures
        store_consistent(g@.slots),
        free_matches(g@),
        g@.slots.len() <= usize::MAX,
{
    lemma_graph_free_matches(g);
}

/// The free list of a well-formed graph names exactly the empty slots.
proof fn lemma_graph_free_matches(g: &Graph)
    requires
        g.objects.wf(),
    ensures
        free_matches(g@),
        g@.slots.len() <= usize::MAX,
{
    lemma_wf_free_matches(&g.objects);
    lemma_len_bound(&g.objects);
}

} // verus!

verus! {

impl Graph {
    /// Allocate a slot for an atom or an abstract object. No back-link set
    /// changes: nothing can point at a freshly allocated slot.
    fn insert_plain(&mut self, object: Object) -> (r: Index)
        requires
            old(self).wf(),
            !(object@ is Link),
            (object@ matches ObjectView::Atom(a) ==> !has_atom(old(self)@.slots, a)),
        ensures
            final(self).wf(),
            r == alloc_target(old(self)@),
            final(self)@ == slot_alloc(old(self)@, fresh_slot(object@)),
    {
        let ghost pre = self@;
        let ghost preraw = self.objects@.slots;
        let ghost o = object@;
        proof {
            lemma_graph_free_matches(self);
            lemma_alloc(pre, o);
        }
        let od = ObjectData {
            object,
            description: String::new(),
            in_links: IndexSet::new(),
            out_links: IndexSet::new(),
        };
        let r = self.objects.insert(od);
        proof {
            let t = alloc_target(pre);
            let v2 = slot_alloc(pre, fresh_slot(o));
            assert(self@.slots =~= v2.slots);
            assert(self@ =~= v2);
            assert forall|i: usize| #[trigger]
                slot_live(self@.slots, i) implies backlinks_ok(self.objects@.slots, i) by {
                if i == t {
                    let nod = self.objects@.slots[t as int]->Some_0;
                    assert(nod.in_links@ == Seq::<usize>::empty());
                    assert forall|j: usize| #[trigger]
                        links_to(self@.slots, j, i) implies nod.in_links@.contains(j) by {
                        assert(links_to(v2.slots, j, t));
                        assert(!link_touches(pre.slots, j, t));
                    }
                    assert forall|j: usize| #[trigger]
                        links_from(self@.slots, j, i) implies nod.out_links@.contains(j) by {
                        assert(links_from(v2.slots, j, t));
                        assert(!link_touches(pre.slots, j, t));
                    }
                    assert(backlinks_ok(self.objects@.slots, i));
                } else {
                    assert(slot_live(pre.slots, i));
                    assert(backlinks_ok(preraw, i));
                    assert(self.objects@.slots[i as int] == preraw[i as int]);
                    let od_i = preraw[i as int]->Some_0;
                    assert forall|j: usize| #[trigger]
                        od_i.in_links@.contains(j) implies links_to(v2.slots, j, i) by {
                        assert(links_to(pre.slots, j, i));
                    }
                    assert forall|j: usize| #[trigger]
                        links_to(v2.slots, j, i) implies od_i.in_links@.contains(j) by {
                        assert(!link_touches(pre.slots, j, t));
                        assert(links_to(pre.slots, j, i));
                    }
                    assert forall|j: usize| #[trigger]
                        od_i.out_links@.contains(j) implies links_from(v2.slots, j, i) by {
                        assert(links_from(pre.slots, j, i));
                    }
                    assert forall|j: usize| #[trigger]
                        links_from(v2.slots, j, i) implies od_i.out_links@.contains(j) by {
                        assert(!link_touches(pre.slots, j, t));
                        assert(links_from(pre.slots, j, i));
                    }
                    assert(backlinks_ok(self.objects@.slots, i));
                }
            }
        }
        r
    }

    /// Get the index of an atom, inserting it if not found. Idempotent:
    /// a second call with an equal value returns the same index and leaves
    /// the store unchanged.
    pub fn use_atom(&mut self, atom: Atom) -> (r: Index)
        requires
            old(self).wf(),
        ensures
            final(self).wf(),
            store_consistent(final(self)@.slots),
            free_matches(final(self)@),
            r == use_atom_index(old(self)@, atom@),
            final(self)@ == use_atom_next(old(self)@, atom@),
            atom_at(final(self)@.slots, r, atom@),
    {
        let ghost a = atom@;
        let r = match self.get_atom_index(&atom) {
            Some(index) => index,
            None => self.insert_plain(Object::Atom(atom)),
        };
        proof {
            lemma_graph_free_matches(self);
            lemma_len_bound(&old(self).objects);
            lemma_wf_free_matches(&old(self).objects);
            if !has_atom(old(self)@.slots, a) {
                lemma_alloc(old(self)@, ObjectView::Atom(a));
            }
        }
        r
    }

    /// Create a new abstract object and return its index. Abstract objects
    /// are never deduplicated: every call allocates a fresh slot.
    pub fn create_abstract(&mut self) -> (r: Index)
        requires
            old(self).wf(),
        ensures
            final(self).wf(),
            store_consistent(final(self)@.slots),
            free_matches(final(self)@),
            r == alloc_target(old(self)@),
            final(self)@ == slot_alloc(old(self)@, fresh_slot(ObjectView::Abstract)),
            slot_live(final(self)@.slots, r),
            object_at(final(self)@.slots, r) == ObjectView::Abstract,
    {
        let r = self.insert_plain(Object::Abstract);
        proof {
            lemma_graph_free_matches(self);
            lemma_len_bound(&old(self).objects);
            lemma_wf_free_matches(&old(self).objects);
            lemma_alloc(old(self)@, ObjectView::Abstract);
        }
        r
    }
}

} // verus!

verus! {

impl Graph {
    /// Allocate a slot for a new link and record it in the back-link sets
    /// of both endpoints.
    fn insert_link_slot(&mut self, link: Link) -> (r: Index)
        requires
            old(self).wf(),
            !has_link(old(self)@.slots, link),
            slot_live(old(self)@.slots, link.from),
            slot_live(old(self)@.slots, link.to),
        ensures
            final(self).wf(),
            r == alloc_target(old(self)@),
            final(self)@ == slot_alloc(old(self)@, fresh_slot(ObjectView::Link(link))),
    {
        let ghost pre = self@;
        let ghost preraw = self.objects@.slots;
        let ghost o = ObjectView::Link(link);
        let ghost t = alloc_target(pre);
        let ghost v2 = slot_alloc(pre, fresh_slot(o));
        proof {
            lemma_graph_free_matches(self);
            lemma_alloc(pre, o);
        }
        let od = ObjectData {
            object: Object::Link(link),
            description: String::new(),
            in_links: IndexSet::new(),
            out_links: IndexSet::new(),
        };
        let new_index = self.objects.insert(od);
        let ghost raw1 = self.objects@.slots;
        proof {
            assert(link.from != t && link.to != t);
            assert(raw1[link.from as int] == preraw[link.from as int]);
            assert(raw1[link.to as int] == preraw[link.to as int]);
        }
        match self.objects.get_mut(link.from) {
            Some(od_f) => od_f.out_links.insert(new_index),
            None => unreached(),
        }
        let ghost raw2 = self.objects@.slots;
        match self.objects.get_mut(link.to) {
            Some(od_t) => od_t.in_links.insert(new_index),
            None => unreached(),
        }
        let ghost raw3 = self.objects@.slots;
        proof {
            // Only the back-link sets changed after allocation, so the
            // slot views are those of the allocation alone.
            assert forall|i: int| 0 <= i < raw3.len() implies views_of(raw3)[i] == views_of(
                raw1,
            )[i] by {}
            assert(self@.slots =~= v2.slots);
            assert(self@ =~= v2);
            assert forall|i: usize| #[trigger]
                slot_live(self@.slots, i) implies backlinks_ok(self.objects@.slots, i) by {
                let od_i = raw3[i as int]->Some_0;
                if i == t {
                    assert(raw3[t as int] == raw1[t as int]);
                    assert(od_i.in_links@ == Seq::<usize>::empty());
                    assert(od_i.out_links@ == Seq::<usize>::empty());
                    assert forall|j: usize| #[trigger]
                        links_to(self@.slots, j, i) implies od_i.in_links@.contains(j) by {
                        assert(links_to(v2.slots, j, t));
                        assert(link.to != t);
                        assert(!link_touches(pre.slots, j, t));
                    }
                    assert forall|j: usize| #[trigger]
                        links_from(self@.slots, j, i) implies od_i.out_links@.contains(j) by {
                        assert(links_from(v2.slots, j, t));
                        assert(link.from != t);
                        assert(!link_touches(pre.slots, j, t));
                    }
                    assert(backlinks_ok(raw3, i));
                } else {
                    assert(slot_live(pre.slots, i));
                    assert(backlinks_ok(preraw, i));
                    let od_0 = preraw[i as int]->Some_0;
                    // How this slot's sets relate to the old ones.
                    assert(raw1[i as int] == preraw[i as int]);
                    if i == link.from {
                        assert forall|j: usize|
                            #[trigger] od_i.out_links@.contains(j) == (od_0.out_links@.contains(j)
                                || j == new_index) by {}
                        if i == link.to {
                            assert forall|j: usize|
                                #[trigger] od_i.in_links@.contains(j) == (od_0.in_links@.contains(j)
                                    || j == new_index) by {}
                        } else {
                            assert forall|j: usize|
                                #[trigger] od_i.in_links@.contains(j) == od_0.in_links@.contains(
                                    j,
                                ) by {}
                        }
                    } else if i == link.to {
                        assert forall|j: usize|
                            #[trigger] od_i.in_links@.contains(j) == (od_0.in_links@.contains(j)
                                || j == new_index) by {}
                        assert forall|j: usize|
                            #[trigger] od_i.out_links@.contains(j) == od_0.out_links@.contains(
                                j,
                            ) by {}
                    } else {
                        assert(raw3[i as int] == preraw[i as int]);
                    }
                    assert forall|j: usize| #[trigger]
                        od_i.in_links@.contains(j) implies links_to(self@.slots, j, i) by {
                        if od_0.in_links@.contains(j) {
                            assert(links_to(pre.slots, j, i));
                            assert(links_to(v2.slots, j, i));
                        } else {
                            assert(j == new_index && i == link.to);
                            assert(links_to(v2.slots, j, i));
                        }
                    }
                    assert forall|j: usize| #[trigger]
                        links_to(self@.slots, j, i) implies od_i.in_links@.contains(j) by {
                        assert(links_to(v2.slots, j, i));
                        if j == t {
                            assert(link.to == i);
                        } else {
                            assert(links_to(pre.slots, j, i));
                            assert(od_0.in_links@.contains(j));
                        }
                    }
                    assert forall|j: usize| #[trigger]
                        od_i.out_links@.contains(j) implies links_from(self@.slots, j, i) by {
                        if od_0.out_links@.contains(j) {
                            assert(links_from(pre.slots, j, i));
                            assert(links_from(v2.slots, j, i));
                        } else {
                            assert(j == new_index && i == link.from);
                            assert(links_from(v2.slots, j, i));
                        }
                    }
                    assert forall|j: usize| #[trigger]
                        links_from(self@.slots, j, i) implies od_i.out_links@.contains(j) by {
                        assert(links_from(v2.slots, j, i));
                        if j == t {
                            assert(link.from == i);
                        } else {
                            assert(links_from(pre.slots, j, i));
                            assert(od_0.out_links@.contains(j));
                        }
                    }
                    assert(backlinks_ok(raw3, i));
                }
            }
        }
        new_index
    }

    /// Get the index of a link, inserting it if not found. Fails with
    /// `InvalidIndex`, leaving the store unchanged, unless both endpoints
    /// are live.
    pub fn use_link(&mut self, link: Link) -> (r: Result<Index, Error>)
        requires
            old(self).wf(),
        ensures
            final(self).wf(),
            store_consistent(final(self)@.slots),
            free_matches(final(self)@),
            use_link_allowed(old(self)@, link) ==> r == Ok::<Index, Error>(
                use_link_index(old(self)@, link),
            ) && final(self)@ == use_link_next(old(self)@, link) && link_pair_at(
                final(self)@.slots,
                use_link_index(old(self)@, link),
                link,
            ),
            !use_link_allowed(old(self)@, link) ==> r == Err::<Index, Error>(Error::InvalidIndex)
                && final(self)@ == old(self)@,
    {
        let r = if self.valid(link.from) && self.valid(link.to) {
            match self.get_link_index(&link) {
                Some(index) => Ok(index),
                None => Ok(self.insert_link_slot(link)),
            }
        } else {
            Err(Error::InvalidIndex)
        };
        proof {
            lemma_graph_free_matches(self);
            lemma_len_bound(&old(self).objects);
            lemma_wf_free_matches(&old(self).objects);
            if use_link_allowed(old(self)@, link) && !has_link(old(self)@.slots, link) {
                lemma_alloc(old(self)@, ObjectView::Link(link));
            }
        }
        r
    }
}

} // verus!

verus! {

impl Graph {
    /// Replace the description of a live object. The description is plain
    /// annotation: topology, deduplication and back-links are unaffected.
    pub fn set_description(&mut self, index: Index, text: String) -> (r: Result<(), Error>)
        requires
            old(self).wf(),
        ensures
            final(self).wf(),
            store_consistent(final(self)@.slots),
            free_matches(final(self)@),
            match set_description_result(old(self)@, index, text@) {
                Ok(v2) => r == Ok::<(), Error>(()) && final(self)@ == v2,
                Err(e) => r == Err::<(), Error>(e) && final(self)@ == old(self)@,
            },
    {
        let ghost pre = self@;
        let ghost preraw = self.objects@.slots;
        if self.valid(index) {
            let ghost text_view = text@;
            match self.objects.get_mut(index) {
                Some(od) => {
                    od.description = text;
                },
                None => unreached(),
            }
            proof {
                let v2 = set_description_result(pre, index, text_view)->Ok_0;
                assert(self@.slots =~= v2.slots);
                assert(self@ =~= v2);
                assert forall|i: usize| #[trigger]
                    slot_live(pre.slots, i) == slot_live(self@.slots, i) by {}
                assert forall|i: usize|
                    slot_live(pre.slots, i) implies #[trigger] object_at(pre.slots, i) == object_at(
                    self@.slots,
                    i,
                ) by {}
                lemma_same_objects(pre.slots, self@.slots);
                assert forall|i: usize| #[trigger]
                    slot_live(self@.slots, i) implies backlinks_ok(self.objects@.slots, i) by {
                    assert(slot_live(pre.slots, i));
                    assert(backlinks_ok(preraw, i));
                    let od_0 = preraw[i as int]->Some_0;
                    let od_i = self.objects@.slots[i as int]->Some_0;
                    assert(od_i.in_links == od_0.in_links);
                    assert(od_i.out_links == od_0.out_links);
                    assert forall|j: usize| #[trigger]
                        od_i.in_links@.contains(j) implies links_to(self@.slots, j, i) by {
                        assert(links_to(pre.slots, j, i));
                    }
                    assert forall|j: usize| #[trigger]
                        links_to(self@.slots, j, i) implies od_i.in_links@.contains(j) by {
                        assert(links_to(pre.slots, j, i));
                    }
                    assert forall|j: usize| #[trigger]
                        od_i.out_links@.contains(j) implies links_from(self@.slots, j, i) by {
                        assert(links_from(pre.slots, j, i));
                    }
                    assert forall|j: usize| #[trigger]
                        links_from(self@.slots, j, i) implies od_i.out_links@.contains(j) by {
                        assert(links_from(pre.slots, j, i));
                    }
                    assert(backlinks_ok(self.objects@.slots, i));
                }
                lemma_graph_free_matches(self);
            }
            Ok(())
        } else {
            proof {
                lemma_graph_free_matches(self);
            }
            Err(Error::InvalidIndex)
        }
    }

    /// Remove a live object and free its slot. Fails with `InvalidIndex`
    /// when the index is dead, and with `CannotRemoveLinked`, leaving the
    /// store unchanged, while any live link still points at or from the
    /// object: deletion is strictly bottom-up.
    pub fn remove_object(&mut self, index: Index) -> (r: Result<(), Error>)
        requires
            old(self).wf(),
        ensures
            final(self).wf(),
            store_consistent(final(self)@.slots),
            free_matches(final(self)@),
            match remove_result(old(self)@, index) {
                Ok(v2) => r == Ok::<(), Error>(()) && final(self)@ == v2,
                Err(e) => r == Err::<(), Error>(e) && final(self)@ == old(self)@,
            },
    {
        let ghost pre = self@;
        let ghost preraw = self.objects@.slots;
        proof {
            lemma_len_bound(&old(self).objects);
        }
        if !self.valid(index) {
            proof {
                lemma_graph_free_matches(self);
            }
            return Err(Error::InvalidIndex);
        }
        let blocked = match self.objects.get(index) {
            Some(od) => !(od.in_links.is_empty() && od.out_links.is_empty()),
            None => unreached(),
        };
        if blocked {
            proof {
                let od = preraw[index as int]->Some_0;
                if od.in_links@.len() > 0 {
                    let j = od.in_links@[0];
                    assert(od.in_links@.contains(j));
                    assert(links_to(pre.slots, j, index));
                    assert(link_touches(pre.slots, j, index));
                } else {
                    let j = od.out_links@[0];
                    assert(od.out_links@.contains(j));
                    assert(links_from(pre.slots, j, index));
                    assert(link_touches(pre.slots, j, index));
                }
                lemma_graph_free_matches(self);
            }
            return Err(Error::CannotRemoveLinked);
        }
        proof {
            assert forall|j: usize| !(#[trigger] link_touches(pre.slots, j, index)) by {
                let od = preraw[index as int]->Some_0;
                if links_to(pre.slots, j, index) {
                    assert(od.in_links@.contains(j));
                }
                if links_from(pre.slots, j, index) {
                    assert(od.out_links@.contains(j));
                }
            }
        }
        let removed = match self.objects.remove(index) {
            Some(od) => od,
            None => unreached(),
        };
        let ghost v2 = slot_release(pre, index);
        match &removed.object {
            Object::Link(l_ref) => {
                let l = *l_ref;
                proof {
                    assert(link_pair_at(pre.slots, index, l));
                    assert(slot_live(pre.slots, l.from) && slot_live(pre.slots, l.to));
                    if l.from == index {
                        assert(link_touches(pre.slots, index, index));
                    }
                    if l.to == index {
                        assert(link_touches(pre.slots, index, index));
                    }
                }
                let ghost raw1 = self.objects@.slots;
                match self.objects.get_mut(l.from) {
                    Some(od_f) => od_f.out_links.remove(index),
                    None => unreached(),
                }
                match self.objects.get_mut(l.to) {
                    Some(od_t) => od_t.in_links.remove(index),
                    None => unreached(),
                }
                let ghost raw3 = self.objects@.slots;
                proof {
                    assert forall|i: int| 0 <= i < raw3.len() implies views_of(raw3)[i]
                        == views_of(raw1)[i] by {}
                    assert(self@.slots =~= v2.slots);
                    assert(self@ =~= v2);
                    assert forall|i: int|
                        0 <= i < preraw.len() && i != index && preraw[i] is Some implies {
                            let od_0 = preraw[i]->Some_0;
                            let od_i = (#[trigger] self.objects@.slots[i])->Some_0;
                            &&& od_i.object == od_0.object
                            &&& od_i.in_links.wf()
                            &&& od_i.out_links.wf()
                            &&& forall|j: usize|
                                #[trigger] od_i.in_links@.contains(j) == (od_0.in_links@.contains(j)
                                    && j != index)
                            &&& forall|j: usize|
                                #[trigger] od_i.out_links@.contains(j) == (
                                od_0.out_links@.contains(j) && j != index)
                        } by {
                        let od_0 = preraw[i]->Some_0;
                        let od_i = (self.objects@.slots[i])->Some_0;
                        assert(slot_live(pre.slots, i as usize));
                        assert(backlinks_ok(preraw, i as usize));
                        assert forall|j: usize| #[trigger]
                            od_i.in_links@.contains(j) == (od_0.in_links@.contains(j) && j
                                != index) by {
                            if i != l.to as int {
                                assert(od_i.in_links == od_0.in_links);
                                if od_0.in_links@.contains(index) {
                                    assert(links_to(pre.slots, index, i as usize));
                                }
                            }
                        }
                        assert forall|j: usize| #[trigger]
                            od_i.out_links@.contains(j) == (od_0.out_links@.contains(j) && j
                                != index) by {
                            if i != l.from as int {
                                assert(od_i.out_links == od_0.out_links);
                                if od_0.out_links@.contains(index) {
                                    assert(links_from(pre.slots, index, i as usize));
                                }
                            }
                        }
                    }
                    self.lemma_remove_restores(pre, preraw, index);
                }
            },
            _ => {
                proof {
                    assert(self@.slots =~= v2.slots);
                    assert(self@ =~= v2);
                    assert(!(object_at(pre.slots, index) is Link));
                    assert forall|i: int|
                        0 <= i < preraw.len() && i != index && preraw[i] is Some implies {
                            let od_0 = preraw[i]->Some_0;
                            let od_i = (#[trigger] self.objects@.slots[i])->Some_0;
                            &&& od_i.object == od_0.object
                            &&& od_i.in_links.wf()
                            &&& od_i.out_links.wf()
                            &&& forall|j: usize|
                                #[trigger] od_i.in_links@.contains(j) == (od_0.in_links@.contains(j)
                                    && j != index)
                            &&& forall|j: usize|
                                #[trigger] od_i.out_links@.contains(j) == (
                                od_0.out_links@.contains(j) && j != index)
                        } by {
                        let od_0 = preraw[i]->Some_0;
                        let od_i = (self.objects@.slots[i])->Some_0;
                        assert(od_i == od_0);
                        assert(slot_live(pre.slots, i as usize));
                        assert(backlinks_ok(preraw, i as usize));
                        assert forall|j: usize| #[trigger]
                            od_i.in_links@.contains(j) == (od_0.in_links@.contains(j) && j
                                != index) by {
                            if od_0.in_links@.contains(index) {
                                assert(links_to(pre.slots, index, i as usize));
                            }
                        }
                        assert forall|j: usize| #[trigger]
                            od_i.out_links@.contains(j) == (od_0.out_links@.contains(j) && j
                                != index) by {
                            if od_0.out_links@.contains(index) {
                                assert(links_from(pre.slots, index, i as usize));
                            }
                        }
                    }
                    self.lemma_remove_restores(pre, preraw, index);
                }
            },
        }
        Ok(())
    }

    /// After the slot at `index` was emptied (and, for a link, its index
    /// pulled out of both endpoints' sets), the store is well formed again.
    proof fn lemma_remove_restores(&self, pre: StoreView, preraw: Seq<Option<ObjectData>>, index: usize)
        requires
            self.objects.wf(),
            store_consistent(pre.slots),
            pre.slots == views_of(preraw),
            forall|i: usize| #[trigger] slot_live(pre.slots, i) ==> backlinks_ok(preraw, i),
            slot_live(pre.slots, index),
            forall|j: usize| !(#[trigger] link_touches(pre.slots, j, index)),
            self@.slots == pre.slots.update(index as int, None),
            // every slot still carries its old object; sets may differ:
            forall|i: int|
                0 <= i < preraw.len() && i != index && preraw[i] is Some ==> (#[trigger] self.objects@.slots[i]) is Some,
            forall|i: int|
                0 <= i < preraw.len() && i != index && preraw[i] is Some ==> {
                    let od_0 = preraw[i]->Some_0;
                    let od_i = (#[trigger] self.objects@.slots[i])->Some_0;
                    &&& od_i.object == od_0.object
                    &&& od_i.in_links.wf()
                    &&& od_i.out_links.wf()
                    &&& forall|j: usize|
                        #[trigger] od_i.in_links@.contains(j) == (od_0.in_links@.contains(j) && j
                            != index)
                    &&& forall|j: usize|
                        #[trigger] od_i.out_links@.contains(j) == (od_0.out_links@.contains(j) && j
                            != index)
                },
        ensures
            self.wf(),
            store_consistent(self@.slots),
            free_matches(self@),
    {
        let s2 = self@.slots;
        assert forall|j: usize, x: usize| #[trigger]
            links_to(s2, j, x) == (links_to(pre.slots, j, x) && j != index) by {
            if j != index && links_to(pre.slots, j, x) {
                assert(slot_live(s2, j));
                assert(object_at(s2, j) == object_at(pre.slots, j));
            }
            if links_to(s2, j, x) {
                assert(j != index);
                assert(object_at(s2, j) == object_at(pre.slots, j));
            }
        }
        assert forall|j: usize, x: usize| #[trigger]
            links_from(s2, j, x) == (links_from(pre.slots, j, x) && j != index) by {
            if j != index && links_from(pre.slots, j, x) {
                assert(slot_live(s2, j));
                assert(object_at(s2, j) == object_at(pre.slots, j));
            }
            if links_from(s2, j, x) {
                assert(j != index);
                assert(object_at(s2, j) == object_at(pre.slots, j));
            }
        }
        assert forall|j: usize, a: AtomView| #[trigger]
            atom_at(s2, j, a) ==> atom_at(pre.slots, j, a) by {
            if atom_at(s2, j, a) {
                assert(object_at(s2, j) == object_at(pre.slots, j));
            }
        }
        assert forall|j: usize, l: Link| #[trigger]
            link_pair_at(s2, j, l) ==> link_pair_at(pre.slots, j, l) && j != index by {
            if link_pair_at(s2, j, l) {
                assert(object_at(s2, j) == object_at(pre.slots, j));
            }
        }
        // consistency
        assert forall|j: usize, l: Link| #[trigger]
            link_pair_at(s2, j, l) implies slot_live(s2, l.from) && slot_live(s2, l.to) by {
            assert(link_pair_at(pre.slots, j, l));
            if l.from == index {
                assert(links_from(pre.slots, j, index));
                assert(link_touches(pre.slots, j, index));
            }
            if l.to == index {
                assert(links_to(pre.slots, j, index));
                assert(link_touches(pre.slots, j, index));
            }
            assert(slot_live(pre.slots, l.from) && slot_live(pre.slots, l.to));
        }
        assert forall|j: usize, k: usize, a: AtomView|
            #[trigger] atom_at(s2, j, a) && #[trigger] atom_at(s2, k, a) implies j == k by {
            assert(atom_at(pre.slots, j, a));
            assert(atom_at(pre.slots, k, a));
        }
        assert forall|j: usize, k: usize, l: Link|
            #[trigger] link_pair_at(s2, j, l) && #[trigger] link_pair_at(s2, k, l) implies j
            == k by {
            assert(link_pair_at(pre.slots, j, l));
            assert(link_pair_at(pre.slots, k, l));
        }
        // back-links
        assert forall|i: usize| #[trigger]
            slot_live(s2, i) implies backlinks_ok(self.objects@.slots, i) by {
            assert(slot_live(pre.slots, i));
            assert(backlinks_ok(preraw, i));
            let od_0 = preraw[i as int]->Some_0;
            let od_i = self.objects@.slots[i as int]->Some_0;
            assert forall|j: usize| #[trigger]
                od_i.in_links@.contains(j) implies links_to(s2, j, i) by {
                assert(od_0.in_links@.contains(j) && j != index);
                assert(links_to(pre.slots, j, i));
            }
            assert forall|j: usize| #[trigger]
                links_to(s2, j, i) implies od_i.in_links@.contains(j) by {
                assert(links_to(pre.slots, j, i) && j != index);
                assert(od_0.in_links@.contains(j));
            }
            assert forall|j: usize| #[trigger]
                od_i.out_links@.contains(j) implies links_from(s2, j, i) by {
                assert(od_0.out_links@.contains(j) && j != index);
                assert(links_from(pre.slots, j, i));
            }
            assert forall|j: usize| #[trigger]
                links_from(s2, j, i) implies od_i.out_links@.contains(j) by {
                assert(links_from(pre.slots, j, i) && j != index);
                assert(od_0.out_links@.contains(j));
            }
            assert(backlinks_ok(self.objects@.slots, i));
        }
        lemma_wf_free_matches(&self.objects);
    }
}

} // verus!
