//! The store's laws: deduplication is idempotent, links are unique and
//! directed, the removal guard keeps deletion bottom-up, freed slots are
//! reused first, and a consistent store serializes without defect.
use vstd::prelude::*;

use crate::codec::{first_defect, lemma_consistent_no_defect};
use crate::graph::{
    atom_at, fresh_slot, has_atom, has_link, lemma_alloc, link_pair_at,
    link_touches, links_from, links_to, object_at, remove_result, slot_live, store_consistent,
    use_atom_index, use_atom_next, use_link_allowed, use_link_index, use_link_next, SlotView,
    StoreView,
};
use crate::slot_vec::{
    alloc_target, free_matches, lemma_live_count_push, lemma_live_count_update, live_count,
    slot_alloc, slot_release,
};
use crate::types::{AtomView, Error, Link, ObjectView};

verus! {

/// Idempotent dedup: using the same atom value twice returns the same
/// index both times, the second call leaves the store unchanged, and the
/// live object count grows by one exactly when the value was new.
pub proof fn lemma_use_atom_idempotent(v: StoreView, a: AtomView)
    requires
        free_matches(v),
        store_consistent(v.slots),
        v.slots.len() <= usize::MAX,
    ensures
        ({
            let v1 = use_atom_next(v, a);
            let i1 = use_atom_index(v, a);
            &&& use_atom_index(v1, a) == i1
            &&& use_atom_next(v1, a) == v1
            &&& live_count(v1.slots) == live_count(v.slots) + (if has_atom(v.slots, a) {
                0int
            } else {
                1int
            })
        }),
{
    let v1 = use_atom_next(v, a);
    let i1 = use_atom_index(v, a);
    if has_atom(v.slots, a) {
        let j = choose|j: usize| atom_at(v.slots, j, a);
        assert(atom_at(v.slots, j, a));
    } else {
        lemma_alloc(v, ObjectView::Atom(a));
        let t = alloc_target(v);
        assert(atom_at(v1.slots, t, a));
        let j2 = use_atom_index(v1, a);
        assert(atom_at(v1.slots, j2, a));
        assert(j2 == t);
        if v.free.len() > 0 {
            lemma_live_count_update(v.slots, v.free[0] as int, Some(fresh_slot(ObjectView::Atom(a))));
        } else {
            lemma_live_count_push(v.slots, fresh_slot(ObjectView::Atom(a)));
        }
    }
}

/// Link uniqueness and direction: using the same ordered pair twice
/// returns the same index and leaves the store unchanged, while the
/// reversed pair of two distinct endpoints gets a different index.
pub proof fn lemma_use_link_unique(v: StoreView, x: usize, y: usize)
    requires
        free_matches(v),
        store_consistent(v.slots),
        v.slots.len() < usize::MAX,
        slot_live(v.slots, x),
        slot_live(v.slots, y),
        x != y,
    ensures
        ({
            let l = Link { from: x, to: y };
            let rl = Link { from: y, to: x };
            let v1 = use_link_next(v, l);
            let i1 = use_link_index(v, l);
            &&& use_link_allowed(v, l)
            &&& use_link_allowed(v1, rl)
            &&& use_link_index(v1, l) == i1
            &&& use_link_next(v1, l) == v1
            &&& use_link_index(v1, rl) != i1
        }),
{
    let l = Link { from: x, to: y };
    let rl = Link { from: y, to: x };
    let v1 = use_link_next(v, l);
    let i1 = use_link_index(v, l);
    if has_link(v.slots, l) {
        let j = choose|j: usize| link_pair_at(v.slots, j, l);
        assert(link_pair_at(v.slots, j, l));
        assert(link_pair_at(v1.slots, i1, l));
        if has_link(v1.slots, rl) {
            let k = choose|k: usize| link_pair_at(v1.slots, k, rl);
            assert(link_pair_at(v1.slots, k, rl));
            assert(object_at(v1.slots, i1) == ObjectView::Link(l));
            assert(object_at(v1.slots, k) == ObjectView::Link(rl));
        } else {
            assert(!slot_live(v1.slots, alloc_target(v1)));
        }
    } else {
        lemma_alloc(v, ObjectView::Link(l));
        let t = alloc_target(v);
        assert(link_pair_at(v1.slots, t, l));
        let j2 = use_link_index(v1, l);
        assert(link_pair_at(v1.slots, j2, l));
        assert(j2 == t);
        if has_link(v1.slots, rl) {
            let k = choose|k: usize| link_pair_at(v1.slots, k, rl);
            assert(link_pair_at(v1.slots, k, rl));
            assert(object_at(v1.slots, t) == ObjectView::Link(l));
            assert(object_at(v1.slots, k) == ObjectView::Link(rl));
        } else {
            assert(!slot_live(v1.slots, alloc_target(v1)));
        }
    }
}

/// Removal guard: after linking a fresh atom to a fresh abstract object,
/// neither endpoint can be removed while the link lives; once the link is
/// removed, both endpoints can be.
pub proof fn lemma_removal_guard(v: StoreView, a: AtomView)
    requires
        free_matches(v),
        store_consistent(v.slots),
        v.slots.len() + 3 <= usize::MAX,
        !has_atom(v.slots, a),
    ensures
        ({
            let v1 = use_atom_next(v, a);
            let ia = use_atom_index(v, a);
            let ib = alloc_target(v1);
            let v2 = slot_alloc(v1, fresh_slot(ObjectView::Abstract));
            let l = Link { from: ia, to: ib };
            let v3 = use_link_next(v2, l);
            let il = use_link_index(v2, l);
            &&& use_link_allowed(v2, l)
            &&& remove_result(v3, ia) == Err::<StoreView, Error>(Error::CannotRemoveLinked)
            &&& remove_result(v3, ib) == Err::<StoreView, Error>(Error::CannotRemoveLinked)
            &&& remove_result(v3, il) is Ok
            &&& remove_result(remove_result(v3, il)->Ok_0, ia) is Ok
            &&& remove_result(remove_result(v3, il)->Ok_0, ib) is Ok
        }),
{
    let v1 = use_atom_next(v, a);
    let ia = use_atom_index(v, a);
    let ib = alloc_target(v1);
    let v2 = slot_alloc(v1, fresh_slot(ObjectView::Abstract));
    let l = Link { from: ia, to: ib };
    let v3 = use_link_next(v2, l);
    let il = use_link_index(v2, l);
    lemma_alloc(v, ObjectView::Atom(a));
    lemma_alloc(v1, ObjectView::Abstract);
    // the link is new: nothing in `v2` can point at `ib`, which was dead
    assert(!has_link(v2.slots, l)) by {
        if has_link(v2.slots, l) {
            let j = choose|j: usize| link_pair_at(v2.slots, j, l);
            assert(link_pair_at(v2.slots, j, l));
            assert(j != ib && j != ia);
            assert(link_pair_at(v1.slots, j, l));
            assert(link_touches(v1.slots, j, ib));
        }
    }
    lemma_alloc(v2, ObjectView::Link(l));
    assert(il == alloc_target(v2));
    assert(link_pair_at(v3.slots, il, l));
    // while the link lives, both endpoints are referenced
    assert(links_from(v3.slots, il, ia));
    assert(link_touches(v3.slots, il, ia));
    assert(links_to(v3.slots, il, ib));
    assert(link_touches(v3.slots, il, ib));
    // the link itself is referenced by nothing
    assert forall|j: usize| !(#[trigger] link_touches(v3.slots, j, il)) by {
        if link_touches(v3.slots, j, il) {
            if j == il {
                assert(ia != il && ib != il);
            } else {
                assert(link_touches(v2.slots, j, il));
            }
        }
    }
    let v4 = remove_result(v3, il)->Ok_0;
    // with the link gone, nothing references either endpoint
    assert forall|j: usize| !(#[trigger] link_touches(v4.slots, j, ia)) by {
        if link_touches(v4.slots, j, ia) {
            assert(slot_live(v4.slots, j));
            assert(j != il);
            assert(object_at(v4.slots, j) == object_at(v3.slots, j));
            assert(link_touches(v3.slots, j, ia));
            assert(link_touches(v2.slots, j, ia));
            assert(link_touches(v1.slots, j, ia));
            assert(link_touches(v.slots, j, ia));
        }
    }
    assert forall|j: usize| !(#[trigger] link_touches(v4.slots, j, ib)) by {
        if link_touches(v4.slots, j, ib) {
            assert(slot_live(v4.slots, j));
            assert(j != il);
            assert(object_at(v4.slots, j) == object_at(v3.slots, j));
            assert(link_touches(v3.slots, j, ib));
            assert(link_touches(v2.slots, j, ib));
            assert(link_touches(v1.slots, j, ib));
        }
    }
    assert(slot_live(v4.slots, ia) && slot_live(v4.slots, ib));
}

/// Slot reuse: a freed slot is the very next one allocated.
pub proof fn lemma_slot_reuse(v: StoreView, i: usize)
    requires
        remove_result(v, i) is Ok,
    ensures
        alloc_target(remove_result(v, i)->Ok_0) == i,
{
}

/// Round trip: a consistent store's record sequence has no defect, so
/// decoding it succeeds and reproduces the same slots (`decode`'s own
/// contract), from which every back-link set and value index is rebuilt.
pub proof fn lemma_round_trip(slots: Seq<Option<SlotView>>)
    requires
        store_consistent(slots),
    ensures
        first_defect(slots) is None,
{
    lemma_consistent_no_defect(slots);
}

} // verus!
