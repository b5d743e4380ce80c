//! A sparse vector where values keep their index for life. Removed slots
//! become holes; holes form a singly-linked free list threaded through the
//! slots themselves, and are reused most-recently-freed first.
use vstd::prelude::*;

verus! {

/// One storage cell: a value, or a hole carrying the index of the next hole.
enum Slot<T> {
    Used(T),
    Unused(Option<usize>),
}

/// Mathematical state of a `SlotVec`: the contents of every slot, and the
/// indices of the holes in the order the free list walks them (most recently
/// freed first).
#[verifier::ext_equal]
#[verifier::reject_recursive_types(T)]
pub struct SlotsView<T> {
    pub slots: Seq<Option<T>>,
    pub free: Seq<usize>,
}

/// Number of occupied slots.
pub open spec fn live_count<T>(slots: Seq<Option<T>>) -> nat
    decreases slots.len(),
{
    if slots.len() == 0 {
        0
    } else {
        live_count(slots.drop_last()) + if slots.last() is Some {
            1nat
        } else {
            0nat
        }
    }
}

/// The free list names each hole exactly once, and names nothing else.
pub open spec fn free_matches<T>(v: SlotsView<T>) -> bool {
    &&& v.free.no_duplicates()
    &&& forall|k: int|
        0 <= k < v.free.len() ==> (#[trigger] v.free[k]) < v.slots.len()
            && v.slots[v.free[k] as int] is None
    &&& forall|i: int|
        0 <= i < v.slots.len() && (#[trigger] v.slots[i]) is None ==> v.free.contains(i as usize)
}

/// Where the next insertion lands: the head of the free list if there is
/// one, otherwise a freshly appended slot.
pub open spec fn alloc_target<T>(v: SlotsView<T>) -> usize {
    if v.free.len() > 0 {
        v.free[0]
    } else {
        v.slots.len() as usize
    }
}

/// State after inserting `x`: the head hole is filled, or a slot is appended.
pub open spec fn slot_alloc<T>(v: SlotsView<T>, x: T) -> SlotsView<T> {
    if v.free.len() > 0 {
        SlotsView { slots: v.slots.update(v.free[0] as int, Some(x)), free: v.free.drop_first() }
    } else {
        SlotsView { slots: v.slots.push(Some(x)), free: v.free }
    }
}

/// State after removing the value at `i`: the slot becomes the newest hole.
pub open spec fn slot_release<T>(v: SlotsView<T>, i: usize) -> SlotsView<T> {
    SlotsView { slots: v.slots.update(i as int, None), free: seq![i] + v.free }
}

/// Updating one slot moves the occupancy count by the difference in
/// occupancy between the old and the new content.
pub proof fn lemma_live_count_update<T>(slots: Seq<Option<T>>, i: int, x: Option<T>)
    requires
        0 <= i < slots.len(),
    ensures
        live_count(slots.update(i, x)) + (if slots[i] is Some {
            1nat
        } else {
            0nat
        }) == live_count(slots) + (if x is Some {
            1nat
        } else {
            0nat
        }),
    decreases slots.len(),
{
    let u = slots.update(i, x);
    if i == slots.len() - 1 {
        assert(u.drop_last() =~= slots.drop_last());
    } else {
        assert(u.drop_last() =~= slots.drop_last().update(i, x));
        lemma_live_count_update(slots.drop_last(), i, x);
    }
}

/// Appending an occupied slot raises the count by one.
pub proof fn lemma_live_count_push<T>(slots: Seq<Option<T>>, x: T)
    ensures
        live_count(slots.push(Some(x))) == live_count(slots) + 1,
{
    assert(slots.push(Some(x)).drop_last() =~= slots);
}

/// There are never more occupied slots than slots.
proof fn lemma_live_count_le<T>(slots: Seq<Option<T>>)
    ensures
        live_count(slots) <= slots.len(),
    decreases slots.len(),
{
    if slots.len() > 0 {
        lemma_live_count_le(slots.drop_last());
    }
}

/// The slot contents as a sequence of options.
spec fn opts_of<T>(raw: Seq<Slot<T>>) -> Seq<Option<T>> {
    Seq::new(
        raw.len(),
        |i: int|
            match raw[i] {
                Slot::Used(v) => Some(v),
                Slot::Unused(_) => None,
            },
    )
}

/// Number of used cells in the raw slot sequence.
spec fn used_count<T>(raw: Seq<Slot<T>>) -> nat
    decreases raw.len(),
{
    if raw.len() == 0 {
        0
    } else {
        used_count(raw.drop_last()) + if raw.last() is Used {
            1nat
        } else {
            0nat
        }
    }
}

proof fn lemma_counts_agree<T>(raw: Seq<Slot<T>>)
    ensures
        live_count(opts_of(raw)) == used_count(raw),
    decreases raw.len(),
{
    if raw.len() > 0 {
        assert(opts_of(raw).drop_last() =~= opts_of(raw.drop_last()));
        lemma_counts_agree(raw.drop_last());
    }
}

proof fn lemma_used_count_update<T>(raw: Seq<Slot<T>>, i: int, x: Slot<T>)
    requires
        0 <= i < raw.len(),
    ensures
        used_count(raw.update(i, x)) + (if raw[i] is Used {
            1nat
        } else {
            0nat
        }) == used_count(raw) + (if x is Used {
            1nat
        } else {
            0nat
        }),
    decreases raw.len(),
{
    let u = raw.update(i, x);
    if i == raw.len() - 1 {
        assert(u.drop_last() =~= raw.drop_last());
    } else {
        assert(u.drop_last() =~= raw.drop_last().update(i, x));
        lemma_used_count_update(raw.drop_last(), i, x);
    }
}

proof fn lemma_used_count_push<T>(raw: Seq<Slot<T>>, x: Slot<T>)
    ensures
        used_count(raw.push(x)) == used_count(raw) + (if x is Used {
            1nat
        } else {
            0nat
        }),
{
    assert(raw.push(x).drop_last() =~= raw);
}

proof fn lemma_used_count_le<T>(raw: Seq<Slot<T>>)
    ensures
        used_count(raw) <= raw.len(),
    decreases raw.len(),
{
    if raw.len() > 0 {
        lemma_used_count_le(raw.drop_last());
    }
}

/// A `SlotVec` never has more slots than `usize` can count.
pub proof fn lemma_len_bound<T>(sv: &SlotVec<T>)
    ensures
        sv@.slots.len() <= usize::MAX,
{
    vstd::std_specs::vec::axiom_spec_len(&sv.slots);
}

/// A well-formed `SlotVec`'s free list names each hole exactly once.
pub proof fn lemma_wf_free_matches<T>(sv: &SlotVec<T>)
    requires
        sv.wf(),
    ensures
        free_matches(sv@),
{
    assert forall|k: int|
        0 <= k < sv@.free.len() implies (#[trigger] sv@.free[k]) < sv@.slots.len()
            && sv@.slots[sv@.free[k] as int] is None by {
        assert(sv.slots@[sv.free_order@[k] as int] matches Slot::Unused(_));
    }
}

/// A sparse vector of `T`.
pub struct SlotVec<T> {
    slots: Vec<Slot<T>>,
    next_unused_slot_id: Option<usize>,
    nb_objects: usize,
    free_order: Ghost<Seq<usize>>,
}

impl<T> View for SlotVec<T> {
    type V = SlotsView<T>;

    closed spec fn view(&self) -> SlotsView<T> {
        SlotsView { slots: opts_of(self.slots@), free: self.free_order@ }
    }
}

impl<T> SlotVec<T> {
    /// The ghost free order is exactly the chain the slots thread, it covers
    /// every hole, and the object count is the number of occupied slots.
    pub closed spec fn wf(&self) -> bool {
        let f = self.free_order@;
        let n = self.slots@.len() as int;
        &&& forall|k: int| 0 <= k < f.len() ==> (#[trigger] f[k]) < n
        &&& forall|k: int|
            0 <= k < f.len() ==> ((#[trigger] self.slots@[f[k] as int]) matches Slot::Unused(nx)
                && nx == (if k + 1 < f.len() {
                Some(f[k + 1])
            } else {
                None::<usize>
            }))
        &&& f.no_duplicates()
        &&& self.next_unused_slot_id == (if f.len() > 0 {
            Some(f[0])
        } else {
            None::<usize>
        })
        &&& forall|i: int|
            0 <= i < n && (#[trigger] self.slots@[i]) is Unused ==> f.contains(i as usize)
        &&& self.nb_objects == used_count(self.slots@)
    }

    /// Create an empty `SlotVec`.
    pub fn new() -> (r: Self)
        ensures
            r.wf(),
            r@.slots.len() == 0,
            r@.free.len() == 0,
    {
        SlotVec {
            slots: Vec::new(),
            next_unused_slot_id: None,
            nb_objects: 0,
            free_order: Ghost(Seq::empty()),
        }
    }

    /// Number of stored objects.
    pub fn len(&self) -> (r: usize)
        requires
            self.wf(),
        ensures
            r == live_count(self@.slots),
    {
        proof {
            lemma_counts_agree(self.slots@);
        }
        self.nb_objects
    }

    /// Number of slots, and thus the least index no object ever had.
    pub fn nb_slots(&self) -> (r: usize)
        ensures
            r == self@.slots.len(),
    {
        self.slots.len()
    }

    /// Access a slot; `None` if the slot is a hole.
    pub fn get(&self, index: usize) -> (r: Option<&T>)
        requires
            index < self@.slots.len(),
        ensures
            match r {
                Some(v) => self@.slots[index as int] == Some(*v),
                None => self@.slots[index as int] is None,
            },
    {
        match &self.slots[index] {
            Slot::Used(v) => Some(v),
            _ => None,
        }
    }

    /// Access a slot for writing; `None` if the slot is a hole. The free
    /// list and the occupancy of every slot are unchanged.
    pub fn get_mut(&mut self, index: usize) -> (r: Option<&mut T>)
        requires
            old(self).wf(),
            index < old(self)@.slots.len(),
        ensures
            final(self).wf(),
            final(self)@.free == old(self)@.free,
            final(self)@.slots.len() == old(self)@.slots.len(),
            forall|k: int|
                0 <= k < old(self)@.slots.len() && k != index ==> final(self)@.slots[k] == old(
                    self,
                )@.slots[k],
            match r {
                Some(v) => {
                    &&& old(self)@.slots[index as int] == Some(*v)
                    &&& final(self)@.slots[index as int] == Some(*final(v))
                },
                None => {
                    &&& old(self)@.slots[index as int] is None
                    &&& final(self)@.slots[index as int] is None
                },
            },
    {
        let is_used = match &self.slots[index] {
            Slot::Used(_) => true,
            Slot::Unused(_) => false,
        };
        if is_used {
            proof {
                assert forall|x: T|
                    used_count(self.slots@.update(index as int, Slot::Used(x))) == used_count(
                        self.slots@,
                    ) by {
                    lemma_used_count_update(self.slots@, index as int, Slot::Used(x));
                }
            }
            match &mut self.slots[index] {
                Slot::Used(v) => Some(v),
                Slot::Unused(_) => unreached(),
            }
        } else {
            None
        }
    }

    /// Insert an object into the head hole of the free list, or append a new
    /// slot when there is no hole. Returns the object's index.
    pub fn insert(&mut self, value: T) -> (new_id: usize)
        requires
            old(self).wf(),
        ensures
            final(self).wf(),
            new_id == alloc_target(old(self)@),
            final(self)@ == slot_alloc(old(self)@, value),
    {
        let ghost pre = self@;
        let ghost pre_raw = self.slots@;
        match self.next_unused_slot_id {
            Some(unused_id) => {
                let next = match &self.slots[unused_id] {
                    Slot::Unused(nx) => *nx,
                    Slot::Used(_) => unreached(),
                };
                self.slots[unused_id] = Slot::Used(value);
                self.next_unused_slot_id = next;
                let n = self.slots.len();
                proof {
                    lemma_used_count_update(pre_raw, unused_id as int, Slot::Used(value));
                    lemma_used_count_le(self.slots@);
                    assert(used_count(self.slots@) <= n);
                }
                self.nb_objects = self.nb_objects + 1;
                proof {
                    self.free_order@ = pre.free.drop_first();
                    let f = pre.free;
                    let f2 = self.free_order@;
                    assert(f[0] == unused_id);
                    assert forall|k: int|
                        0 <= k < f2.len() implies ((#[trigger] self.slots@[f2[k] as int]) matches
                            Slot::Unused(nx) && nx == (if k + 1 < f2.len() {
                            Some(f2[k + 1])
                        } else {
                            None::<usize>
                        })) by {
                        assert(f2[k] == f[k + 1]);
                        assert(pre_raw[f[k + 1] as int] matches Slot::Unused(_));
                    }
                    assert forall|i: int|
                        0 <= i < self.slots@.len() && (#[trigger] self.slots@[i])
                            is Unused implies f2.contains(i as usize) by {
                        assert(pre_raw[i] is Unused);
                        let k = choose|k: int| 0 <= k < f.len() && f[k] == i as usize;
                        assert(f2[k - 1] == i as usize);
                    }
                    assert(self@.slots =~= pre.slots.update(unused_id as int, Some(value)));
                    assert(self@ =~= slot_alloc(pre, value));
                }
                unused_id
            },
            None => {
                let end_of_vec_id = self.slots.len();
                self.slots.push(Slot::Used(value));
                let n = self.slots.len();
                proof {
                    lemma_used_count_push(pre_raw, Slot::Used(value));
                    lemma_used_count_le(pre_raw);
                    assert(used_count(self.slots@) <= n);
                }
                self.nb_objects = self.nb_objects + 1;
                proof {
                    assert forall|i: int|
                        0 <= i < self.slots@.len() && (#[trigger] self.slots@[i])
                            is Unused implies self.free_order@.contains(i as usize) by {
                        assert(pre_raw[i] is Unused);
                    }
                    assert(self@.slots =~= pre.slots.push(Some(value)));
                    assert(self@ =~= slot_alloc(pre, value));
                }
                end_of_vec_id
            },
        }
    }


    /// Build a slot vector from explicit slot contents: values and holes
    /// land exactly where the sequence puts them.
    pub fn from_options(entries: Vec<Option<T>>) -> (r: SlotVec<T>)
        ensures
            r.wf(),
            r@.slots.len() == entries@.len(),
            forall|k: int| 0 <= k < entries@.len() ==> r@.slots[k] == entries@[k],
    {
        let mut entries = entries;
        let ghost orig = entries@;
        let n = entries.len();
        let mut slots: Vec<Slot<T>> = Vec::new();
        let mut head: Option<usize> = None;
        let mut nb: usize = 0;
        let ghost mut free_order: Seq<usize> = Seq::empty();
        let mut i: usize = 0;
        while i < n
            invariant
                n == orig.len(),
                entries@.len() == orig.len(),
                i <= n,
                forall|k: int| i <= k < orig.len() ==> entries@[k] == orig[k],
                slots@.len() == i,
                forall|k: int|
                    0 <= k < i ==> ((#[trigger] slots@[k]) is Used <==> orig[k] is Some),
                forall|k: int|
                    0 <= k < i && orig[k] is Some ==> (#[trigger] slots@[k]) == Slot::Used(
                        orig[k]->Some_0,
                    ),
                forall|m: int| 0 <= m < free_order.len() ==> (#[trigger] free_order[m]) < i,
                forall|m: int|
                    0 <= m < free_order.len() ==> ((#[trigger] slots@[free_order[m] as int]) matches
                        Slot::Unused(nx) && nx == (if m + 1 < free_order.len() {
                        Some(free_order[m + 1])
                    } else {
                        None::<usize>
                    })),
                free_order.no_duplicates(),
                head == (if free_order.len() > 0 {
                    Some(free_order[0])
                } else {
                    None::<usize>
                }),
                forall|k: int|
                    0 <= k < i && (#[trigger] slots@[k]) is Unused ==> free_order.contains(
                        k as usize,
                    ),
                nb == used_count(slots@),
            decreases n - i,
        {
            let ghost pre_slots = slots@;
            let ghost pre_free = free_order;
            let ghost old_head = head;
            let e = {
                let slot_ref = &mut entries[i];
                slot_ref.take()
            };
            match e {
                Some(v) => {
                    slots.push(Slot::Used(v));
                    proof {
                        lemma_used_count_push(pre_slots, Slot::Used(v));
                        lemma_used_count_le(pre_slots);
                    }
                    nb = nb + 1;
                },
                None => {
                    slots.push(Slot::Unused(head));
                    head = Some(i);
                    proof {
                        lemma_used_count_push(pre_slots, Slot::Unused(old_head));
                        free_order = seq![i] + pre_free;
                        assert(free_order[0] == i);
                        assert forall|m: int|
                            1 <= m < free_order.len() implies free_order[m] == pre_free[m - 1] by {}
                        assert forall|m: int, m2: int|
                            0 <= m < free_order.len() && 0 <= m2 < free_order.len() && m
                                != m2 implies free_order[m] != free_order[m2] by {
                            if m != 0 && m2 != 0 {
                                assert(pre_free[m - 1] != pre_free[m2 - 1]);
                            }
                        }
                        assert forall|k: int|
                            0 <= k < i + 1 && (#[trigger] slots@[k]) is Unused implies
                            free_order.contains(k as usize) by {
                            if k < i {
                                assert(pre_slots[k] is Unused);
                                assert(pre_free.contains(k as usize));
                                let m = choose|m: int|
                                    0 <= m < pre_free.len() && pre_free[m] == k as usize;
                                assert(free_order[m + 1] == k as usize);
                            } else {
                                assert(free_order[0] == i as usize);
                            }
                        }
                    }
                },
            }
            i = i + 1;
        }
        let r = SlotVec { slots, next_unused_slot_id: head, nb_objects: nb, free_order: Ghost(free_order) };
        proof {
            assert forall|k: int| 0 <= k < orig.len() implies r@.slots[k] == orig[k] by {
                if orig[k] is Some {
                    assert(r.slots@[k] == Slot::Used(orig[k]->Some_0));
                }
            }
        }
        r
    }

    /// Remove the object at the given index and return it; `None` (and no
    /// change) if the slot was already a hole.
    pub fn remove(&mut self, index: usize) -> (r: Option<T>)
        requires
            old(self).wf(),
            index < old(self)@.slots.len(),
        ensures
            final(self).wf(),
            match r {
                Some(v) => {
                    &&& old(self)@.slots[index as int] == Some(v)
                    &&& final(self)@ == slot_release(old(self)@, index)
                },
                None => {
                    &&& old(self)@.slots[index as int] is None
                    &&& final(self)@ == old(self)@
                },
            },
    {
        let ghost pre = self@;
        let ghost pre_raw = self.slots@;
        let is_used = match &self.slots[index] {
            Slot::Used(_) => true,
            Slot::Unused(_) => false,
        };
        if is_used {
            let ghost old_head = self.next_unused_slot_id;
            let mut taken = Slot::Unused(self.next_unused_slot_id);
            let slot_ref = &mut self.slots[index];
            core::mem::swap(slot_ref, &mut taken);
            self.next_unused_slot_id = Some(index);
            proof {
                lemma_used_count_update(pre_raw, index as int, Slot::Unused(old_head));
            }
            self.nb_objects = self.nb_objects - 1;
            proof {
                self.free_order@ = seq![index] + pre.free;
                let f = pre.free;
                let f2 = self.free_order@;
                assert(f2[0] == index);
                assert forall|k: int| 1 <= k < f2.len() implies f2[k] == f[k - 1] by {}
                assert forall|k: int| 0 <= k < f.len() implies f[k] != index by {
                    assert(pre_raw[f[k] as int] matches Slot::Unused(_));
                }
                assert forall|i: int, j: int|
                    0 <= i < f2.len() && 0 <= j < f2.len() && i != j implies f2[i] != f2[j] by {
                    if i != 0 && j != 0 {
                        assert(f[i - 1] != f[j - 1]);
                    }
                }
                assert forall|k: int|
                    0 <= k < f2.len() implies ((#[trigger] self.slots@[f2[k] as int]) matches
                        Slot::Unused(nx) && nx == (if k + 1 < f2.len() {
                        Some(f2[k + 1])
                    } else {
                        None::<usize>
                    })) by {
                    if k != 0 {
                        assert(pre_raw[f[k - 1] as int] matches Slot::Unused(_));
                    }
                }
                assert forall|i: int|
                    0 <= i < self.slots@.len() && (#[trigger] self.slots@[i])
                        is Unused implies f2.contains(i as usize) by {
                    if i == index {
                        assert(f2[0] == i as usize);
                    } else {
                        assert(pre_raw[i] is Unused);
                        let k = choose|k: int| 0 <= k < f.len() && f[k] == i as usize;
                        assert(f2[k + 1] == i as usize);
                    }
                }
                assert(self@.slots =~= pre.slots.update(index as int, None));
                assert(self@ =~= slot_release(pre, index));
            }
            match taken {
                Slot::Used(v) => Some(v),
                Slot::Unused(_) => unreached(),
            }
        } else {
            None
        }
    }
}

} // verus!
