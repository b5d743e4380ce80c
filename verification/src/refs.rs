//! Read-only references into the graph: an object together with its slot
//! index, its topology views, and ordered iteration over live objects.
use vstd::prelude::*;

use crate::graph::{
    backlinks_ok, description_at, link_pair_at, links_from, links_to, object_at, slot_live,
    Graph, ObjectData, StoreView,
};
use crate::index_set::sorted_strict;
use crate::types::{Atom, Error, Index, Link, Object, ObjectView};

verus! {

/// Reference to an object and its data within a graph.
#[derive(Clone, Copy)]
pub struct ObjectRef<'a> {
    pub(crate) index: Index,
    pub(crate) object_data: &'a ObjectData,
    pub(crate) graph: &'a Graph,
}

/// References to a link's endpoints.
#[derive(Clone, Copy)]
pub struct LinkRef<'a> {
    pub from: ObjectRef<'a>,
    pub to: ObjectRef<'a>,
}

impl<'a> ObjectRef<'a> {
    /// The reference points into a well-formed graph, at a live slot, and
    /// carries that slot's data.
    pub open(crate) spec fn wf(self) -> bool {
        &&& self.graph.wf()
        &&& slot_live(self.graph@.slots, self.index)
        &&& self.object_data == self.graph.objects@.slots[self.index as int]->Some_0
    }

    /// The state of the graph this reference points into.
    pub closed spec fn graph_view(self) -> StoreView {
        self.graph@
    }

    /// The referenced slot.
    pub closed spec fn target(self) -> usize {
        self.index
    }

    pub fn index(&self) -> (r: Index)
        ensures
            r == self.target(),
    {
        self.index
    }

    pub fn graph(&self) -> (r: &'a Graph)
        ensures
            r@ == self.graph_view(),
            self.wf() ==> r.wf(),
    {
        self.graph
    }

    /// The referenced object.
    pub fn object(&self) -> (r: &'a Object)
        requires
            self.wf(),
        ensures
            r@ == object_at(self.graph_view().slots, self.target()),
    {
        &self.object_data.object
    }

    /// The object's free-text description.
    pub fn description(&self) -> (r: &'a str)
        requires
            self.wf(),
        ensures
            r@ == description_at(self.graph_view().slots, self.target()),
    {
        self.object_data.description.as_str()
    }

    /// For a link, references to its two endpoints; `None` otherwise.
    pub fn as_link(&self) -> (r: Option<LinkRef<'a>>)
        requires
            self.wf(),
        ensures
            match r {
                Some(lr) => {
                    &&& object_at(self.graph_view().slots, self.target()) matches ObjectView::Link(
                        l,
                    ) && lr.from.target() == l.from && lr.to.target() == l.to
                    &&& lr.from.wf() && lr.from.graph_view() == self.graph_view()
                    &&& lr.to.wf() && lr.to.graph_view() == self.graph_view()
                },
                None => !(object_at(self.graph_view().slots, self.target()) is Link),
            },
    {
        match &self.object_data.object {
            Object::Link(l) => {
                proof {
                    assert(link_pair_at(self.graph@.slots, self.index, *l));
                }
                Some(
                    LinkRef {
                        from: self.graph.object(l.from),
                        to: self.graph.object(l.to),
                    },
                )
            },
            _ => None,
        }
    }

    /// The indices of the live links pointing at this object, ascending.
    pub fn in_links_index(&self) -> (r: &'a [usize])
        requires
            self.wf(),
        ensures
            sorted_strict(r@),
            forall|j: usize|
                #[trigger] r@.contains(j) == links_to(self.graph_view().slots, j, self.target()),
    {
        proof {
            assert(backlinks_ok(self.graph.objects@.slots, self.index));
            self.object_data.in_links.lemma_sorted();
        }
        self.object_data.in_links.as_slice()
    }

    /// The indices of the live links starting at this object, ascending.
    pub fn out_links_index(&self) -> (r: &'a [usize])
        requires
            self.wf(),
        ensures
            sorted_strict(r@),
            forall|j: usize|
                #[trigger] r@.contains(j) == links_from(
                    self.graph_view().slots,
                    j,
                    self.target(),
                ),
    {
        proof {
            assert(backlinks_ok(self.graph.objects@.slots, self.index));
            self.object_data.out_links.lemma_sorted();
        }
        self.object_data.out_links.as_slice()
    }

    /// The links pointing at this object, as resolvable references.
    pub fn in_links(&self) -> (r: ObjectRefSlice<'a>)
        requires
            self.wf(),
        ensures
            r.wf(),
            r.graph_view() == self.graph_view(),
            sorted_strict(r.indices()),
            forall|j: usize|
                #[trigger] r.indices().contains(j) == links_to(
                    self.graph_view().slots,
                    j,
                    self.target(),
                ),
    {
        proof {
            assert(backlinks_ok(self.graph.objects@.slots, self.index));
            self.object_data.in_links.lemma_sorted();
            assert forall|k: int|
                0 <= k < self.object_data.in_links@.len() implies slot_live(
                self.graph@.slots,
                #[trigger] self.object_data.in_links@[k],
            ) by {
                let j = self.object_data.in_links@[k];
                assert(self.object_data.in_links@.contains(j));
                assert(links_to(self.graph@.slots, j, self.index));
            }
        }
        ObjectRefSlice { indexes: self.object_data.in_links.as_slice(), graph: self.graph }
    }

    /// The links starting at this object, as resolvable references.
    pub fn out_links(&self) -> (r: ObjectRefSlice<'a>)
        requires
            self.wf(),
        ensures
            r.wf(),
            r.graph_view() == self.graph_view(),
            sorted_strict(r.indices()),
            forall|j: usize|
                #[trigger] r.indices().contains(j) == links_from(
                    self.graph_view().slots,
                    j,
                    self.target(),
                ),
    {
        proof {
            assert(backlinks_ok(self.graph.objects@.slots, self.index));
            self.object_data.out_links.lemma_sorted();
            assert forall|k: int|
                0 <= k < self.object_data.out_links@.len() implies slot_live(
                self.graph@.slots,
                #[trigger] self.object_data.out_links@[k],
            ) by {
                let j = self.object_data.out_links@[k];
                assert(self.object_data.out_links@.contains(j));
                assert(links_from(self.graph@.slots, j, self.index));
            }
        }
        ObjectRefSlice { indexes: self.object_data.out_links.as_slice(), graph: self.graph }
    }
}

/// A run of object references, backed by a slice of live indices.
#[derive(Clone, Copy)]
pub struct ObjectRefSlice<'a> {
    pub(crate) indexes: &'a [usize],
    pub(crate) graph: &'a Graph,
}

impl<'a> ObjectRefSlice<'a> {
    /// Every listed index is live in a well-formed graph.
    pub open(crate) spec fn wf(self) -> bool {
        &&& self.graph.wf()
        &&& forall|k: int|
            0 <= k < self.indexes@.len() ==> slot_live(self.graph@.slots, #[trigger] self.indexes@[k])
    }

    /// The state of the graph the references point into.
    pub closed spec fn graph_view(self) -> StoreView {
        self.graph@
    }

    /// The listed slot indices, in order.
    pub closed spec fn indices(self) -> Seq<usize> {
        self.indexes@
    }

    pub fn len(&self) -> (r: usize)
        ensures
            r == self.indices().len(),
    {
        self.indexes.len()
    }

    pub fn is_empty(&self) -> (r: bool)
        ensures
            r == (self.indices().len() == 0),
    {
        self.indexes.len() == 0
    }

    /// The `i`-th referenced object.
    pub fn at(&self, i: usize) -> (r: ObjectRef<'a>)
        requires
            self.wf(),
            i < self.indices().len(),
        ensures
            r.wf(),
            r.graph_view() == self.graph_view(),
            r.target() == self.indices()[i as int],
    {
        self.graph.object(self.indexes[i])
    }

    /// The first referenced object, if the run is not empty.
    pub fn first(&self) -> (r: Option<ObjectRef<'a>>)
        requires
            self.wf(),
        ensures
            match r {
                Some(or) => self.indices().len() > 0 && or.wf() && or.graph_view()
                    == self.graph_view() && or.target() == self.indices()[0],
                None => self.indices().len() == 0,
            },
    {
        if self.indexes.len() > 0 {
            Some(self.at(0))
        } else {
            None
        }
    }

    /// Start iterating over the referenced objects.
    pub fn iter(&self) -> (r: ObjectRefSliceIterator<'a>)
        ensures
            r.source() == *self,
            r.cursor() == 0,
    {
        ObjectRefSliceIterator { i: 0, slice: *self }
    }
}

/// Iterator over an `ObjectRefSlice`.
pub struct ObjectRefSliceIterator<'a> {
    pub(crate) i: usize,
    pub(crate) slice: ObjectRefSlice<'a>,
}

impl<'a> ObjectRefSliceIterator<'a> {
    /// The run being iterated.
    pub closed spec fn source(self) -> ObjectRefSlice<'a> {
        self.slice
    }

    /// How many references were already handed out.
    pub closed spec fn cursor(self) -> usize {
        self.i
    }

    /// The next referenced object, if any.
    pub fn next(&mut self) -> (r: Option<ObjectRef<'a>>)
        requires
            old(self).source().wf(),
        ensures
            final(self).source() == old(self).source(),
            match r {
                Some(or) => {
                    &&& (old(self).cursor() as int) < old(self).source().indices().len()
                    &&& final(self).cursor() == old(self).cursor() + 1
                    &&& or.wf() && or.graph_view() == old(self).source().graph_view()
                    &&& or.target() == old(self).source().indices()[old(self).cursor() as int]
                },
                None => {
                    &&& old(self).cursor() >= old(self).source().indices().len()
                    &&& final(self).cursor() == old(self).cursor()
                },
            },
    {
        let i = self.i;
        if i < self.slice.len() {
            self.i = i + 1;
            Some(self.slice.at(i))
        } else {
            None
        }
    }
}

/// Iterator over live objects, in order of increasing index.
pub struct OrderedObjectIterator<'a> {
    pub(crate) next_index: usize,
    pub(crate) graph: &'a Graph,
}

impl<'a> OrderedObjectIterator<'a> {
    pub open(crate) spec fn wf(self) -> bool {
        self.graph.wf()
    }

    /// The state of the graph being iterated.
    pub closed spec fn graph_view(self) -> StoreView {
        self.graph@
    }

    /// The next slot index to be examined.
    pub closed spec fn pos(self) -> usize {
        self.next_index
    }

    /// The next live object in ascending index order, if any.
    pub fn next(&mut self) -> (r: Option<ObjectRef<'a>>)
        requires
            old(self).wf(),
        ensures
            final(self).wf(),
            final(self).graph_view() == old(self).graph_view(),
            match r {
                Some(or) => {
                    &&& or.wf() && or.graph_view() == old(self).graph_view()
                    &&& old(self).pos() <= or.target()
                    &&& slot_live(old(self).graph_view().slots, or.target())
                    &&& forall|k: usize|
                        old(self).pos() <= k < or.target() ==> !slot_live(
                            old(self).graph_view().slots,
                            k,
                        )
                    &&& final(self).pos() == or.target() + 1
                },
                None => {
                    &&& old(self).pos() <= final(self).pos()
                    &&& forall|k: usize|
                        k >= old(self).pos() ==> !slot_live(old(self).graph_view().slots, k)
                },
            },
    {
        loop
            invariant
                self.graph == old(self).graph,
                self.graph.wf(),
                old(self).pos() <= self.next_index,
                forall|k: usize|
                    old(self).pos() <= k < self.next_index ==> !slot_live(self.graph@.slots, k),
            decreases self.graph@.slots.len() - self.next_index,
        {
            let current_index = self.next_index;
            if current_index >= self.graph.nb_slots() {
                proof {
                    assert forall|k: usize|
                        k >= old(self).pos() implies !slot_live(self.graph@.slots, k) by {
                        if k < self.next_index {
                        }
                    }
                }
                return None;
            }
            self.next_index = current_index + 1;
            match self.graph.get_object(current_index) {
                Ok(object_ref) => {
                    return Some(object_ref);
                },
                Err(_) => {},
            }
        }
    }
}

impl Graph {
    /// The number of slots; every live index is smaller.
    pub fn nb_slots(&self) -> (r: usize)
        ensures
            r == self@.slots.len(),
    {
        self.objects.nb_slots()
    }

    /// A reference to the object at `index`, or `InvalidIndex` if the slot
    /// is out of range or empty.
    pub fn get_object<'a>(&'a self, index: Index) -> (r: Result<ObjectRef<'a>, Error>)
        requires
            self.wf(),
        ensures
            match r {
                Ok(or) => slot_live(self@.slots, index) && or.wf() && or.graph_view() == self@
                    && or.target() == index,
                Err(e) => e == Error::InvalidIndex && !slot_live(self@.slots, index),
            },
    {
        if index < self.objects.nb_slots() {
            match self.objects.get(index) {
                Some(object_data) => Ok(ObjectRef { index, object_data, graph: self }),
                None => Err(Error::InvalidIndex),
            }
        } else {
            Err(Error::InvalidIndex)
        }
    }

    /// A reference to the live object at `index`.
    pub fn object<'a>(&'a self, index: Index) -> (r: ObjectRef<'a>)
        requires
            self.wf(),
            slot_live(self@.slots, index),
        ensures
            r.wf(),
            r.graph_view() == self@,
            r.target() == index,
    {
        match self.get_object(index) {
            Ok(or) => or,
            Err(_) => unreached(),
        }
    }

    /// Iterate over the live objects in ascending index order.
    pub fn objects<'a>(&'a self) -> (r: OrderedObjectIterator<'a>)
        requires
            self.wf(),
        ensures
            r.wf(),
            r.graph_view() == self@,
            r.pos() == 0,
    {
        OrderedObjectIterator { next_index: 0, graph: self }
    }

    /// A reference to the live slot holding this atom value, if any.
    pub fn get_atom<'a>(&'a self, atom: &Atom) -> (r: Option<ObjectRef<'a>>)
        requires
            self.wf(),
        ensures
            match r {
                Some(or) => or.wf() && or.graph_view() == self@ && crate::graph::atom_at(
                    self@.slots,
                    or.target(),
                    atom@,
                ),
                None => !crate::graph::has_atom(self@.slots, atom@),
            },
    {
        match self.get_atom_index(atom) {
            Some(i) => Some(self.object(i)),
            None => None,
        }
    }

    /// A reference to the live slot holding this link pair, if any.
    pub fn get_link<'a>(&'a self, link: &Link) -> (r: Option<ObjectRef<'a>>)
        requires
            self.wf(),
        ensures
            match r {
                Some(or) => or.wf() && or.graph_view() == self@ && link_pair_at(
                    self@.slots,
                    or.target(),
                    *link,
                ),
                None => !crate::graph::has_link(self@.slots, *link),
            },
    {
        match self.get_link_index(link) {
            Some(i) => Some(self.object(i)),
            None => None,
        }
    }
}

} // verus!
