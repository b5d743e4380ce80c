//! The element types of the graph and their mathematical views.
use vstd::prelude::*;

verus! {

/// Index for graph elements: the position of a slot in the store.
pub type Index = usize;

/// Graph operation errors.
#[derive(Debug, Clone, Copy, PartialEq, Eq, Structural)]
pub enum Error {
    /// The index is out of bounds or its slot is currently empty.
    InvalidIndex,
    /// The object still has live links pointing at or from it.
    CannotRemoveLinked,
}

/// A basic piece of concrete, comparable data.
/// In a graph, atoms are unique and can be searched from their value.
#[derive(Debug)]
pub enum Atom {
    Text(String),
    Integer(i32),
}

/// Mathematical value of an `Atom`.
pub enum AtomView {
    Text(Seq<char>),
    Integer(i32),
}

impl View for Atom {
    type V = AtomView;

    open spec fn view(&self) -> AtomView {
        match self {
            Atom::Text(s) => AtomView::Text(s@),
            Atom::Integer(i) => AtomView::Integer(*i),
        }
    }
}

impl Atom {
    /// Build a text atom from a string slice.
    pub fn text(text: &str) -> (r: Self)
        ensures
            r@ == AtomView::Text(text@),
    {
        Atom::Text(text.to_owned())
    }
}

impl PartialEq for Atom {
    /// Value equality: same variant, same payload.
    fn eq(&self, other: &Atom) -> (r: bool) {
        match (self, other) {
            (Atom::Text(a), Atom::Text(b)) => *a == *b,
            (Atom::Integer(a), Atom::Integer(b)) => *a == *b,
            _ => false,
        }
    }
}

impl vstd::std_specs::cmp::PartialEqSpecImpl for Atom {
    open spec fn obeys_eq_spec() -> bool {
        true
    }

    open spec fn eq_spec(&self, other: &Atom) -> bool {
        self@ == other@
    }
}

impl Clone for Atom {
    /// An equal atom.
    fn clone(&self) -> (r: Self)
        ensures
            r == *self,
    {
        match self {
            Atom::Text(s) => Atom::Text(s.clone()),
            Atom::Integer(i) => Atom::Integer(*i),
        }
    }
}

/// A directed link between two graph objects, identified by its ordered
/// endpoint pair.
#[derive(Debug, Clone, Copy, PartialEq, Eq, Structural)]
pub struct Link {
    pub from: Index,
    pub to: Index,
}

impl Link {
    pub fn new(from: Index, to: Index) -> (r: Self)
        ensures
            r == (Link { from, to }),
    {
        Link { from, to }
    }
}

/// Object of the graph. All objects are identified by their index in the
/// graph, which is constant from creation to removal.
///
/// `Atom`: concrete data, deduplicated by value.
/// `Link`: a directed arrow between any two graph objects (links included),
/// deduplicated by its ordered endpoint pair.
/// `Abstract`: an object with no intrinsic value, defined exclusively by its
/// links; never compared by value.
#[derive(Debug)]
pub enum Object {
    Atom(Atom),
    Link(Link),
    Abstract,
}

/// Mathematical value of an `Object`.
pub enum ObjectView {
    Atom(AtomView),
    Link(Link),
    Abstract,
}

impl View for Object {
    type V = ObjectView;

    open spec fn view(&self) -> ObjectView {
        match self {
            Object::Atom(a) => ObjectView::Atom(a@),
            Object::Link(l) => ObjectView::Link(*l),
            Object::Abstract => ObjectView::Abstract,
        }
    }
}

impl Clone for Object {
    /// An equal object.
    fn clone(&self) -> (r: Self)
        ensures
            r == *self,
    {
        match self {
            Object::Atom(a) => Object::Atom(a.clone()),
            Object::Link(l) => Object::Link(*l),
            Object::Abstract => Object::Abstract,
        }
    }
}

impl Object {
    pub fn is_atom(&self) -> (r: bool)
        ensures
            r == (self@ is Atom),
    {
        match self {
            Object::Atom(_) => true,
            _ => false,
        }
    }

    pub fn is_link(&self) -> (r: bool)
        ensures
            r == (self@ is Link),
    {
        match self {
            Object::Link(_) => true,
            _ => false,
        }
    }

    pub fn is_abstract(&self) -> (r: bool)
        ensures
            r == (self@ is Abstract),
    {
        match self {
            Object::Abstract => true,
            _ => false,
        }
    }
}

} // verus!
