//! Arenas: growable stores of nodes addressed by stable handles.

use vstd::prelude::*;

verus! {

/// A stable handle into an [`Arena`].
#[derive(Clone, Copy, Debug, PartialEq, Eq, Structural, Hash)]
pub struct Node(pub usize);

/// A store of nodes. A slot is populated from the `add` that created it
/// until a `take` vacates it, and again after a `replace`.
#[derive(Debug)]
pub struct Arena<T> {
    items: Vec<Option<T>>,
}

impl<T> View for Arena<T> {
    type V = Seq<Option<T>>;

    closed spec fn view(&self) -> Seq<Option<T>> {
        self.items@
    }
}

impl<T> Arena<T> {
    /// An arena without slots.
    pub fn new() -> (res: Self)
        ensures
            res@ == Seq::<Option<T>>::empty(),
    {
        Arena { items: Vec::new() }
    }

    /// Number of slots, vacant ones included.
    pub fn len(&self) -> (res: usize)
        ensures
            res == self@.len(),
    {
        self.items.len()
    }

    /// The number of slots fits a handle.
    pub proof fn lemma_len_fits(&self)
        ensures
            self@.len() <= usize::MAX,
    {
        vstd::std_specs::vec::axiom_spec_len(&self.items);
        assert(self.items.len() == self.items@.len());
    }

    /// Whether `idx` names a slot that holds a node.
    pub open spec fn populated(&self, idx: Node) -> bool {
        idx.0 < self@.len() && self@[idx.0 as int] is Some
    }

    /// Whether `idx` names a slot that holds a node.
    pub fn is_populated(&self, idx: Node) -> (res: bool)
        ensures
            res == self.populated(idx),
    {
        idx.0 < self.items.len() && self.items[idx.0].is_some()
    }

    /// Stores `val` in a new slot at the end and returns its handle.
    pub fn add(&mut self, val: T) -> (res: Node)
        ensures
            res.0 == old(self)@.len(),
            final(self)@ == old(self)@.push(Some(val)),
    {
        let idx = self.items.len();
        self.items.push(Some(val));
        Node(idx)
    }

    /// The node in a populated slot.
    pub fn get(&self, idx: Node) -> (res: &T)
        requires
            self.populated(idx),
        ensures
            Some(*res) == self@[idx.0 as int],
    {
        self.items[idx.0].as_ref().unwrap()
    }

    /// The node in slot `idx`, if the slot exists and is populated.
    pub fn try_get(&self, idx: Node) -> (res: Option<&T>)
        ensures
            self.populated(idx) ==> (res matches Some(r) && Some(*r) == self@[idx.0 as int]),
            !self.populated(idx) ==> res is None,
    {
        if idx.0 < self.items.len() {
            self.items[idx.0].as_ref()
        } else {
            None
        }
    }

    /// Moves the node out of slot `idx` and leaves the slot vacant.
    /// `None`, and no change, if there is no populated slot `idx`.
    pub fn take(&mut self, idx: Node) -> (res: Option<T>)
        ensures
            old(self).populated(idx) ==> res == old(self)@[idx.0 as int] && final(self)@ == old(
                self,
            )@.update(idx.0 as int, None),
            !old(self).populated(idx) ==> res is None && final(self)@ == old(self)@,
    {
        if idx.0 < self.items.len() {
            self.items.push(None);
            let taken = self.items.swap_remove(idx.0);
            assert(self.items@ =~= old(self).items@.update(idx.0 as int, None));
            taken
        } else {
            None
        }
    }

    /// Stores `val` in the existing slot `idx`, over whatever it held.
    pub fn replace(&mut self, idx: Node, val: T)
        requires
            idx.0 < old(self)@.len(),
        ensures
            final(self)@ == old(self)@.update(idx.0 as int, Some(val)),
    {
        self.items[idx.0] = Some(val);
    }
}

} // verus!
