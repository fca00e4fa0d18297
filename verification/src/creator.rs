//! The staging area of a building session. It hands out node indices and
//! buffers elements and links until a simulation absorbs them.

use vstd::prelude::*;
use crate::collection::NodeCollection;
use crate::element::Primitive;
use crate::netlist::{Netlist, Wiring};
use crate::sim::{NodeIndex, PropogationDelay};

verus! {

/// A building session.
pub struct NodeCreator {
    creation_index: usize,
    elements: Vec<Primitive>,
    links: Vec<Wiring>,
}

impl View for NodeCreator {
    type V = Netlist;

    closed spec fn view(&self) -> Netlist {
        Netlist { next: self.creation_index as nat, elements: self.elements@, links: self.links@ }
    }
}

impl NodeCreator {
    /// A session for `parent`. Its first node index is the number of nodes
    /// that `parent` holds, so that sessions absorbed one after another do
    /// not collide.
    pub fn new(parent: &NodeCollection) -> (creator: NodeCreator)
        ensures
            creator@ == Netlist::starting_at(parent@.nodes.len()),
    {
        NodeCreator { creation_index: parent.node_count(), elements: Vec::new(), links: Vec::new() }
    }

    /// The index that the next new node gets.
    pub fn next_index(&self) -> (n: usize)
        ensures
            n == self@.next,
    {
        self.creation_index
    }

    /// The number of elements registered.
    pub fn element_count(&self) -> (n: usize)
        ensures
            n == self@.elements.len(),
    {
        self.elements.len()
    }

    /// The `i`-th element registered.
    pub fn element(&self, i: usize) -> (element: Primitive)
        requires
            i < self@.elements.len(),
        ensures
            element == self@.elements[i as int],
    {
        self.elements[i]
    }

    /// The number of links declared.
    pub fn link_count(&self) -> (n: usize)
        ensures
            n == self@.links.len(),
    {
        self.links.len()
    }

    /// The `i`-th link declared.
    pub fn link_at(&self, i: usize) -> (wiring: Wiring)
        requires
            i < self@.links.len(),
        ensures
            wiring == self@.links[i as int],
    {
        self.links[i]
    }

    /// Hands over what this session has staged: the index that the next
    /// new node would get, the elements, and the links.
    pub fn into_parts(self) -> (parts: (usize, Vec<Primitive>, Vec<Wiring>))
        ensures
            parts.0 == self@.next,
            parts.1@ == self@.elements,
            parts.2@ == self@.links,
    {
        (self.creation_index, self.elements, self.links)
    }

    /// Whether this session can still issue `needed` node indices, where
    /// nothing stands for more than can be counted.
    pub fn has_room(&self, needed: Option<usize>) -> (ok: bool)
        ensures
            forall|size: int| crate::part::counts(needed, size) ==> ok == (self@.next + size <= usize::MAX),
    {
        match needed {
            Some(n) => n <= usize::MAX - self.creation_index,
            None => false,
        }
    }

    /// Issues the next node index.
    pub fn new_node(&mut self) -> (node: NodeIndex)
        requires
            old(self)@.next < usize::MAX,
        ensures
            node == old(self)@.fresh(),
            final(self)@ == old(self)@.with_node(),
    {
        let ret = self.creation_index;
        self.creation_index = self.creation_index + 1;
        NodeIndex(ret)
    }

    /// Registers an element, which will claim its nodes when the session is
    /// absorbed.
    pub fn add_element(&mut self, elem: Primitive)
        ensures
            final(self)@ == old(self)@.with_element(elem),
    {
        self.elements.push(elem);
    }

    /// Declares an undirected link between `a` and `b`.
    pub fn link(&mut self, a: NodeIndex, b: NodeIndex, delay: PropogationDelay)
        ensures
            final(self)@ == old(self)@.with_link(a, b, delay),
    {
        self.links.push((a, b, delay));
    }

    /// Declares a link between `a[i]` and `b[i]` for each position `i`.
    pub fn multilink(&mut self, a: &[NodeIndex], b: &[NodeIndex], delay: PropogationDelay)
        requires
            a@.len() == b@.len(),
        ensures
            final(self)@ == old(self)@.with_links(a@, b@, delay, a@.len()),
    {
        let mut i: usize = 0;
        while i < a.len()
            invariant
                i <= a@.len(),
                a@.len() == b@.len(),
                self@ == old(self)@.with_links(a@, b@, delay, i as nat),
            decreases a@.len() - i,
        {
            self.link(a[i], b[i], delay);
            i = i + 1;
        }
    }

    /// Declares a link between `a` and each node of `b`.
    pub fn link_one_to_many(&mut self, a: NodeIndex, b: &[NodeIndex], delay: PropogationDelay)
        ensures
            final(self)@ == old(self)@.with_fan(a, b@, delay, b@.len()),
    {
        let mut i: usize = 0;
        while i < b.len()
            invariant
                i <= b@.len(),
                self@ == old(self)@.with_fan(a, b@, delay, i as nat),
            decreases b@.len() - i,
        {
            self.link(a, b[i], delay);
            i = i + 1;
        }
    }
}

} // verus!
