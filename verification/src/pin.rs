//! Pins: passive nodes through which a signal is observed or injected.

use vstd::prelude::*;
use crate::circuit::Circuit;
use crate::collection::NodeCollection;
use crate::creator::NodeCreator;
use crate::netlist::Netlist;
use crate::part::Part;
use crate::element::{Demand, Element, Primitive};
use crate::sim::NodeIndex;

verus! {

/// The element behind a pin. It owns one node and never drives it.
#[derive(Debug, Clone, Copy, PartialEq, Eq, Structural)]
pub struct PinElem {
    pub node: NodeIndex,
}

impl PinElem {
    /// The pin whose node is the next that the session `nl` issues.
    pub open spec fn at(nl: Netlist) -> PinElem {
        PinElem { node: nl.ahead(0) }
    }

    /// A pin on a new node.
    pub fn new(c: &mut NodeCreator) -> (e: PinElem)
        requires
            old(c)@.next + 1 <= usize::MAX,
        ensures
            e == PinElem::at(old(c)@),
            final(c)@ == old(c)@.with_nodes(1),
    {
        PinElem { node: c.new_node() }
    }

    /// The node a pin owns.
    pub open spec fn claims(self) -> Seq<NodeIndex> {
        seq![self.node]
    }
}

impl Element for PinElem {
    open spec fn owned(&self) -> Seq<NodeIndex> {
        self.claims()
    }

    open spec fn demand(&self, c: Circuit) -> Option<Demand> {
        None
    }

    fn step(&self, c: &mut NodeCollection) {
    }

    fn get_nodes(&self) -> (nodes: Vec<NodeIndex>) {
        let mut v = Vec::new();
        v.push(self.node);
        assert(v@ =~= self.claims());
        v
    }
}

/// A pin as its user sees it: the node to write to or to read from.
#[derive(Debug, Clone, Copy, PartialEq, Eq, Structural)]
pub struct Pin {
    pub node: NodeIndex,
}

impl Part for Pin {
    open spec fn size() -> nat {
        1
    }

    fn node_count() -> (n: usize) {
        1
    }

    open spec fn at(nl: Netlist) -> Pin {
        Pin { node: PinElem::at(nl).node }
    }

    open spec fn staged(nl: Netlist) -> Netlist {
        nl.with_nodes(1).with_element(Primitive::Pin(PinElem::at(nl)))
    }

    proof fn lemma_size(nl: Netlist) {
    }

    fn build(creator: &mut NodeCreator) -> (part: Pin) {
        Pin::new(creator)
    }
}

impl Pin {
    /// Stages a pin: a new node and the element that owns it.
    pub fn new(creator: &mut NodeCreator) -> (pin: Pin)
        requires
            old(creator)@.next + 1 <= usize::MAX,
        ensures
            pin == Self::at(old(creator)@),
            final(creator)@ == Self::staged(old(creator)@),
            final(creator)@.next == old(creator)@.next + 1,
    {
        let elem = PinElem::new(creator);
        creator.add_element(Primitive::Pin(elem));
        Pin { node: elem.node }
    }
}

} // verus!
