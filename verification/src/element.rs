//! The elements of a circuit: the primitives that own nodes and drive them.

use vstd::prelude::*;
use crate::circuit::Circuit;
use crate::collection::NodeCollection;
use crate::nand::NandElem;
use crate::pin::PinElem;
use crate::rom::ConstantBitElem;
use crate::sim::{LineState, NodeIndex};

verus! {

/// What an element asks for when it is stepped: a node to drive and the
/// state to drive it to.
#[derive(Debug, Clone, Copy, PartialEq, Eq, Structural)]
pub struct Demand {
    pub node: NodeIndex,
    pub state: LineState,
}

/// What every element of a circuit offers: the nodes it owns, and a step
/// that recomputes what it drives.
pub trait Element {
    /// The nodes this element owns.
    spec fn owned(&self) -> Seq<NodeIndex>;

    /// What this element asks for when it is stepped in circuit `c`.
    spec fn demand(&self, c: Circuit) -> Option<Demand>;

    /// Recomputes what this element drives, after one of its nodes changed.
    fn step(&self, c: &mut NodeCollection)
        requires
            old(c).wf(),
            forall|k: int| 0 <= k < self.owned().len() ==> old(c)@.has_node(#[trigger] self.owned()[k]),
            old(c)@.can_obey(self.demand(old(c)@)),
        ensures
            final(c).wf(),
            final(c)@ == old(c)@.obeyed(self.demand(old(c)@)),
    ;

    /// The nodes this element owns.
    fn get_nodes(&self) -> (nodes: Vec<NodeIndex>)
        ensures
            nodes@ == self.owned(),
    ;
}

/// A primitive element, as a circuit stores it.
#[derive(Debug, Clone, Copy, PartialEq, Eq, Structural)]
pub enum Primitive {
    /// A NAND gate.
    Nand(NandElem),
    /// A passive node, to observe or to inject a signal.
    Pin(PinElem),
    /// A node held at a constant value.
    Constant(ConstantBitElem),
}

impl Primitive {
    /// The nodes this element owns.
    pub open spec fn claims(self) -> Seq<NodeIndex> {
        match self {
            Primitive::Nand(e) => e.claims(),
            Primitive::Pin(e) => e.claims(),
            Primitive::Constant(e) => e.claims(),
        }
    }

    /// What this element asks for when it is stepped in circuit `c`.
    pub open spec fn wants(self, c: Circuit) -> Option<Demand> {
        match self {
            Primitive::Nand(e) => Some(e.wants(c)),
            Primitive::Pin(_) => None,
            Primitive::Constant(e) => Some(e.wants()),
        }
    }

    /// What this element drives once it is powered on, whatever its nodes
    /// read: a constant bit drives its node to its level, and no other
    /// element drives anything unasked.
    pub open spec fn standing(self) -> Option<Demand> {
        match self {
            Primitive::Constant(e) => Some(e.wants()),
            _ => None,
        }
    }

    /// What this element drives once it is powered on.
    pub fn standing_demand(&self) -> (d: Option<Demand>)
        ensures
            d == self.standing(),
    {
        match self {
            Primitive::Constant(e) => Some(
                Demand {
                    node: e.node,
                    state: if e.on {
                        LineState::High
                    } else {
                        LineState::Low
                    },
                },
            ),
            _ => None,
        }
    }
}

impl Element for Primitive {
    open spec fn owned(&self) -> Seq<NodeIndex> {
        self.claims()
    }

    open spec fn demand(&self, c: Circuit) -> Option<Demand> {
        self.wants(c)
    }

    fn step(&self, c: &mut NodeCollection) {
        match self {
            Primitive::Nand(e) => {
                assert(self.owned() == e.owned());
                e.step(c)
            },
            Primitive::Pin(e) => {
                assert(self.owned() == e.owned());
                e.step(c)
            },
            Primitive::Constant(e) => {
                assert(self.owned() == e.owned());
                e.step(c)
            },
        }
    }

    fn get_nodes(&self) -> (nodes: Vec<NodeIndex>) {
        match self {
            Primitive::Nand(e) => e.get_nodes(),
            Primitive::Pin(e) => e.get_nodes(),
            Primitive::Constant(e) => e.get_nodes(),
        }
    }
}

} // verus!
