//! The NAND gate, the only combinational primitive.

use vstd::prelude::*;
use crate::circuit::Circuit;
use crate::collection::NodeCollection;
use crate::creator::NodeCreator;
use crate::netlist::Netlist;
use crate::element::{Demand, Element};
use crate::sim::{LineState, NodeIndex};

verus! {

/// A NAND gate: two inputs and the output it drives.
#[derive(Debug, Clone, Copy, PartialEq, Eq, Structural)]
pub struct NandElem {
    pub a: NodeIndex,
    pub b: NodeIndex,
    pub output: NodeIndex,
}

/// NAND on four-valued signals: a floating input makes the output float,
/// else a conflicting input makes it conflict, else it is Low exactly when
/// both inputs are High.
pub open spec fn nand_of(a: LineState, b: LineState) -> LineState {
    if a == LineState::Floating || b == LineState::Floating {
        LineState::Floating
    } else if a == LineState::Conflict || b == LineState::Conflict {
        LineState::Conflict
    } else if a == LineState::High && b == LineState::High {
        LineState::Low
    } else {
        LineState::High
    }
}

impl NandElem {
    /// The NAND gate whose nodes are the next three that the session `nl` issues.
    pub open spec fn at(nl: Netlist) -> NandElem {
        NandElem { a: nl.ahead(0), b: nl.ahead(1), output: nl.ahead(2) }
    }

    /// A NAND gate on three new nodes.
    pub fn new(c: &mut NodeCreator) -> (e: NandElem)
        requires
            old(c)@.next + 3 <= usize::MAX,
        ensures
            e == NandElem::at(old(c)@),
            final(c)@ == old(c)@.with_nodes(3),
    {
        let a = c.new_node();
        let b = c.new_node();
        let output = c.new_node();
        NandElem { a, b, output }
    }

    /// The nodes a NAND gate owns: its inputs, then its output.
    pub open spec fn claims(self) -> Seq<NodeIndex> {
        seq![self.a, self.b, self.output]
    }

    /// A NAND gate drives its output to the NAND of what its inputs read.
    pub open spec fn wants(self, c: Circuit) -> Demand {
        Demand { node: self.output, state: nand_of(c.reading(self.a), c.reading(self.b)) }
    }

    /// NAND on four-valued signals.
    pub fn nand(a: LineState, b: LineState) -> (out: LineState)
        ensures
            out == nand_of(a, b),
    {
        match (a, b) {
            (LineState::Floating, _) => LineState::Floating,
            (_, LineState::Floating) => LineState::Floating,
            (LineState::Conflict, _) => LineState::Conflict,
            (_, LineState::Conflict) => LineState::Conflict,
            (LineState::High, LineState::High) => LineState::Low,
            _ => LineState::High,
        }
    }
}

impl Element for NandElem {
    open spec fn owned(&self) -> Seq<NodeIndex> {
        self.claims()
    }

    open spec fn demand(&self, c: Circuit) -> Option<Demand> {
        Some(self.wants(c))
    }

    fn step(&self, c: &mut NodeCollection) {
        proof {
            assert(c@.has_node(self.owned()[0]));
            assert(c@.has_node(self.owned()[1]));
        }
        let res = NandElem::nand(self.a.read(c), self.b.read(c));
        self.output.write(res, c);
    }

    fn get_nodes(&self) -> (nodes: Vec<NodeIndex>) {
        let mut v = Vec::new();
        v.push(self.a);
        v.push(self.b);
        v.push(self.output);
        assert(v@ =~= self.claims());
        v
    }
}

} // verus!
