//! The mathematical model of a building session: the nodes it has issued,
//! the elements it has registered, and the links it has declared.

use vstd::prelude::*;
use crate::element::Primitive;
use crate::sim::{NodeIndex, PropogationDelay};

verus! {

/// A declared link: its two ends and its delay.
pub type Wiring = (NodeIndex, NodeIndex, PropogationDelay);

/// What a building session has staged.
pub struct Netlist {
    /// The index that the next new node gets.
    pub next: nat,
    /// The elements registered, in order.
    pub elements: Seq<Primitive>,
    /// The links declared, in order.
    pub links: Seq<Wiring>,
}

impl Netlist {
    /// A session that has staged nothing and issues node indices from `first`.
    pub open spec fn starting_at(first: nat) -> Netlist {
        Netlist { next: first, elements: Seq::empty(), links: Seq::empty() }
    }

    /// The node index that this session issues next.
    pub open spec fn fresh(self) -> NodeIndex {
        NodeIndex(self.next as usize)
    }

    /// The node index that this session issues `k` nodes from now.
    pub open spec fn ahead(self, k: nat) -> NodeIndex {
        NodeIndex((self.next + k) as usize)
    }

    /// This session after it issued one node index.
    pub open spec fn with_node(self) -> Netlist {
        Netlist { next: self.next + 1, ..self }
    }

    /// This session after it issued `k` node indices.
    pub open spec fn with_nodes(self, k: nat) -> Netlist {
        Netlist { next: self.next + k, ..self }
    }

    /// This session after it registered `element`.
    pub open spec fn with_element(self, element: Primitive) -> Netlist {
        Netlist { elements: self.elements.push(element), ..self }
    }

    /// This session after it declared a link between `a` and `b`.
    pub open spec fn with_link(self, a: NodeIndex, b: NodeIndex, delay: PropogationDelay) -> Netlist {
        Netlist { links: self.links.push((a, b, delay)), ..self }
    }

    /// This session after it declared a link between `a[i]` and `b[i]` for
    /// each of the first `count` positions, in order.
    pub open spec fn with_links(
        self,
        a: Seq<NodeIndex>,
        b: Seq<NodeIndex>,
        delay: PropogationDelay,
        count: nat,
    ) -> Netlist
        decreases count,
    {
        if count == 0 {
            self
        } else {
            self.with_links(a, b, delay, (count - 1) as nat).with_link(
                a[count - 1],
                b[count - 1],
                delay,
            )
        }
    }

    /// This session after it declared a link between `a` and each of the
    /// first `count` nodes of `b`, in order.
    pub open spec fn with_fan(self, a: NodeIndex, b: Seq<NodeIndex>, delay: PropogationDelay, count: nat) -> Netlist
        decreases count,
    {
        if count == 0 {
            self
        } else {
            self.with_fan(a, b, delay, (count - 1) as nat).with_link(a, b[count - 1], delay)
        }
    }

    /// Whether this session has grown out of `earlier` by staging more:
    /// what `earlier` held is still there, in the same places.
    pub open spec fn extends(self, earlier: Netlist) -> bool {
        &&& earlier.next <= self.next
        &&& earlier.elements.is_prefix_of(self.elements)
        &&& earlier.links.is_prefix_of(self.links)
    }
}

/// Declaring links pairwise stages nothing but links.
pub proof fn lemma_with_links(nl: Netlist, a: Seq<NodeIndex>, b: Seq<NodeIndex>, delay: PropogationDelay, count: nat)
    ensures
        nl.with_links(a, b, delay, count).next == nl.next,
        nl.with_links(a, b, delay, count).elements == nl.elements,
        nl.with_links(a, b, delay, count).links.len() == nl.links.len() + count,
        nl.with_links(a, b, delay, count).extends(nl),
    decreases count,
{
    if count > 0 {
        lemma_with_links(nl, a, b, delay, (count - 1) as nat);
    }
}

/// Declaring links from one node stages nothing but links.
pub proof fn lemma_with_fan(nl: Netlist, a: NodeIndex, b: Seq<NodeIndex>, delay: PropogationDelay, count: nat)
    ensures
        nl.with_fan(a, b, delay, count).next == nl.next,
        nl.with_fan(a, b, delay, count).elements == nl.elements,
        nl.with_fan(a, b, delay, count).links.len() == nl.links.len() + count,
        nl.with_fan(a, b, delay, count).extends(nl),
    decreases count,
{
    if count > 0 {
        lemma_with_fan(nl, a, b, delay, (count - 1) as nat);
    }
}

/// Declaring links pairwise looks only at the first `count` nodes of each
/// side.
pub proof fn lemma_with_links_prefix(
    nl: Netlist,
    a: Seq<NodeIndex>,
    b: Seq<NodeIndex>,
    a2: Seq<NodeIndex>,
    b2: Seq<NodeIndex>,
    delay: PropogationDelay,
    count: nat,
)
    requires
        forall|i: int| 0 <= i < count ==> a[i] == a2[i],
        forall|i: int| 0 <= i < count ==> b[i] == b2[i],
    ensures
        nl.with_links(a, b, delay, count) == nl.with_links(a2, b2, delay, count),
    decreases count,
{
    if count > 0 {
        lemma_with_links_prefix(nl, a, b, a2, b2, delay, (count - 1) as nat);
    }
}

} // verus!
