//! Circuits that settle to what they are built to compute: a NAND gate
//! between two pins, and an AND gate between two pins.

use vstd::prelude::*;
use crate::assembly::{links_idle, lemma_claimed_all, lemma_grown, lemma_linked};
use crate::circuit::{Action, Circuit};
use crate::coherence::{
    lemma_absorbed, lemma_blank_is_coherent, lemma_coherent_followed, lemma_rest_is_level,
    lemma_rest_is_ruled,
};
use crate::element::Primitive;
use crate::logic_gates::{AndGate, NandGate};
use crate::nand::{nand_of, NandElem};
use crate::netlist::Netlist;
use crate::obedience::{claims_idle, lemma_obedient_absorbed, lemma_obedient_followed};
use crate::part::Part;
use crate::pin::{Pin, PinElem};
use crate::sim::{Influence, LineState, Link, NodeIndex, PropogationDelay};
use crate::zones::{
    confined, drives_within, joined, lemma_confined_followed, lemma_rest_reads_the_source, same_build,
    writes_within, zoned,
};

verus! {

/// The session that stages a NAND gate and a pin for each of its inputs,
/// linked to the input with a delay of `da` and of `db`. The inputs are
/// the nodes 0 and 1, the output is node 2, the pins are the nodes 3 and 4.
pub open spec fn nand_between_pins(da: PropogationDelay, db: PropogationDelay) -> Netlist {
    let start = Netlist::starting_at(0);
    let gate = NandGate::at(start);
    let n1 = NandGate::staged(start);
    let pin_a = Pin::at(n1);
    let n2 = Pin::staged(n1);
    let pin_b = Pin::at(n2);
    Pin::staged(n2).with_link(pin_a.node, gate.a, da).with_link(pin_b.node, gate.b, db)
}

/// The pins of the NAND gate between pins.
pub open spec fn pins() -> Set<NodeIndex> {
    set![NodeIndex(3), NodeIndex(4)]
}

/// The parts that no link joins: the first input with its pin, the second
/// input with its pin, and the output.
pub open spec fn part_of(n: NodeIndex) -> int {
    if n == NodeIndex(0) || n == NodeIndex(3) {
        0
    } else if n == NodeIndex(1) || n == NodeIndex(4) {
        1
    } else {
        2
    }
}

/// What absorbing the NAND gate between pins into an empty simulation
/// leaves: five nodes that hold nothing, three elements, two links, and
/// nothing pending.
#[verifier::rlimit(60)]
pub proof fn lemma_nand_between_pins_built(da: PropogationDelay, db: PropogationDelay)
    ensures
        ({
            let nl = nand_between_pins(da, db);
            let c = Circuit::empty().absorbed(nl).0;
            &&& Circuit::empty().can_absorb(nl)
            &&& Circuit::empty().absorbed(nl).1
            &&& c.elements == seq![
                Primitive::Nand(NandElem { a: NodeIndex(0), b: NodeIndex(1), output: NodeIndex(2) }),
                Primitive::Pin(PinElem { node: NodeIndex(3) }),
                Primitive::Pin(PinElem { node: NodeIndex(4) }),
            ]
            &&& c.nodes.len() == 5
            &&& c.pending.len() == 0
            &&& forall|n: int, f: NodeIndex| 0 <= n < 5 ==> !(#[trigger] c.nodes[n].influences.contains_key(f))
            &&& c.nodes[0].links == seq![Link { linked_to: NodeIndex(3), delay: da, id: 1 }]
            &&& c.nodes[1].links == seq![Link { linked_to: NodeIndex(4), delay: db, id: 2 }]
            &&& c.nodes[2].links == Seq::<Link>::empty()
            &&& c.nodes[3].links == seq![Link { linked_to: NodeIndex(0), delay: da, id: 1 }]
            &&& c.nodes[4].links == seq![Link { linked_to: NodeIndex(1), delay: db, id: 2 }]
        }),
{
    let nl = nand_between_pins(da, db);
    let empty = Circuit::empty();
    let gate = Primitive::Nand(NandElem { a: NodeIndex(0), b: NodeIndex(1), output: NodeIndex(2) });
    let pin_a = Primitive::Pin(PinElem { node: NodeIndex(3) });
    let pin_b = Primitive::Pin(PinElem { node: NodeIndex(4) });
    assert(nl.elements =~= seq![gate, pin_a, pin_b]);
    assert(nl.links =~= seq![(NodeIndex(3), NodeIndex(0), da), (NodeIndex(4), NodeIndex(1), db)]);
    assert(nl.next == 5);
    assert(gate.claims() =~= seq![NodeIndex(0), NodeIndex(1), NodeIndex(2)]);
    assert(pin_a.claims() =~= seq![NodeIndex(3)]);
    assert(pin_b.claims() =~= seq![NodeIndex(4)]);
    assert(empty.can_absorb(nl));

    // the elements join one after the other
    assert(empty.can_adopt(gate));
    let c1 = empty.adopted(gate);
    lemma_claimed_all(empty, gate.claims(), empty.next_element());
    assert(c1.nodes.len() == 3) by {
        let k = choose|k: int|
            0 <= k < gate.claims().len() && c1.nodes.len() == (#[trigger] gate.claims()[k]).0 + 1;
        assert(gate.claims()[2].0 < c1.nodes.len());
    }
    assert(c1.elements =~= seq![gate]);
    assert(c1.can_adopt(pin_a));
    let c2 = c1.adopted(pin_a);
    lemma_claimed_all(c1, pin_a.claims(), c1.next_element());
    assert(c2.nodes.len() == 4) by {
        assert(pin_a.claims()[0].0 < c2.nodes.len());
    }
    assert(c2.elements =~= seq![gate, pin_a]);
    assert(c2.can_adopt(pin_b));
    let c3 = c2.adopted(pin_b);
    lemma_claimed_all(c2, pin_b.claims(), c2.next_element());
    assert(c3.nodes.len() == 5) by {
        assert(pin_b.claims()[0].0 < c3.nodes.len());
    }
    assert(c3.elements =~= seq![gate, pin_a, pin_b]);
    let rest1 = nl.elements.drop_first();
    let rest2 = rest1.drop_first();
    let rest3 = rest2.drop_first();
    assert(nl.elements.first() == gate);
    assert(rest1.first() == pin_a);
    assert(rest2.first() == pin_b);
    assert(rest3.len() == 0);
    assert(c3.adopted_all(rest3) == (c3, true));
    assert(c2.adopted_all(rest2) == (c3, true));
    assert(c1.adopted_all(rest1) == (c3, true));
    assert(empty.adopted_all(nl.elements) == (c3, true));

    // the nodes that were issued exist already
    lemma_grown(c3, nl.next);
    let g = c3.grown(nl.next);
    assert(g == c3);
    assert forall|n: int| 0 <= n < 5 implies (#[trigger] c3.nodes[n]).links == Seq::<Link>::empty()
        && c3.nodes[n].output_state == LineState::Floating && c3.nodes[n].influences == Map::<
        NodeIndex,
        Influence,
    >::empty() by {
        assert(c2.nodes.len() == 4);
    }

    // the links are laid one after the other
    let first = nl.links.drop_last();
    assert(first =~= seq![(NodeIndex(3), NodeIndex(0), da)]);
    assert(first.drop_last() =~= Seq::empty());
    assert(nl.links.last() == (NodeIndex(4), NodeIndex(1), db));
    assert(first.last() == (NodeIndex(3), NodeIndex(0), da));
    let l1 = g.linked(NodeIndex(3), NodeIndex(0), da);
    lemma_linked(g, NodeIndex(3), NodeIndex(0), da);
    let l2 = l1.linked(NodeIndex(4), NodeIndex(1), db);
    lemma_linked(l1, NodeIndex(4), NodeIndex(1), db);
    assert(g.linked_all(first.drop_last()) == g);
    assert(g.linked_all(first) == l1);
    assert(g.linked_all(nl.links) == l2);
    assert(l1.nodes.len() == 5);
    assert(l2.nodes.len() == 5);
    assert(l2.nodes[0].links =~= seq![Link { linked_to: NodeIndex(3), delay: da, id: 1 }]);
    assert(l2.nodes[1].links =~= seq![Link { linked_to: NodeIndex(4), delay: db, id: 2 }]);
    assert(l2.nodes[2].links =~= Seq::<Link>::empty());
    assert(l2.nodes[3].links =~= seq![Link { linked_to: NodeIndex(0), delay: da, id: 1 }]);
    assert(l2.nodes[4].links =~= seq![Link { linked_to: NodeIndex(1), delay: db, id: 2 }]);

    assert(empty.absorbed(nl).0 == l2);
}

/// A NAND gate between two pins settles to the NAND of what the pins are
/// driven to. Absorb the NAND gate and its pins into an empty simulation;
/// write to the pins and turn the event loop, in any order. If the
/// circuit is at rest in the end and each pin is driven to Low or to High,
/// the output of the NAND gate reads the NAND of the two.
#[verifier::rlimit(60)]
pub proof fn lemma_nand_settles(da: PropogationDelay, db: PropogationDelay, script: Seq<Action>)
    requires
        Circuit::empty().absorbed(nand_between_pins(da, db)).0.can_follow(script),
        forall|k: int| 0 <= k < script.len() ==> writes_within(#[trigger] script[k], pins()),
        Circuit::empty().absorbed(nand_between_pins(da, db)).0.followed(script).quiescent(),
        ({
            let c = Circuit::empty().absorbed(nand_between_pins(da, db)).0.followed(script);
            let a = c.wire(NodeIndex(3)).output_state;
            let b = c.wire(NodeIndex(4)).output_state;
            (a == LineState::Low || a == LineState::High) && (b == LineState::Low || b == LineState::High)
        }),
    ensures
        ({
            let c = Circuit::empty().absorbed(nand_between_pins(da, db)).0.followed(script);
            c.reading(NodeIndex(2)) == nand_of(c.wire(NodeIndex(3)).output_state, c.wire(NodeIndex(4)).output_state)
        }),
{
    let nl = nand_between_pins(da, db);
    let empty = Circuit::empty();
    let built = empty.absorbed(nl).0;
    let sources = set![NodeIndex(2), NodeIndex(3), NodeIndex(4)];
    let zone = |n: NodeIndex| part_of(n);
    let gate = Primitive::Nand(NandElem { a: NodeIndex(0), b: NodeIndex(1), output: NodeIndex(2) });
    lemma_nand_between_pins_built(da, db);

    // what holds of the circuit as it was built
    assert(empty.wf());
    assert(empty.blank());
    lemma_blank_is_coherent(empty);
    assert(links_idle(empty, nl.links));
    lemma_absorbed(empty, nl);
    assert(empty.obedient());
    assert(claims_idle(empty, nl.elements));
    lemma_obedient_absorbed(empty, nl);
    assert(zoned(built, zone)) by {
        assert forall|n: int, j: int|
            0 <= n < built.nodes.len() && 0 <= j < built.nodes[n].links.len() implies zone(
            NodeIndex(n as usize),
        ) == zone((#[trigger] built.nodes[n].links[j]).linked_to) by {}
    }
    assert(confined(built, zone, sources)) by {
        assert forall|n: NodeIndex, x: Influence| !(#[trigger] built.has(n, x)) by {
            if built.holds(n, x) {
                assert(built.nodes[n.0 as int].influences.contains_key(x.force_generator));
            }
            if built.brings(n, x) {
                let w = choose|w: crate::sim::LineStateEvent|
                    #[trigger] built.pending.contains(w) && w.node == n && crate::coherence::forcing_of(w) == x;
                assert(built.pending.contains(w));
            }
        }
    }
    assert(drives_within(built, sources));
    assert(built.spared(script)) by {
        assert forall|k: int| 0 <= k < script.len() implies built.spares(#[trigger] script[k]) by {
            assert(writes_within(script[k], pins()));
            assert(built.undriven(NodeIndex(3)));
            assert(built.undriven(NodeIndex(4)));
        }
    }
    assert forall|k: int| 0 <= k < script.len() implies writes_within(#[trigger] script[k], sources) by {
        assert(writes_within(script[k], pins()));
    }

    // what holds of it at rest
    lemma_coherent_followed(built, script);
    lemma_obedient_followed(built, script);
    lemma_confined_followed(built, zone, sources, script);
    let c = built.followed(script);
    assert(same_build(built, c));
    let (ia, ib, out, pa, pb) = (NodeIndex(0), NodeIndex(1), NodeIndex(2), NodeIndex(3), NodeIndex(4));

    // each input reads what its pin is driven to
    assert(c.nodes[3].links == built.nodes[3].links);
    assert(c.nodes[4].links == built.nodes[4].links);
    assert(joined(c, seq![pa, ia])) by {
        assert(c.wire(pa).links[0].linked_to == ia);
    }
    assert(joined(c, seq![pb, ib])) by {
        assert(c.wire(pb).links[0].linked_to == ib);
    }
    lemma_rest_reads_the_source(c, zone, sources, seq![pa, ia]);
    lemma_rest_reads_the_source(c, zone, sources, seq![pb, ib]);

    // a signal has reached the NAND gate, so it has its way
    assert(c.elements[0] == gate);
    assert(c.heeds(c.elements[0]));
    lemma_rest_is_level(c, pa, 0, pa);
    lemma_rest_is_ruled(c, pa);
    assert(!c.quiet(gate)) by {
        assert(gate.claims()[0] == ia);
        assert(c.wire(gate.claims()[0]).influences.contains_key(pa));
    }
    let wanted = nand_of(c.reading(ia), c.reading(ib));
    assert(c.wire(out).output_state == wanted);

    // the output reads what it is driven to
    assert(joined(c, seq![out]));
    lemma_rest_reads_the_source(c, zone, sources, seq![out]);
}

/// The session that stages an AND gate and a pin for each of its inputs,
/// linked to the input with a delay of `da` and of `db`. The inputs are
/// the nodes 0 and 1, the output is node 5, the pins are the nodes 6 and 7.
pub open spec fn and_between_pins(da: PropogationDelay, db: PropogationDelay) -> Netlist {
    let start = Netlist::starting_at(0);
    let gate = AndGate::at(start);
    let n1 = AndGate::staged(start);
    let pin_a = Pin::at(n1);
    let n2 = Pin::staged(n1);
    let pin_b = Pin::at(n2);
    Pin::staged(n2).with_link(pin_a.node, gate.a, da).with_link(pin_b.node, gate.b, db)
}

/// The pins of the AND gate between pins.
pub open spec fn and_pins() -> Set<NodeIndex> {
    set![NodeIndex(6), NodeIndex(7)]
}

/// The parts of the AND gate between pins that no link joins: each input
/// with its pin, the output of the first NAND gate with the inputs of the
/// second, and the output.
pub open spec fn and_part_of(n: NodeIndex) -> int {
    if n == NodeIndex(0) || n == NodeIndex(6) {
        0
    } else if n == NodeIndex(1) || n == NodeIndex(7) {
        1
    } else if n == NodeIndex(2) || n == NodeIndex(3) || n == NodeIndex(4) {
        2
    } else {
        3
    }
}

/// What absorbing the AND gate between pins into an empty simulation
/// leaves: eight nodes that hold nothing, four elements, four links, and
/// nothing pending.
#[verifier::rlimit(80)]
pub proof fn lemma_and_between_pins_built(da: PropogationDelay, db: PropogationDelay)
    ensures
        ({
            let nl = and_between_pins(da, db);
            let c = Circuit::empty().absorbed(nl).0;
            let d = PropogationDelay::standard();
            &&& Circuit::empty().can_absorb(nl)
            &&& Circuit::empty().absorbed(nl).1
            &&& c.elements == seq![
                Primitive::Nand(NandElem { a: NodeIndex(0), b: NodeIndex(1), output: NodeIndex(2) }),
                Primitive::Nand(NandElem { a: NodeIndex(3), b: NodeIndex(4), output: NodeIndex(5) }),
                Primitive::Pin(PinElem { node: NodeIndex(6) }),
                Primitive::Pin(PinElem { node: NodeIndex(7) }),
            ]
            &&& c.nodes.len() == 8
            &&& c.pending.len() == 0
            &&& forall|n: int, f: NodeIndex| 0 <= n < 8 ==> !(#[trigger] c.nodes[n].influences.contains_key(f))
            &&& c.nodes[0].links == seq![Link { linked_to: NodeIndex(6), delay: da, id: 3 }]
            &&& c.nodes[1].links == seq![Link { linked_to: NodeIndex(7), delay: db, id: 4 }]
            &&& c.nodes[2].links == seq![
                Link { linked_to: NodeIndex(3), delay: d, id: 1 },
                Link { linked_to: NodeIndex(4), delay: d, id: 2 },
            ]
            &&& c.nodes[3].links == seq![Link { linked_to: NodeIndex(2), delay: d, id: 1 }]
            &&& c.nodes[4].links == seq![Link { linked_to: NodeIndex(2), delay: d, id: 2 }]
            &&& c.nodes[5].links == Seq::<Link>::empty()
            &&& c.nodes[6].links == seq![Link { linked_to: NodeIndex(0), delay: da, id: 3 }]
            &&& c.nodes[7].links == seq![Link { linked_to: NodeIndex(1), delay: db, id: 4 }]
        }),
{
    let nl = and_between_pins(da, db);
    let d = PropogationDelay::standard();
    let empty = Circuit::empty();
    let nander = Primitive::Nand(NandElem { a: NodeIndex(0), b: NodeIndex(1), output: NodeIndex(2) });
    let notter = Primitive::Nand(NandElem { a: NodeIndex(3), b: NodeIndex(4), output: NodeIndex(5) });
    let pin_a = Primitive::Pin(PinElem { node: NodeIndex(6) });
    let pin_b = Primitive::Pin(PinElem { node: NodeIndex(7) });
    let (w1, w2, w3, w4) = (
        (NodeIndex(2), NodeIndex(3), d),
        (NodeIndex(2), NodeIndex(4), d),
        (NodeIndex(6), NodeIndex(0), da),
        (NodeIndex(7), NodeIndex(1), db),
    );
    assert(nl.elements =~= seq![nander, notter, pin_a, pin_b]);
    assert(nl.links =~= seq![w1, w2, w3, w4]);
    assert(nl.next == 8);
    assert(nander.claims() =~= seq![NodeIndex(0), NodeIndex(1), NodeIndex(2)]);
    assert(notter.claims() =~= seq![NodeIndex(3), NodeIndex(4), NodeIndex(5)]);
    assert(pin_a.claims() =~= seq![NodeIndex(6)]);
    assert(pin_b.claims() =~= seq![NodeIndex(7)]);
    assert(empty.can_absorb(nl));

    // the elements join one after the other
    assert(empty.can_adopt(nander));
    let c1 = empty.adopted(nander);
    lemma_claimed_all(empty, nander.claims(), empty.next_element());
    assert(c1.nodes.len() == 3) by {
        assert(nander.claims()[2].0 < c1.nodes.len());
    }
    assert(c1.elements =~= seq![nander]);
    assert(c1.can_adopt(notter));
    let c2 = c1.adopted(notter);
    lemma_claimed_all(c1, notter.claims(), c1.next_element());
    assert(c2.nodes.len() == 6) by {
        assert(notter.claims()[2].0 < c2.nodes.len());
    }
    assert(c2.elements =~= seq![nander, notter]);
    assert(c2.can_adopt(pin_a));
    let c3 = c2.adopted(pin_a);
    lemma_claimed_all(c2, pin_a.claims(), c2.next_element());
    assert(c3.nodes.len() == 7) by {
        assert(pin_a.claims()[0].0 < c3.nodes.len());
    }
    assert(c3.elements =~= seq![nander, notter, pin_a]);
    assert(c3.can_adopt(pin_b));
    let c4 = c3.adopted(pin_b);
    lemma_claimed_all(c3, pin_b.claims(), c3.next_element());
    assert(c4.nodes.len() == 8) by {
        assert(pin_b.claims()[0].0 < c4.nodes.len());
    }
    assert(c4.elements =~= seq![nander, notter, pin_a, pin_b]);
    let rest1 = nl.elements.drop_first();
    let rest2 = rest1.drop_first();
    let rest3 = rest2.drop_first();
    let rest4 = rest3.drop_first();
    assert(nl.elements.first() == nander);
    assert(rest1.first() == notter);
    assert(rest2.first() == pin_a);
    assert(rest3.first() == pin_b);
    assert(rest4.len() == 0);
    assert(c4.adopted_all(rest4) == (c4, true));
    assert(c3.adopted_all(rest3) == (c4, true));
    assert(c2.adopted_all(rest2) == (c4, true));
    assert(c1.adopted_all(rest1) == (c4, true));
    assert(empty.adopted_all(nl.elements) == (c4, true));

    // the nodes that were issued exist already
    lemma_grown(c4, nl.next);
    let g = c4.grown(nl.next);
    assert(g == c4);
    assert forall|n: int| 0 <= n < 8 implies (#[trigger] c4.nodes[n]).links == Seq::<Link>::empty()
        && c4.nodes[n].output_state == LineState::Floating && c4.nodes[n].influences == Map::<
        NodeIndex,
        Influence,
    >::empty() by {
        assert(c1.nodes.len() == 3);
        assert(c2.nodes.len() == 6);
        assert(c3.nodes.len() == 7);
    }

    // the links are laid one after the other
    let upto3 = nl.links.drop_last();
    let upto2 = upto3.drop_last();
    let upto1 = upto2.drop_last();
    assert(upto3 =~= seq![w1, w2, w3]);
    assert(upto2 =~= seq![w1, w2]);
    assert(upto1 =~= seq![w1]);
    assert(upto1.drop_last() =~= Seq::empty());
    assert(nl.links.last() == w4);
    assert(upto3.last() == w3);
    assert(upto2.last() == w2);
    assert(upto1.last() == w1);
    let l1 = g.linked(w1.0, w1.1, w1.2);
    lemma_linked(g, w1.0, w1.1, w1.2);
    let l2 = l1.linked(w2.0, w2.1, w2.2);
    lemma_linked(l1, w2.0, w2.1, w2.2);
    let l3 = l2.linked(w3.0, w3.1, w3.2);
    lemma_linked(l2, w3.0, w3.1, w3.2);
    let l4 = l3.linked(w4.0, w4.1, w4.2);
    lemma_linked(l3, w4.0, w4.1, w4.2);
    assert(g.linked_all(upto1.drop_last()) == g);
    assert(g.linked_all(upto1) == l1);
    assert(g.linked_all(upto2) == l2);
    assert(g.linked_all(upto3) == l3);
    assert(g.linked_all(nl.links) == l4);
    assert(l1.nodes.len() == 8 && l2.nodes.len() == 8 && l3.nodes.len() == 8 && l4.nodes.len() == 8);
    assert(l4.nodes[0].links =~= seq![Link { linked_to: NodeIndex(6), delay: da, id: 3 }]);
    assert(l4.nodes[1].links =~= seq![Link { linked_to: NodeIndex(7), delay: db, id: 4 }]);
    assert(l4.nodes[2].links =~= seq![
        Link { linked_to: NodeIndex(3), delay: d, id: 1 },
        Link { linked_to: NodeIndex(4), delay: d, id: 2 },
    ]);
    assert(l4.nodes[3].links =~= seq![Link { linked_to: NodeIndex(2), delay: d, id: 1 }]);
    assert(l4.nodes[4].links =~= seq![Link { linked_to: NodeIndex(2), delay: d, id: 2 }]);
    assert(l4.nodes[5].links =~= Seq::<Link>::empty());
    assert(l4.nodes[6].links =~= seq![Link { linked_to: NodeIndex(0), delay: da, id: 3 }]);
    assert(l4.nodes[7].links =~= seq![Link { linked_to: NodeIndex(1), delay: db, id: 4 }]);

    assert(empty.absorbed(nl).0 == l4);
}

/// An AND gate between two pins settles to the AND of what the pins are
/// driven to. Absorb the AND gate and its pins into an empty simulation;
/// write to the pins and turn the event loop, in any order. If the
/// circuit is at rest in the end and each pin is driven to Low or to High,
/// the output of the AND gate reads High if both pins are driven to High,
/// and Low if not.
#[verifier::rlimit(80)]
pub proof fn lemma_and_settles(da: PropogationDelay, db: PropogationDelay, script: Seq<Action>)
    requires
        Circuit::empty().absorbed(and_between_pins(da, db)).0.can_follow(script),
        forall|k: int| 0 <= k < script.len() ==> writes_within(#[trigger] script[k], and_pins()),
        Circuit::empty().absorbed(and_between_pins(da, db)).0.followed(script).quiescent(),
        ({
            let c = Circuit::empty().absorbed(and_between_pins(da, db)).0.followed(script);
            let a = c.wire(NodeIndex(6)).output_state;
            let b = c.wire(NodeIndex(7)).output_state;
            (a == LineState::Low || a == LineState::High) && (b == LineState::Low || b == LineState::High)
        }),
    ensures
        ({
            let c = Circuit::empty().absorbed(and_between_pins(da, db)).0.followed(script);
            let a = c.wire(NodeIndex(6)).output_state;
            let b = c.wire(NodeIndex(7)).output_state;
            c.reading(NodeIndex(5)) == if a == LineState::High && b == LineState::High {
                LineState::High
            } else {
                LineState::Low
            }
        }),
{
    let nl = and_between_pins(da, db);
    let empty = Circuit::empty();
    let built = empty.absorbed(nl).0;
    let sources = set![NodeIndex(2), NodeIndex(5), NodeIndex(6), NodeIndex(7)];
    let zone = |n: NodeIndex| and_part_of(n);
    let nander = Primitive::Nand(NandElem { a: NodeIndex(0), b: NodeIndex(1), output: NodeIndex(2) });
    let notter = Primitive::Nand(NandElem { a: NodeIndex(3), b: NodeIndex(4), output: NodeIndex(5) });
    lemma_and_between_pins_built(da, db);

    // what holds of the circuit as it was built
    assert(empty.wf());
    assert(empty.blank());
    lemma_blank_is_coherent(empty);
    assert(links_idle(empty, nl.links));
    lemma_absorbed(empty, nl);
    assert(empty.obedient());
    assert(claims_idle(empty, nl.elements));
    lemma_obedient_absorbed(empty, nl);
    assert(zoned(built, zone)) by {
        assert forall|n: int, j: int|
            0 <= n < built.nodes.len() && 0 <= j < built.nodes[n].links.len() implies zone(
            NodeIndex(n as usize),
        ) == zone((#[trigger] built.nodes[n].links[j]).linked_to) by {}
    }
    assert(confined(built, zone, sources)) by {
        assert forall|n: NodeIndex, x: Influence| !(#[trigger] built.has(n, x)) by {
            if built.holds(n, x) {
                assert(built.nodes[n.0 as int].influences.contains_key(x.force_generator));
            }
            if built.brings(n, x) {
                let w = choose|w: crate::sim::LineStateEvent|
                    #[trigger] built.pending.contains(w) && w.node == n && crate::coherence::forcing_of(w) == x;
                assert(built.pending.contains(w));
            }
        }
    }
    assert(drives_within(built, sources));
    assert(built.spared(script)) by {
        assert forall|k: int| 0 <= k < script.len() implies built.spares(#[trigger] script[k]) by {
            assert(writes_within(script[k], and_pins()));
            assert(built.undriven(NodeIndex(6)));
            assert(built.undriven(NodeIndex(7)));
        }
    }
    assert forall|k: int| 0 <= k < script.len() implies writes_within(#[trigger] script[k], sources) by {
        assert(writes_within(script[k], and_pins()));
    }

    // what holds of it at rest
    lemma_coherent_followed(built, script);
    lemma_obedient_followed(built, script);
    lemma_confined_followed(built, zone, sources, script);
    let c = built.followed(script);
    assert(same_build(built, c));
    let (ia, ib, mid, ja, jb, out, pa, pb) = (
        NodeIndex(0),
        NodeIndex(1),
        NodeIndex(2),
        NodeIndex(3),
        NodeIndex(4),
        NodeIndex(5),
        NodeIndex(6),
        NodeIndex(7),
    );
    assert(c.nodes[2].links == built.nodes[2].links);
    assert(c.nodes[6].links == built.nodes[6].links);
    assert(c.nodes[7].links == built.nodes[7].links);

    // each input reads what its pin is driven to
    assert(joined(c, seq![pa, ia])) by {
        assert(c.wire(pa).links[0].linked_to == ia);
    }
    assert(joined(c, seq![pb, ib])) by {
        assert(c.wire(pb).links[0].linked_to == ib);
    }
    lemma_rest_reads_the_source(c, zone, sources, seq![pa, ia]);
    lemma_rest_reads_the_source(c, zone, sources, seq![pb, ib]);

    // a signal has reached the first NAND gate, so it has its way
    assert(c.elements[0] == nander);
    assert(c.heeds(c.elements[0]));
    lemma_rest_is_level(c, pa, 0, pa);
    lemma_rest_is_ruled(c, pa);
    assert(!c.quiet(nander)) by {
        assert(nander.claims()[0] == ia);
        assert(c.wire(nander.claims()[0]).influences.contains_key(pa));
    }
    let between = nand_of(c.reading(ia), c.reading(ib));
    assert(c.wire(mid).output_state == between);

    // the inputs of the second NAND gate read what the first drives
    assert(joined(c, seq![mid, ja])) by {
        assert(c.wire(mid).links[0].linked_to == ja);
    }
    assert(joined(c, seq![mid, jb])) by {
        assert(c.wire(mid).links[1].linked_to == jb);
    }
    lemma_rest_reads_the_source(c, zone, sources, seq![mid, ja]);
    lemma_rest_reads_the_source(c, zone, sources, seq![mid, jb]);

    // a signal has reached the second NAND gate, so it has its way
    assert(c.elements[1] == notter);
    assert(c.heeds(c.elements[1]));
    lemma_rest_is_level(c, mid, 0, mid);
    lemma_rest_is_ruled(c, mid);
    assert(!c.quiet(notter)) by {
        assert(notter.claims()[0] == ja);
        assert(c.wire(notter.claims()[0]).influences.contains_key(mid));
    }
    assert(c.wire(out).output_state == nand_of(between, between));

    // the output reads what it is driven to
    assert(joined(c, seq![out]));
    lemma_rest_reads_the_source(c, zone, sources, seq![out]);
}

} // verus!
