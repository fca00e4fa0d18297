//! The XOR, OR and NOT gates settle to their truth tables.

use vstd::prelude::*;
use crate::circuit::{Action, Circuit};
use crate::element::Primitive;
use crate::logic_gates::{NotGate, OrGate, XorGate};
use crate::netlist::Netlist;
use crate::part::Part;
use crate::pin::{Pin, PinElem};
use crate::rest::{
    distinct_claims, has_link, lemma_built_and_followed, lemma_leads_over_one, lemma_leads_over_two,
    lemma_nand_at_rest, lemma_source_at_rest, lemma_zone_fits_both, sound_script, sound_session,
    sound_sources, zone_fits,
};
use crate::sim::{LineState, NodeIndex, PropogationDelay};
use crate::sums::{gate_on, lemma_nand_flat, lemma_or_flat, lemma_xor_flat, nand_on, nands, node, or_links, wired, xor_links};
use crate::zones::confined;

verus! {

/// The session that stages an XOR gate on the nodes 0 to 11 and a pin for
/// each of its inputs: node 12 for `a`, node 13 for `b`. The output is
/// node 11.
pub open spec fn xor_between_pins(da: PropogationDelay, db: PropogationDelay) -> Netlist {
    let start = Netlist::starting_at(0);
    let gate = XorGate::at(start);
    let n1 = XorGate::staged(start);
    let pin_a = Pin::at(n1);
    let n2 = Pin::staged(n1);
    let pin_b = Pin::at(n2);
    Pin::staged(n2).with_link(pin_a.node, gate.a, da).with_link(pin_b.node, gate.b, db)
}

/// The pins of the XOR gate between pins.
pub open spec fn xor_pins() -> Set<NodeIndex> {
    Set::new(|n: NodeIndex| 12 <= n.0 < 14)
}

/// The nodes of the XOR gate between pins that are written or driven: the
/// pins and the outputs of the NAND gates.
pub open spec fn xor_sources() -> Set<NodeIndex> {
    Set::new(|n: NodeIndex| n.0 < 14 && (n.0 >= 12 || n.0 % 3 == 2))
}

/// The source of the part of the XOR gate between pins in which node `n`
/// lies.
pub open spec fn xor_part_of(n: NodeIndex) -> int {
    if n.0 == 0 || n.0 == 3 {
        12
    } else if n.0 == 1 || n.0 == 7 {
        13
    } else if n.0 == 4 || n.0 == 6 {
        2
    } else if n.0 == 9 {
        5
    } else if n.0 == 10 {
        8
    } else {
        n.0 as int
    }
}

/// The parts of the XOR gate between pins that no link joins.
pub open spec fn xor_zone() -> spec_fn(NodeIndex) -> int {
    |n: NodeIndex| xor_part_of(n)
}

/// Whether the links of the XOR gate between pins join their ends both
/// ways in `c`.
pub open spec fn xor_wired(c: Circuit) -> bool {
    &&& has_link(c, node(2), node(4))
    &&& has_link(c, node(4), node(2))
    &&& has_link(c, node(2), node(6))
    &&& has_link(c, node(6), node(2))
    &&& has_link(c, node(0), node(3))
    &&& has_link(c, node(3), node(0))
    &&& has_link(c, node(1), node(7))
    &&& has_link(c, node(7), node(1))
    &&& has_link(c, node(5), node(9))
    &&& has_link(c, node(9), node(5))
    &&& has_link(c, node(8), node(10))
    &&& has_link(c, node(10), node(8))
    &&& has_link(c, node(12), node(0))
    &&& has_link(c, node(0), node(12))
    &&& has_link(c, node(13), node(1))
    &&& has_link(c, node(1), node(13))
}

/// The XOR gate between pins, spelled out, and sound as a session.
#[verifier::rlimit(80)]
pub proof fn lemma_xor_is_sound(da: PropogationDelay, db: PropogationDelay)
    ensures
        ({
            let nl = xor_between_pins(da, db);
            &&& nl.elements == nands(0, 4) + seq![
                Primitive::Pin(PinElem { node: node(12) }),
                Primitive::Pin(PinElem { node: node(13) }),
            ]
            &&& nl.links == xor_links(0) + seq![(node(12), node(0), da), (node(13), node(1), db)]
            &&& nl.links.len() == 8
            &&& nl.links[0] == wired(2, 4)
            &&& nl.links[1] == wired(2, 6)
            &&& nl.links[2] == wired(0, 3)
            &&& nl.links[3] == wired(1, 7)
            &&& nl.links[4] == wired(5, 9)
            &&& nl.links[5] == wired(8, 10)
            &&& nl.links[6] == (node(12), node(0), da)
            &&& nl.links[7] == (node(13), node(1), db)
            &&& sound_session(nl, xor_zone())
            &&& sound_sources(nl.elements, xor_pins(), xor_sources())
        }),
{
    let nl = xor_between_pins(da, db);
    let zone = xor_zone();
    let start = Netlist::starting_at(0);
    lemma_xor_flat(start);
    assert(start.elements + nands(0, 4) =~= nands(0, 4));
    assert(start.links + xor_links(0) =~= xor_links(0));
    let pins = seq![Primitive::Pin(PinElem { node: node(12) }), Primitive::Pin(PinElem { node: node(13) })];
    let to_pins = seq![(node(12), node(0), da), (node(13), node(1), db)];
    assert(nl.elements =~= nands(0, 4) + pins);
    assert(nl.links =~= xor_links(0) + to_pins);
    let h = xor_links(0);
    assert(h.len() == 6);
    assert(nl.links[0] == h[0]);
    assert(nl.links[1] == h[1]);
    assert(nl.links[2] == h[2]);
    assert(nl.links[3] == h[3]);
    assert(nl.links[4] == h[4]);
    assert(nl.links[5] == h[5]);
    assert forall|i: int| 0 <= i < 6 implies (#[trigger] nl.elements[i]).standing() is None && (if i < 4 {
        nl.elements[i] == nand_on((3 * i) as nat) && nl.elements[i].claims() =~= seq![
            node((3 * i) as nat),
            node((3 * i + 1) as nat),
            node((3 * i + 2) as nat),
        ]
    } else {
        nl.elements[i].claims() =~= seq![node((8 + i) as nat)]
    }) by {
        if i < 4 {
            assert(nl.elements[i] == nands(0, 4)[i]);
        }
    }
    assert(distinct_claims(nl.elements)) by {
        assert forall|i: int, k: int, i2: int, k2: int|
            0 <= i < nl.elements.len() && 0 <= k < nl.elements[i].claims().len() && 0 <= i2
                < nl.elements.len() && 0 <= k2 < nl.elements[i2].claims().len() && (i != i2 || k != k2) implies #[trigger] nl.elements[i].claims()[k]
            != #[trigger] nl.elements[i2].claims()[k2] by {
            let n = if i < 4 {
                3 * i + k
            } else {
                8 + i
            };
            let n2 = if i2 < 4 {
                3 * i2 + k2
            } else {
                8 + i2
            };
            assert(nl.elements[i].claims()[k] == node(n as nat));
            assert(nl.elements[i2].claims()[k2] == node(n2 as nat));
            assert(n != n2);
        }
    }
    assert(zone_fits(xor_links(0), zone));
    assert(zone_fits(to_pins, zone));
    lemma_zone_fits_both(xor_links(0), to_pins, zone);
    assert(Circuit::empty().can_absorb(nl)) by {
        assert forall|i: int, k: int|
            0 <= i < nl.elements.len() && 0 <= k < nl.elements[i].claims().len() implies (
        #[trigger] nl.elements[i].claims()[k]).0 < usize::MAX by {
            let n = if i < 4 {
                3 * i + k
            } else {
                8 + i
            };
            assert(nl.elements[i].claims()[k] == node(n as nat));
        }
    }
    assert(sound_sources(nl.elements, xor_pins(), xor_sources())) by {
        assert forall|i: int| 0 <= i < nl.elements.len() implies match (#[trigger] nl.elements[i]).drives() {
            Some(n) => xor_sources().contains(n) && !xor_pins().contains(n),
            None => true,
        } by {
            if i < 4 {
                assert(nl.elements[i].drives() == Some(node((3 * i + 2) as nat)));
            }
        }
    }
}

/// What holds of the XOR gate between pins whatever is written to its pins
/// and however often the event loop is turned.
#[verifier::rlimit(80)]
pub proof fn lemma_xor_grounds(da: PropogationDelay, db: PropogationDelay, script: Seq<Action>)
    requires
        sound_script(xor_between_pins(da, db), script, xor_pins()),
    ensures
        ({
            let c = Circuit::empty().absorbed(xor_between_pins(da, db)).0.followed(script);
            &&& c.wf()
            &&& c.coherent()
            &&& c.obedient()
            &&& confined(c, xor_zone(), xor_sources())
            &&& c.elements.len() == 6
            &&& forall|k: int| 0 <= k < 4 ==> #[trigger] c.elements[k] == Primitive::Nand(gate_on((3 * k) as nat))
            &&& c.nodes.len() >= 14
            &&& xor_wired(c)
        }),
{
    let nl = xor_between_pins(da, db);
    lemma_xor_is_sound(da, db);
    lemma_built_and_followed(nl, xor_zone(), xor_pins(), xor_sources(), script);
    let c = Circuit::empty().absorbed(nl).0.followed(script);
    assert forall|k: int| 0 <= k < 4 implies #[trigger] c.elements[k] == Primitive::Nand(
        gate_on((3 * k) as nat),
    ) by {
        assert(nl.elements[k] == nands(0, 4)[k]);
    }
    assert(c.nodes.len() >= 14) by {
        assert(c.elements[5] == Primitive::Pin(PinElem { node: node(13) }));
        assert(c.owns(5, c.elements[5].claims()[0]));
    }
    assert(has_link(c, nl.links[0].0, nl.links[0].1) && has_link(c, nl.links[0].1, nl.links[0].0));
    assert(has_link(c, nl.links[1].0, nl.links[1].1) && has_link(c, nl.links[1].1, nl.links[1].0));
    assert(has_link(c, nl.links[2].0, nl.links[2].1) && has_link(c, nl.links[2].1, nl.links[2].0));
    assert(has_link(c, nl.links[3].0, nl.links[3].1) && has_link(c, nl.links[3].1, nl.links[3].0));
    assert(has_link(c, nl.links[4].0, nl.links[4].1) && has_link(c, nl.links[4].1, nl.links[4].0));
    assert(has_link(c, nl.links[5].0, nl.links[5].1) && has_link(c, nl.links[5].1, nl.links[5].0));
    assert(has_link(c, nl.links[6].0, nl.links[6].1) && has_link(c, nl.links[6].1, nl.links[6].0));
    assert(has_link(c, nl.links[7].0, nl.links[7].1) && has_link(c, nl.links[7].1, nl.links[7].0));
}

/// The XOR gate settles to the exclusive or of its inputs. Absorb an XOR
/// gate and a pin for each of its inputs into an empty simulation; write
/// to the pins and turn the event loop, in any order. If the circuit is at
/// rest in the end and each pin is driven to Low or to High, the output
/// reads High if one pin is driven to High and the other to Low, and Low
/// if both are driven to the same.
#[verifier::rlimit(100)]
pub proof fn lemma_xor_settles(da: PropogationDelay, db: PropogationDelay, script: Seq<Action>)
    requires
        sound_script(xor_between_pins(da, db), script, xor_pins()),
        Circuit::empty().absorbed(xor_between_pins(da, db)).0.followed(script).quiescent(),
        ({
            let c = Circuit::empty().absorbed(xor_between_pins(da, db)).0.followed(script);
            let a = c.wire(node(12)).output_state;
            let b = c.wire(node(13)).output_state;
            &&& a == LineState::Low || a == LineState::High
            &&& b == LineState::Low || b == LineState::High
        }),
    ensures
        ({
            let c = Circuit::empty().absorbed(xor_between_pins(da, db)).0.followed(script);
            let a = c.wire(node(12)).output_state;
            let b = c.wire(node(13)).output_state;
            c.reading(node(11)) == if a == b {
                LineState::Low
            } else {
                LineState::High
            }
        }),
{
    let c = Circuit::empty().absorbed(xor_between_pins(da, db)).0.followed(script);
    let zone = xor_zone();
    let sources = xor_sources();
    lemma_xor_grounds(da, db, script);
    lemma_leads_over_one(c, zone, sources, node(12), node(0));
    lemma_leads_over_one(c, zone, sources, node(13), node(1));
    lemma_nand_at_rest(c, zone, sources, 0, gate_on(0), seq![node(12), node(0)], seq![node(13), node(1)]);
    lemma_leads_over_two(c, zone, sources, node(12), node(0), node(3));
    lemma_leads_over_one(c, zone, sources, node(2), node(4));
    lemma_nand_at_rest(c, zone, sources, 1, gate_on(3), seq![node(12), node(0), node(3)], seq![node(2), node(4)]);
    lemma_leads_over_one(c, zone, sources, node(2), node(6));
    lemma_leads_over_two(c, zone, sources, node(13), node(1), node(7));
    lemma_nand_at_rest(c, zone, sources, 2, gate_on(6), seq![node(2), node(6)], seq![node(13), node(1), node(7)]);
    lemma_leads_over_one(c, zone, sources, node(5), node(9));
    lemma_leads_over_one(c, zone, sources, node(8), node(10));
    lemma_nand_at_rest(c, zone, sources, 3, gate_on(9), seq![node(5), node(9)], seq![node(8), node(10)]);
    lemma_source_at_rest(c, zone, sources, node(11));
}

/// The session that stages an OR gate on the nodes 0 to 8 and a pin for
/// each of its inputs: node 9 for `a`, node 10 for `b`. The output is
/// node 8.
pub open spec fn or_between_pins(da: PropogationDelay, db: PropogationDelay) -> Netlist {
    let start = Netlist::starting_at(0);
    let gate = OrGate::at(start);
    let n1 = OrGate::staged(start);
    let pin_a = Pin::at(n1);
    let n2 = Pin::staged(n1);
    let pin_b = Pin::at(n2);
    Pin::staged(n2).with_link(pin_a.node, gate.a, da).with_link(pin_b.node, gate.b, db)
}

/// The pins of the OR gate between pins.
pub open spec fn or_pins() -> Set<NodeIndex> {
    Set::new(|n: NodeIndex| 9 <= n.0 < 11)
}

/// The nodes of the OR gate between pins that are written or driven: the
/// pins and the outputs of the NAND gates.
pub open spec fn or_sources() -> Set<NodeIndex> {
    Set::new(|n: NodeIndex| n.0 < 11 && (n.0 >= 9 || n.0 % 3 == 2))
}

/// The source of the part of the OR gate between pins in which node `n`
/// lies.
pub open spec fn or_part_of(n: NodeIndex) -> int {
    if n.0 == 0 || n.0 == 1 {
        9
    } else if n.0 == 3 || n.0 == 4 {
        10
    } else if n.0 == 6 {
        2
    } else if n.0 == 7 {
        5
    } else {
        n.0 as int
    }
}

/// The parts of the OR gate between pins that no link joins.
pub open spec fn or_zone() -> spec_fn(NodeIndex) -> int {
    |n: NodeIndex| or_part_of(n)
}

/// Whether the links of the OR gate between pins join their ends both
/// ways in `c`.
pub open spec fn or_wired(c: Circuit) -> bool {
    &&& has_link(c, node(0), node(1))
    &&& has_link(c, node(1), node(0))
    &&& has_link(c, node(3), node(4))
    &&& has_link(c, node(4), node(3))
    &&& has_link(c, node(2), node(6))
    &&& has_link(c, node(6), node(2))
    &&& has_link(c, node(5), node(7))
    &&& has_link(c, node(7), node(5))
    &&& has_link(c, node(9), node(0))
    &&& has_link(c, node(0), node(9))
    &&& has_link(c, node(10), node(4))
    &&& has_link(c, node(4), node(10))
}

/// The OR gate between pins, spelled out, and sound as a session.
#[verifier::rlimit(80)]
pub proof fn lemma_or_is_sound(da: PropogationDelay, db: PropogationDelay)
    ensures
        ({
            let nl = or_between_pins(da, db);
            &&& nl.elements == nands(0, 3) + seq![
                Primitive::Pin(PinElem { node: node(9) }),
                Primitive::Pin(PinElem { node: node(10) }),
            ]
            &&& nl.links == or_links(0) + seq![(node(9), node(0), da), (node(10), node(4), db)]
            &&& nl.links.len() == 6
            &&& nl.links[0] == wired(0, 1)
            &&& nl.links[1] == wired(3, 4)
            &&& nl.links[2] == wired(2, 6)
            &&& nl.links[3] == wired(5, 7)
            &&& nl.links[4] == (node(9), node(0), da)
            &&& nl.links[5] == (node(10), node(4), db)
            &&& sound_session(nl, or_zone())
            &&& sound_sources(nl.elements, or_pins(), or_sources())
        }),
{
    let nl = or_between_pins(da, db);
    let zone = or_zone();
    let start = Netlist::starting_at(0);
    lemma_or_flat(start);
    assert(start.elements + nands(0, 3) =~= nands(0, 3));
    assert(start.links + or_links(0) =~= or_links(0));
    let pins = seq![Primitive::Pin(PinElem { node: node(9) }), Primitive::Pin(PinElem { node: node(10) })];
    let to_pins = seq![(node(9), node(0), da), (node(10), node(4), db)];
    assert(nl.elements =~= nands(0, 3) + pins);
    assert(nl.links =~= or_links(0) + to_pins);
    let h = or_links(0);
    assert(h.len() == 4);
    assert(nl.links[0] == h[0]);
    assert(nl.links[1] == h[1]);
    assert(nl.links[2] == h[2]);
    assert(nl.links[3] == h[3]);
    assert forall|i: int| 0 <= i < 5 implies (#[trigger] nl.elements[i]).standing() is None && (if i < 3 {
        nl.elements[i] == nand_on((3 * i) as nat) && nl.elements[i].claims() =~= seq![
            node((3 * i) as nat),
            node((3 * i + 1) as nat),
            node((3 * i + 2) as nat),
        ]
    } else {
        nl.elements[i].claims() =~= seq![node((6 + i) as nat)]
    }) by {
        if i < 3 {
            assert(nl.elements[i] == nands(0, 3)[i]);
        }
    }
    assert(distinct_claims(nl.elements)) by {
        assert forall|i: int, k: int, i2: int, k2: int|
            0 <= i < nl.elements.len() && 0 <= k < nl.elements[i].claims().len() && 0 <= i2
                < nl.elements.len() && 0 <= k2 < nl.elements[i2].claims().len() && (i != i2 || k != k2) implies #[trigger] nl.elements[i].claims()[k]
            != #[trigger] nl.elements[i2].claims()[k2] by {
            let n = if i < 3 {
                3 * i + k
            } else {
                6 + i
            };
            let n2 = if i2 < 3 {
                3 * i2 + k2
            } else {
                6 + i2
            };
            assert(nl.elements[i].claims()[k] == node(n as nat));
            assert(nl.elements[i2].claims()[k2] == node(n2 as nat));
            assert(n != n2);
        }
    }
    assert(zone_fits(or_links(0), zone));
    assert(zone_fits(to_pins, zone));
    lemma_zone_fits_both(or_links(0), to_pins, zone);
    assert(Circuit::empty().can_absorb(nl)) by {
        assert forall|i: int, k: int|
            0 <= i < nl.elements.len() && 0 <= k < nl.elements[i].claims().len() implies (
        #[trigger] nl.elements[i].claims()[k]).0 < usize::MAX by {
            let n = if i < 3 {
                3 * i + k
            } else {
                6 + i
            };
            assert(nl.elements[i].claims()[k] == node(n as nat));
        }
    }
    assert(sound_sources(nl.elements, or_pins(), or_sources())) by {
        assert forall|i: int| 0 <= i < nl.elements.len() implies match (#[trigger] nl.elements[i]).drives() {
            Some(n) => or_sources().contains(n) && !or_pins().contains(n),
            None => true,
        } by {
            if i < 3 {
                assert(nl.elements[i].drives() == Some(node((3 * i + 2) as nat)));
            }
        }
    }
}

/// What holds of the OR gate between pins whatever is written to its pins
/// and however often the event loop is turned.
#[verifier::rlimit(80)]
pub proof fn lemma_or_grounds(da: PropogationDelay, db: PropogationDelay, script: Seq<Action>)
    requires
        sound_script(or_between_pins(da, db), script, or_pins()),
    ensures
        ({
            let c = Circuit::empty().absorbed(or_between_pins(da, db)).0.followed(script);
            &&& c.wf()
            &&& c.coherent()
            &&& c.obedient()
            &&& confined(c, or_zone(), or_sources())
            &&& c.elements.len() == 5
            &&& forall|k: int| 0 <= k < 3 ==> #[trigger] c.elements[k] == Primitive::Nand(gate_on((3 * k) as nat))
            &&& c.nodes.len() >= 11
            &&& or_wired(c)
        }),
{
    let nl = or_between_pins(da, db);
    lemma_or_is_sound(da, db);
    lemma_built_and_followed(nl, or_zone(), or_pins(), or_sources(), script);
    let c = Circuit::empty().absorbed(nl).0.followed(script);
    assert forall|k: int| 0 <= k < 3 implies #[trigger] c.elements[k] == Primitive::Nand(
        gate_on((3 * k) as nat),
    ) by {
        assert(nl.elements[k] == nands(0, 3)[k]);
    }
    assert(c.nodes.len() >= 11) by {
        assert(c.elements[4] == Primitive::Pin(PinElem { node: node(10) }));
        assert(c.owns(4, c.elements[4].claims()[0]));
    }
    assert(has_link(c, nl.links[0].0, nl.links[0].1) && has_link(c, nl.links[0].1, nl.links[0].0));
    assert(has_link(c, nl.links[1].0, nl.links[1].1) && has_link(c, nl.links[1].1, nl.links[1].0));
    assert(has_link(c, nl.links[2].0, nl.links[2].1) && has_link(c, nl.links[2].1, nl.links[2].0));
    assert(has_link(c, nl.links[3].0, nl.links[3].1) && has_link(c, nl.links[3].1, nl.links[3].0));
    assert(has_link(c, nl.links[4].0, nl.links[4].1) && has_link(c, nl.links[4].1, nl.links[4].0));
    assert(has_link(c, nl.links[5].0, nl.links[5].1) && has_link(c, nl.links[5].1, nl.links[5].0));
}

/// The OR gate settles to the inclusive or of its inputs. Absorb an OR
/// gate and a pin for each of its inputs into an empty simulation; write
/// to the pins and turn the event loop, in any order. If the circuit is at
/// rest in the end and each pin is driven to Low or to High, the output
/// reads Low if both pins are driven to Low, and High if not.
#[verifier::rlimit(100)]
pub proof fn lemma_or_settles(da: PropogationDelay, db: PropogationDelay, script: Seq<Action>)
    requires
        sound_script(or_between_pins(da, db), script, or_pins()),
        Circuit::empty().absorbed(or_between_pins(da, db)).0.followed(script).quiescent(),
        ({
            let c = Circuit::empty().absorbed(or_between_pins(da, db)).0.followed(script);
            let a = c.wire(node(9)).output_state;
            let b = c.wire(node(10)).output_state;
            &&& a == LineState::Low || a == LineState::High
            &&& b == LineState::Low || b == LineState::High
        }),
    ensures
        ({
            let c = Circuit::empty().absorbed(or_between_pins(da, db)).0.followed(script);
            let a = c.wire(node(9)).output_state;
            let b = c.wire(node(10)).output_state;
            c.reading(node(8)) == if a == LineState::Low && b == LineState::Low {
                LineState::Low
            } else {
                LineState::High
            }
        }),
{
    let c = Circuit::empty().absorbed(or_between_pins(da, db)).0.followed(script);
    let zone = or_zone();
    let sources = or_sources();
    lemma_or_grounds(da, db, script);
    lemma_leads_over_one(c, zone, sources, node(9), node(0));
    lemma_leads_over_two(c, zone, sources, node(9), node(0), node(1));
    lemma_nand_at_rest(c, zone, sources, 0, gate_on(0), seq![node(9), node(0)], seq![node(9), node(0), node(1)]);
    lemma_leads_over_two(c, zone, sources, node(10), node(4), node(3));
    lemma_leads_over_one(c, zone, sources, node(10), node(4));
    lemma_nand_at_rest(c, zone, sources, 1, gate_on(3), seq![node(10), node(4), node(3)], seq![node(10), node(4)]);
    lemma_leads_over_one(c, zone, sources, node(2), node(6));
    lemma_leads_over_one(c, zone, sources, node(5), node(7));
    lemma_nand_at_rest(c, zone, sources, 2, gate_on(6), seq![node(2), node(6)], seq![node(5), node(7)]);
    lemma_source_at_rest(c, zone, sources, node(8));
}

/// A NOT gate, spelled out.
pub proof fn lemma_not_flat(nl: Netlist)
    ensures
        NotGate::staged(nl).next == nl.next + 3,
        NotGate::staged(nl).elements == nl.elements + nands(nl.next, 1),
        NotGate::staged(nl).links == nl.links + seq![wired(nl.next, nl.next + 1)],
        NotGate::at(nl) == (NotGate { input: node(nl.next), output: node(nl.next + 2) }),
{
    lemma_nand_flat(nl);
    assert(NotGate::staged(nl).links =~= nl.links + seq![wired(nl.next, nl.next + 1)]);
}

/// The session that stages a NOT gate on the nodes 0 to 2 and a pin, node
/// 3, for its input. The output is node 2.
pub open spec fn not_between_pins(da: PropogationDelay) -> Netlist {
    let start = Netlist::starting_at(0);
    let gate = NotGate::at(start);
    let n1 = NotGate::staged(start);
    let pin = Pin::at(n1);
    Pin::staged(n1).with_link(pin.node, gate.input, da)
}

/// The pin of the NOT gate between pins.
pub open spec fn not_pins() -> Set<NodeIndex> {
    Set::new(|n: NodeIndex| n.0 == 3)
}

/// The nodes of the NOT gate between pins that are written or driven: the
/// pin and the output.
pub open spec fn not_sources() -> Set<NodeIndex> {
    Set::new(|n: NodeIndex| n.0 == 2 || n.0 == 3)
}

/// The source of the part of the NOT gate between pins in which node `n`
/// lies.
pub open spec fn not_part_of(n: NodeIndex) -> int {
    if n.0 == 0 || n.0 == 1 {
        3
    } else {
        n.0 as int
    }
}

/// The parts of the NOT gate between pins that no link joins.
pub open spec fn not_zone() -> spec_fn(NodeIndex) -> int {
    |n: NodeIndex| not_part_of(n)
}

/// The NOT gate between pins, spelled out, and sound as a session.
#[verifier::rlimit(80)]
pub proof fn lemma_not_is_sound(da: PropogationDelay)
    ensures
        ({
            let nl = not_between_pins(da);
            &&& nl.elements == seq![nand_on(0), Primitive::Pin(PinElem { node: node(3) })]
            &&& nl.links == seq![wired(0, 1), (node(3), node(0), da)]
            &&& sound_session(nl, not_zone())
            &&& sound_sources(nl.elements, not_pins(), not_sources())
        }),
{
    let nl = not_between_pins(da);
    let zone = not_zone();
    let start = Netlist::starting_at(0);
    lemma_not_flat(start);
    assert(nl.elements =~= seq![nand_on(0), Primitive::Pin(PinElem { node: node(3) })]);
    assert(nl.links =~= seq![wired(0, 1), (node(3), node(0), da)]);
    assert(nl.elements[0].claims() =~= seq![node(0), node(1), node(2)]);
    assert(nl.elements[1].claims() =~= seq![node(3)]);
    assert(distinct_claims(nl.elements)) by {
        assert forall|i: int, k: int, i2: int, k2: int|
            0 <= i < nl.elements.len() && 0 <= k < nl.elements[i].claims().len() && 0 <= i2
                < nl.elements.len() && 0 <= k2 < nl.elements[i2].claims().len() && (i != i2 || k != k2) implies #[trigger] nl.elements[i].claims()[k]
            != #[trigger] nl.elements[i2].claims()[k2] by {
            let n = if i < 1 {
                k
            } else {
                3
            };
            let n2 = if i2 < 1 {
                k2
            } else {
                3
            };
            assert(nl.elements[i].claims()[k] == node(n as nat));
            assert(nl.elements[i2].claims()[k2] == node(n2 as nat));
            assert(n != n2);
        }
    }
    assert(zone_fits(nl.links, zone));
    assert(Circuit::empty().can_absorb(nl)) by {
        assert forall|i: int, k: int|
            0 <= i < nl.elements.len() && 0 <= k < nl.elements[i].claims().len() implies (
        #[trigger] nl.elements[i].claims()[k]).0 < usize::MAX by {
            let n = if i < 1 {
                k
            } else {
                3
            };
            assert(nl.elements[i].claims()[k] == node(n as nat));
        }
    }
    assert(sound_sources(nl.elements, not_pins(), not_sources())) by {
        assert forall|i: int| 0 <= i < nl.elements.len() implies match (#[trigger] nl.elements[i]).drives() {
            Some(n) => not_sources().contains(n) && !not_pins().contains(n),
            None => true,
        } by {
            if i < 1 {
                assert(nl.elements[i].drives() == Some(node(2)));
            }
        }
    }
}

/// The NOT gate settles to the opposite of its input. Absorb a NOT gate
/// and a pin for its input into an empty simulation; write to the pin and
/// turn the event loop, in any order. If the circuit is at rest in the end
/// and the pin is driven to Low or to High, the output reads High if the
/// pin is driven to Low, and Low if it is driven to High.
#[verifier::rlimit(100)]
pub proof fn lemma_not_settles(da: PropogationDelay, script: Seq<Action>)
    requires
        sound_script(not_between_pins(da), script, not_pins()),
        Circuit::empty().absorbed(not_between_pins(da)).0.followed(script).quiescent(),
        ({
            let c = Circuit::empty().absorbed(not_between_pins(da)).0.followed(script);
            let a = c.wire(node(3)).output_state;
            a == LineState::Low || a == LineState::High
        }),
    ensures
        ({
            let c = Circuit::empty().absorbed(not_between_pins(da)).0.followed(script);
            c.reading(node(2)) == if c.wire(node(3)).output_state == LineState::Low {
                LineState::High
            } else {
                LineState::Low
            }
        }),
{
    let nl = not_between_pins(da);
    let c = Circuit::empty().absorbed(nl).0.followed(script);
    let zone = not_zone();
    let sources = not_sources();
    lemma_not_is_sound(da);
    lemma_built_and_followed(nl, zone, not_pins(), sources, script);
    assert(c.elements[0] == Primitive::Nand(gate_on(0)));
    assert(c.nodes.len() >= 4) by {
        assert(c.elements[1] == Primitive::Pin(PinElem { node: node(3) }));
        assert(c.owns(1, c.elements[1].claims()[0]));
    }
    assert(has_link(c, nl.links[0].0, nl.links[0].1) && has_link(c, nl.links[0].1, nl.links[0].0));
    assert(has_link(c, nl.links[1].0, nl.links[1].1) && has_link(c, nl.links[1].1, nl.links[1].0));
    lemma_leads_over_one(c, zone, sources, node(3), node(0));
    lemma_leads_over_two(c, zone, sources, node(3), node(0), node(1));
    lemma_nand_at_rest(c, zone, sources, 0, gate_on(0), seq![node(3), node(0)], seq![node(3), node(0), node(1)]);
    lemma_source_at_rest(c, zone, sources, node(2));
}

} // verus!
