//! A latch at rest holds a state that agrees with its inputs.

use vstd::prelude::*;
use crate::circuit::{Action, Circuit};
use crate::element::Primitive;
use crate::levels::{
    binary, lemma_built_keeps_levels, lemma_nand_drives_a_level, one_source_each, writes_levels,
};
use crate::logic_gates::NandGate;
use crate::nand::nand_of;
use crate::netlist::{Netlist, Wiring};
use crate::part::Part;
use crate::pin::{Pin, PinElem};
use crate::rest::{
    distinct_claims, has_link, lemma_built_and_followed, lemma_leads_over_one, lemma_nand_at_rest,
    lemma_source_at_rest, lemma_zone_fits_both, sound_script, sound_session, sound_sources, zone_fits,
};
use crate::sim::{LineState, NodeIndex, PropogationDelay};
use crate::storage::NotSRLatch;
use crate::sums::{gate_on, lemma_nand_flat, nand_on, nands, node, wired};

verus! {

/// The links of a latch on the nodes from `n` on.
pub open spec fn latch_links(n: nat) -> Seq<Wiring> {
    seq![wired(n + 2, n + 3), wired(n + 5, n + 1)]
}

/// A latch, spelled out.
pub proof fn lemma_latch_flat(nl: Netlist)
    ensures
        NotSRLatch::staged(nl).next == nl.next + 6,
        NotSRLatch::staged(nl).elements == nl.elements + nands(nl.next, 2),
        NotSRLatch::staged(nl).links == nl.links + latch_links(nl.next),
        NotSRLatch::at(nl) == (NotSRLatch {
            not_s: node(nl.next),
            not_r: node(nl.next + 4),
            q: node(nl.next + 2),
            not_q: node(nl.next + 5),
        }),
{
    lemma_nand_flat(nl);
    lemma_nand_flat(NandGate::staged(nl));
    assert(NotSRLatch::staged(nl).elements =~= nl.elements + nands(nl.next, 2));
    assert(NotSRLatch::staged(nl).links =~= nl.links + latch_links(nl.next));
}

/// The session that stages a latch on the nodes 0 to 5 and a pin for each
/// of its inputs: node 6 for `not_s`, node 7 for `not_r`. The outputs are
/// node 2, `q`, and node 5, `not_q`.
pub open spec fn latch_between_pins(ds: PropogationDelay, dr: PropogationDelay) -> Netlist {
    let start = Netlist::starting_at(0);
    let latch = NotSRLatch::at(start);
    let n1 = NotSRLatch::staged(start);
    let pin_s = Pin::at(n1);
    let n2 = Pin::staged(n1);
    let pin_r = Pin::at(n2);
    Pin::staged(n2).with_link(pin_s.node, latch.not_s, ds).with_link(pin_r.node, latch.not_r, dr)
}

/// The pins of the latch between pins.
pub open spec fn latch_pins() -> Set<NodeIndex> {
    Set::new(|n: NodeIndex| 6 <= n.0 < 8)
}

/// The nodes of the latch between pins that are written or driven: the
/// pins and the outputs of the NAND gates.
pub open spec fn latch_sources() -> Set<NodeIndex> {
    Set::new(|n: NodeIndex| n.0 < 8 && (n.0 >= 6 || n.0 % 3 == 2))
}

/// The source of the part of the latch between pins in which node `n`
/// lies.
pub open spec fn latch_part_of(n: NodeIndex) -> int {
    if n.0 == 0 {
        6
    } else if n.0 == 4 {
        7
    } else if n.0 == 3 {
        2
    } else if n.0 == 1 {
        5
    } else {
        n.0 as int
    }
}

/// The parts of the latch between pins that no link joins.
pub open spec fn latch_zone() -> spec_fn(NodeIndex) -> int {
    |n: NodeIndex| latch_part_of(n)
}

/// The latch between pins, spelled out, and sound as a session.
#[verifier::rlimit(80)]
pub proof fn lemma_latch_is_sound(ds: PropogationDelay, dr: PropogationDelay)
    ensures
        ({
            let nl = latch_between_pins(ds, dr);
            &&& nl.elements == nands(0, 2) + seq![
                Primitive::Pin(PinElem { node: node(6) }),
                Primitive::Pin(PinElem { node: node(7) }),
            ]
            &&& nl.links == latch_links(0) + seq![(node(6), node(0), ds), (node(7), node(4), dr)]
            &&& nl.links.len() == 4
            &&& nl.links[0] == wired(2, 3)
            &&& nl.links[1] == wired(5, 1)
            &&& nl.links[2] == (node(6), node(0), ds)
            &&& nl.links[3] == (node(7), node(4), dr)
            &&& sound_session(nl, latch_zone())
            &&& sound_sources(nl.elements, latch_pins(), latch_sources())
        }),
{
    let nl = latch_between_pins(ds, dr);
    let zone = latch_zone();
    let start = Netlist::starting_at(0);
    lemma_latch_flat(start);
    assert(start.elements + nands(0, 2) =~= nands(0, 2));
    assert(start.links + latch_links(0) =~= latch_links(0));
    let pins = seq![Primitive::Pin(PinElem { node: node(6) }), Primitive::Pin(PinElem { node: node(7) })];
    let to_pins = seq![(node(6), node(0), ds), (node(7), node(4), dr)];
    assert(nl.elements =~= nands(0, 2) + pins);
    assert(nl.links =~= latch_links(0) + to_pins);
    let h = latch_links(0);
    assert(h.len() == 2);
    assert(nl.links[0] == h[0]);
    assert(nl.links[1] == h[1]);
    assert forall|i: int| 0 <= i < 4 implies (#[trigger] nl.elements[i]).standing() is None && (if i < 2 {
        nl.elements[i] == nand_on((3 * i) as nat) && nl.elements[i].claims() =~= seq![
            node((3 * i) as nat),
            node((3 * i + 1) as nat),
            node((3 * i + 2) as nat),
        ]
    } else {
        nl.elements[i].claims() =~= seq![node((4 + i) as nat)]
    }) by {
        if i < 2 {
            assert(nl.elements[i] == nands(0, 2)[i]);
        }
    }
    assert(distinct_claims(nl.elements)) by {
        assert forall|i: int, k: int, i2: int, k2: int|
            0 <= i < nl.elements.len() && 0 <= k < nl.elements[i].claims().len() && 0 <= i2
                < nl.elements.len() && 0 <= k2 < nl.elements[i2].claims().len() && (i != i2 || k != k2) implies #[trigger] nl.elements[i].claims()[k]
            != #[trigger] nl.elements[i2].claims()[k2] by {
            let n = if i < 2 {
                3 * i + k
            } else {
                4 + i
            };
            let n2 = if i2 < 2 {
                3 * i2 + k2
            } else {
                4 + i2
            };
            assert(nl.elements[i].claims()[k] == node(n as nat));
            assert(nl.elements[i2].claims()[k2] == node(n2 as nat));
            assert(n != n2);
        }
    }
    assert(zone_fits(latch_links(0), zone));
    assert(zone_fits(to_pins, zone));
    lemma_zone_fits_both(latch_links(0), to_pins, zone);
    assert(Circuit::empty().can_absorb(nl)) by {
        assert forall|i: int, k: int|
            0 <= i < nl.elements.len() && 0 <= k < nl.elements[i].claims().len() implies (
        #[trigger] nl.elements[i].claims()[k]).0 < usize::MAX by {
            let n = if i < 2 {
                3 * i + k
            } else {
                4 + i
            };
            assert(nl.elements[i].claims()[k] == node(n as nat));
        }
    }
    assert(sound_sources(nl.elements, latch_pins(), latch_sources())) by {
        assert forall|i: int| 0 <= i < nl.elements.len() implies match (#[trigger] nl.elements[i]).drives() {
            Some(n) => latch_sources().contains(n) && !latch_pins().contains(n),
            None => true,
        } by {
            if i < 2 {
                assert(nl.elements[i].drives() == Some(node((3 * i + 2) as nat)));
            }
        }
    }
}

/// The latch between pins has one source in every zone.
pub proof fn lemma_latch_has_one_source_each()
    ensures
        one_source_each(latch_zone(), latch_sources()),
{
    let zone = latch_zone();
    assert forall|f: NodeIndex, g: NodeIndex|
        latch_sources().contains(f) && latch_sources().contains(g) && #[trigger] zone(f) == #[trigger] zone(
            g,
        ) implies f == g by {
        assert(f.0 == g.0);
    }
}

/// A latch at rest holds a state that agrees with its inputs. Absorb a
/// latch and a pin for each of its inputs into an empty simulation; write
/// Low or High to the pins and turn the event loop, in any order. If the
/// circuit is at rest in the end and each pin is driven to Low or to High,
/// then `q` and `not_q` read Low or High each, `q` reads the NAND of
/// `not_s` and `not_q`, and `not_q` reads the NAND of `not_r` and `q`. So
/// `q` reads High while `not_s` is Low, `not_q` reads High while `not_r`
/// is Low, and while both inputs are High the two outputs read opposite
/// states, whichever the latch has come to hold.
#[verifier::rlimit(100)]
pub proof fn lemma_latch_holds(ds: PropogationDelay, dr: PropogationDelay, script: Seq<Action>)
    requires
        sound_script(latch_between_pins(ds, dr), script, latch_pins()),
        forall|k: int| 0 <= k < script.len() ==> writes_levels(#[trigger] script[k]),
        Circuit::empty().absorbed(latch_between_pins(ds, dr)).0.followed(script).quiescent(),
        ({
            let c = Circuit::empty().absorbed(latch_between_pins(ds, dr)).0.followed(script);
            binary(c.wire(node(6)).output_state) && binary(c.wire(node(7)).output_state)
        }),
    ensures
        ({
            let c = Circuit::empty().absorbed(latch_between_pins(ds, dr)).0.followed(script);
            let not_s = c.wire(node(6)).output_state;
            let not_r = c.wire(node(7)).output_state;
            let q = c.reading(node(2));
            let not_q = c.reading(node(5));
            &&& binary(q) && binary(not_q)
            &&& q == nand_of(not_s, not_q)
            &&& not_q == nand_of(not_r, q)
            &&& not_s == LineState::Low ==> q == LineState::High
            &&& not_r == LineState::Low ==> not_q == LineState::High
            &&& not_s == LineState::High && not_r == LineState::High ==> (q == LineState::High && not_q
                == LineState::Low) || (q == LineState::Low && not_q == LineState::High)
        }),
{
    let nl = latch_between_pins(ds, dr);
    let c = Circuit::empty().absorbed(nl).0.followed(script);
    let zone = latch_zone();
    let sources = latch_sources();
    lemma_latch_is_sound(ds, dr);
    lemma_latch_has_one_source_each();
    lemma_built_and_followed(nl, zone, latch_pins(), sources, script);
    lemma_built_keeps_levels(nl, zone, latch_pins(), sources, script);
    assert forall|k: int| 0 <= k < 2 implies #[trigger] c.elements[k] == Primitive::Nand(
        gate_on((3 * k) as nat),
    ) by {
        assert(nl.elements[k] == nands(0, 2)[k]);
    }
    assert(c.nodes.len() >= 8) by {
        assert(c.elements[3] == Primitive::Pin(PinElem { node: node(7) }));
        assert(c.owns(3, c.elements[3].claims()[0]));
    }
    assert(has_link(c, nl.links[0].0, nl.links[0].1) && has_link(c, nl.links[0].1, nl.links[0].0));
    assert(has_link(c, nl.links[1].0, nl.links[1].1) && has_link(c, nl.links[1].1, nl.links[1].0));
    assert(has_link(c, nl.links[2].0, nl.links[2].1) && has_link(c, nl.links[2].1, nl.links[2].0));
    assert(has_link(c, nl.links[3].0, nl.links[3].1) && has_link(c, nl.links[3].1, nl.links[3].0));
    lemma_leads_over_one(c, zone, sources, node(6), node(0));
    lemma_leads_over_one(c, zone, sources, node(7), node(4));
    lemma_nand_drives_a_level(c, zone, sources, 0, gate_on(0), seq![node(6), node(0)]);
    lemma_leads_over_one(c, zone, sources, node(2), node(3));
    lemma_nand_at_rest(c, zone, sources, 1, gate_on(3), seq![node(2), node(3)], seq![node(7), node(4)]);
    lemma_leads_over_one(c, zone, sources, node(5), node(1));
    lemma_nand_at_rest(c, zone, sources, 0, gate_on(0), seq![node(6), node(0)], seq![node(5), node(1)]);
    lemma_source_at_rest(c, zone, sources, node(2));
    lemma_source_at_rest(c, zone, sources, node(5));
}

} // verus!
