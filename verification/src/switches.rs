//! The multiplexer and the demultiplexer of one bit settle to what they
//! select.

use vstd::prelude::*;
use crate::circuit::{Action, Circuit};
use crate::demux::BitDemux;
use crate::element::Primitive;
use crate::logic_gates::{AndGate, NotGate};
use crate::mux::BitMux;
use crate::netlist::{Netlist, Wiring};
use crate::part::{lemma_row_of_four, Part};
use crate::pin::{Pin, PinElem};
use crate::rest::{
    distinct_claims, has_link, lemma_built_and_followed, lemma_leads_over_one, lemma_leads_over_two,
    lemma_nand_at_rest, lemma_source_at_rest, lemma_zone_fits_both, sound_script, sound_session,
    sound_sources, zone_fits,
};
use crate::sim::{LineState, NodeIndex, PropogationDelay};
use crate::sums::{gate_on, lemma_and_flat, lemma_or_flat, nand_is, nand_on, nands, node, wired};
use crate::truths::lemma_not_flat;
use crate::zones::confined;

verus! {

/// The links of a multiplexer of one bit on the nodes from `n` on.
pub open spec fn bit_mux_links(n: nat) -> Seq<Wiring> {
    seq![
        wired(n, n + 1),
        wired(n + 5, n + 6),
        wired(n + 5, n + 7),
        wired(n + 11, n + 12),
        wired(n + 11, n + 13),
        wired(n + 15, n + 16),
        wired(n + 18, n + 19),
        wired(n + 17, n + 21),
        wired(n + 20, n + 22),
        wired(n + 2, n + 3),
        wired(n, n + 9),
        wired(n + 8, n + 15),
        wired(n + 14, n + 19),
    ]
}

/// A multiplexer of one bit, spelled out.
pub proof fn lemma_bit_mux_flat(nl: Netlist)
    ensures
        BitMux::staged(nl).next == nl.next + 24,
        BitMux::staged(nl).elements == nl.elements + nands(nl.next, 8),
        BitMux::staged(nl).links == nl.links + bit_mux_links(nl.next),
        BitMux::at(nl) == (BitMux {
            a: node(nl.next + 4),
            b: node(nl.next + 10),
            select: node(nl.next),
            output: node(nl.next + 23),
        }),
{
    lemma_not_flat(nl);
    let n1 = NotGate::staged(nl);
    lemma_row_of_four::<AndGate>(n1);
    lemma_and_flat(n1);
    let n2 = AndGate::staged(n1);
    lemma_and_flat(n2);
    let n3 = AndGate::staged(n2);
    lemma_or_flat(n3);
    assert(BitMux::staged(nl).elements =~= nl.elements + nands(nl.next, 8));
    assert(BitMux::staged(nl).links =~= nl.links + bit_mux_links(nl.next));
}

/// The session that stages a multiplexer of one bit on the nodes 0 to 23
/// and a pin for each of its inputs: node 24 for `a`, node 25 for `b`,
/// node 26 for the select. The output is node 23.
pub open spec fn bit_mux_between_pins(da: PropogationDelay, db: PropogationDelay, ds: PropogationDelay) -> Netlist {
    let start = Netlist::starting_at(0);
    let mux = BitMux::at(start);
    let n1 = BitMux::staged(start);
    let pin_a = Pin::at(n1);
    let n2 = Pin::staged(n1);
    let pin_b = Pin::at(n2);
    let n3 = Pin::staged(n2);
    let pin_s = Pin::at(n3);
    Pin::staged(n3).with_link(pin_a.node, mux.a, da).with_link(pin_b.node, mux.b, db).with_link(
        pin_s.node,
        mux.select,
        ds,
    )
}

/// The pins of the multiplexer between pins.
pub open spec fn bit_mux_pins() -> Set<NodeIndex> {
    Set::new(|n: NodeIndex| 24 <= n.0 < 27)
}

/// The nodes of the multiplexer between pins that are written or driven:
/// the pins and the outputs of the NAND gates.
pub open spec fn bit_mux_sources() -> Set<NodeIndex> {
    Set::new(|n: NodeIndex| n.0 < 27 && (n.0 >= 24 || n.0 % 3 == 2))
}

/// The source of the part of the multiplexer between pins in which node
/// `n` lies.
pub open spec fn bit_mux_part_of(n: NodeIndex) -> int {
    if n.0 == 0 || n.0 == 1 || n.0 == 9 {
        26
    } else if n.0 == 4 {
        24
    } else if n.0 == 10 {
        25
    } else if n.0 == 3 {
        2
    } else if n.0 == 6 || n.0 == 7 {
        5
    } else if n.0 == 15 || n.0 == 16 {
        8
    } else if n.0 == 12 || n.0 == 13 {
        11
    } else if n.0 == 18 || n.0 == 19 {
        14
    } else if n.0 == 21 {
        17
    } else if n.0 == 22 {
        20
    } else {
        n.0 as int
    }
}

/// The parts of the multiplexer between pins that no link joins.
pub open spec fn bit_mux_zone() -> spec_fn(NodeIndex) -> int {
    |n: NodeIndex| bit_mux_part_of(n)
}

/// Whether the links of the multiplexer between pins join their ends both
/// ways in `c`.
pub open spec fn bit_mux_wired(c: Circuit) -> bool {
    &&& has_link(c, node(0), node(1))
    &&& has_link(c, node(1), node(0))
    &&& has_link(c, node(5), node(6))
    &&& has_link(c, node(6), node(5))
    &&& has_link(c, node(5), node(7))
    &&& has_link(c, node(7), node(5))
    &&& has_link(c, node(11), node(12))
    &&& has_link(c, node(12), node(11))
    &&& has_link(c, node(11), node(13))
    &&& has_link(c, node(13), node(11))
    &&& has_link(c, node(15), node(16))
    &&& has_link(c, node(16), node(15))
    &&& has_link(c, node(18), node(19))
    &&& has_link(c, node(19), node(18))
    &&& has_link(c, node(17), node(21))
    &&& has_link(c, node(21), node(17))
    &&& has_link(c, node(20), node(22))
    &&& has_link(c, node(22), node(20))
    &&& has_link(c, node(2), node(3))
    &&& has_link(c, node(3), node(2))
    &&& has_link(c, node(0), node(9))
    &&& has_link(c, node(9), node(0))
    &&& has_link(c, node(8), node(15))
    &&& has_link(c, node(15), node(8))
    &&& has_link(c, node(14), node(19))
    &&& has_link(c, node(19), node(14))
    &&& has_link(c, node(24), node(4))
    &&& has_link(c, node(4), node(24))
    &&& has_link(c, node(25), node(10))
    &&& has_link(c, node(10), node(25))
    &&& has_link(c, node(26), node(0))
    &&& has_link(c, node(0), node(26))
}

/// The multiplexer between pins, spelled out, and sound as a session.
#[verifier::rlimit(100)]
pub proof fn lemma_bit_mux_is_sound(da: PropogationDelay, db: PropogationDelay, ds: PropogationDelay)
    ensures
        ({
            let nl = bit_mux_between_pins(da, db, ds);
            &&& nl.elements == nands(0, 8) + seq![
                Primitive::Pin(PinElem { node: node(24) }),
                Primitive::Pin(PinElem { node: node(25) }),
                Primitive::Pin(PinElem { node: node(26) }),
            ]
            &&& nl.links == bit_mux_links(0) + seq![
                (node(24), node(4), da),
                (node(25), node(10), db),
                (node(26), node(0), ds),
            ]
            &&& nl.links.len() == 16
            &&& nl.links[0] == wired(0, 1)
            &&& nl.links[1] == wired(5, 6)
            &&& nl.links[2] == wired(5, 7)
            &&& nl.links[3] == wired(11, 12)
            &&& nl.links[4] == wired(11, 13)
            &&& nl.links[5] == wired(15, 16)
            &&& nl.links[6] == wired(18, 19)
            &&& nl.links[7] == wired(17, 21)
            &&& nl.links[8] == wired(20, 22)
            &&& nl.links[9] == wired(2, 3)
            &&& nl.links[10] == wired(0, 9)
            &&& nl.links[11] == wired(8, 15)
            &&& nl.links[12] == wired(14, 19)
            &&& nl.links[13] == (node(24), node(4), da)
            &&& nl.links[14] == (node(25), node(10), db)
            &&& nl.links[15] == (node(26), node(0), ds)
            &&& sound_session(nl, bit_mux_zone())
            &&& sound_sources(nl.elements, bit_mux_pins(), bit_mux_sources())
        }),
{
    let nl = bit_mux_between_pins(da, db, ds);
    let zone = bit_mux_zone();
    let start = Netlist::starting_at(0);
    lemma_bit_mux_flat(start);
    assert(start.elements + nands(0, 8) =~= nands(0, 8));
    assert(start.links + bit_mux_links(0) =~= bit_mux_links(0));
    let pins = seq![
        Primitive::Pin(PinElem { node: node(24) }),
        Primitive::Pin(PinElem { node: node(25) }),
        Primitive::Pin(PinElem { node: node(26) }),
    ];
    let to_pins = seq![(node(24), node(4), da), (node(25), node(10), db), (node(26), node(0), ds)];
    assert(nl.elements =~= nands(0, 8) + pins);
    assert(nl.links =~= bit_mux_links(0) + to_pins);
    let h = bit_mux_links(0);
    assert(h.len() == 13);
    assert(nl.links[0] == h[0]);
    assert(nl.links[1] == h[1]);
    assert(nl.links[2] == h[2]);
    assert(nl.links[3] == h[3]);
    assert(nl.links[4] == h[4]);
    assert(nl.links[5] == h[5]);
    assert(nl.links[6] == h[6]);
    assert(nl.links[7] == h[7]);
    assert(nl.links[8] == h[8]);
    assert(nl.links[9] == h[9]);
    assert(nl.links[10] == h[10]);
    assert(nl.links[11] == h[11]);
    assert(nl.links[12] == h[12]);
    assert forall|i: int| 0 <= i < 11 implies (#[trigger] nl.elements[i]).standing() is None && (if i < 8 {
        nl.elements[i] == nand_on((3 * i) as nat) && nl.elements[i].claims() =~= seq![
            node((3 * i) as nat),
            node((3 * i + 1) as nat),
            node((3 * i + 2) as nat),
        ]
    } else {
        nl.elements[i].claims() =~= seq![node((16 + i) as nat)]
    }) by {
        if i < 8 {
            assert(nl.elements[i] == nands(0, 8)[i]);
        }
    }
    assert(distinct_claims(nl.elements)) by {
        assert forall|i: int, k: int, i2: int, k2: int|
            0 <= i < nl.elements.len() && 0 <= k < nl.elements[i].claims().len() && 0 <= i2
                < nl.elements.len() && 0 <= k2 < nl.elements[i2].claims().len() && (i != i2 || k != k2) implies #[trigger] nl.elements[i].claims()[k]
            != #[trigger] nl.elements[i2].claims()[k2] by {
            let n = if i < 8 {
                3 * i + k
            } else {
                16 + i
            };
            let n2 = if i2 < 8 {
                3 * i2 + k2
            } else {
                16 + i2
            };
            assert(nl.elements[i].claims()[k] == node(n as nat));
            assert(nl.elements[i2].claims()[k2] == node(n2 as nat));
            assert(n != n2);
        }
    }
    assert(zone_fits(bit_mux_links(0), zone));
    assert(zone_fits(to_pins, zone));
    lemma_zone_fits_both(bit_mux_links(0), to_pins, zone);
    assert(Circuit::empty().can_absorb(nl)) by {
        assert forall|i: int, k: int|
            0 <= i < nl.elements.len() && 0 <= k < nl.elements[i].claims().len() implies (
        #[trigger] nl.elements[i].claims()[k]).0 < usize::MAX by {
            let n = if i < 8 {
                3 * i + k
            } else {
                16 + i
            };
            assert(nl.elements[i].claims()[k] == node(n as nat));
        }
    }
    assert(sound_sources(nl.elements, bit_mux_pins(), bit_mux_sources())) by {
        assert forall|i: int| 0 <= i < nl.elements.len() implies match (#[trigger] nl.elements[i]).drives() {
            Some(n) => bit_mux_sources().contains(n) && !bit_mux_pins().contains(n),
            None => true,
        } by {
            if i < 8 {
                assert(nl.elements[i].drives() == Some(node((3 * i + 2) as nat)));
            }
        }
    }
}

/// What holds of the multiplexer between pins whatever is written to its
/// pins and however often the event loop is turned.
#[verifier::rlimit(100)]
pub proof fn lemma_bit_mux_grounds(
    da: PropogationDelay,
    db: PropogationDelay,
    ds: PropogationDelay,
    script: Seq<Action>,
)
    requires
        sound_script(bit_mux_between_pins(da, db, ds), script, bit_mux_pins()),
    ensures
        ({
            let c = Circuit::empty().absorbed(bit_mux_between_pins(da, db, ds)).0.followed(script);
            &&& c.wf()
            &&& c.coherent()
            &&& c.obedient()
            &&& confined(c, bit_mux_zone(), bit_mux_sources())
            &&& c.elements.len() == 11
            &&& forall|k: int| 0 <= k < 8 ==> #[trigger] c.elements[k] == Primitive::Nand(gate_on((3 * k) as nat))
            &&& c.nodes.len() >= 27
            &&& bit_mux_wired(c)
        }),
{
    let nl = bit_mux_between_pins(da, db, ds);
    lemma_bit_mux_is_sound(da, db, ds);
    lemma_built_and_followed(nl, bit_mux_zone(), bit_mux_pins(), bit_mux_sources(), script);
    let c = Circuit::empty().absorbed(nl).0.followed(script);
    assert forall|k: int| 0 <= k < 8 implies #[trigger] c.elements[k] == Primitive::Nand(
        gate_on((3 * k) as nat),
    ) by {
        assert(nl.elements[k] == nands(0, 8)[k]);
    }
    assert(c.nodes.len() >= 27) by {
        assert(c.elements[10] == Primitive::Pin(PinElem { node: node(26) }));
        assert(c.owns(10, c.elements[10].claims()[0]));
    }
    assert(has_link(c, nl.links[0].0, nl.links[0].1) && has_link(c, nl.links[0].1, nl.links[0].0));
    assert(has_link(c, nl.links[1].0, nl.links[1].1) && has_link(c, nl.links[1].1, nl.links[1].0));
    assert(has_link(c, nl.links[2].0, nl.links[2].1) && has_link(c, nl.links[2].1, nl.links[2].0));
    assert(has_link(c, nl.links[3].0, nl.links[3].1) && has_link(c, nl.links[3].1, nl.links[3].0));
    assert(has_link(c, nl.links[4].0, nl.links[4].1) && has_link(c, nl.links[4].1, nl.links[4].0));
    assert(has_link(c, nl.links[5].0, nl.links[5].1) && has_link(c, nl.links[5].1, nl.links[5].0));
    assert(has_link(c, nl.links[6].0, nl.links[6].1) && has_link(c, nl.links[6].1, nl.links[6].0));
    assert(has_link(c, nl.links[7].0, nl.links[7].1) && has_link(c, nl.links[7].1, nl.links[7].0));
    assert(has_link(c, nl.links[8].0, nl.links[8].1) && has_link(c, nl.links[8].1, nl.links[8].0));
    assert(has_link(c, nl.links[9].0, nl.links[9].1) && has_link(c, nl.links[9].1, nl.links[9].0));
    assert(has_link(c, nl.links[10].0, nl.links[10].1) && has_link(c, nl.links[10].1, nl.links[10].0));
    assert(has_link(c, nl.links[11].0, nl.links[11].1) && has_link(c, nl.links[11].1, nl.links[11].0));
    assert(has_link(c, nl.links[12].0, nl.links[12].1) && has_link(c, nl.links[12].1, nl.links[12].0));
    assert(has_link(c, nl.links[13].0, nl.links[13].1) && has_link(c, nl.links[13].1, nl.links[13].0));
    assert(has_link(c, nl.links[14].0, nl.links[14].1) && has_link(c, nl.links[14].1, nl.links[14].0));
    assert(has_link(c, nl.links[15].0, nl.links[15].1) && has_link(c, nl.links[15].1, nl.links[15].0));
}

/// Whether each pin of the multiplexer between pins is driven to Low or to High.
pub open spec fn bit_mux_pins_are_binary(c: Circuit) -> bool {
    &&& c.wire(node(24)).output_state == LineState::Low || c.wire(node(24)).output_state == LineState::High
    &&& c.wire(node(25)).output_state == LineState::Low || c.wire(node(25)).output_state == LineState::High
    &&& c.wire(node(26)).output_state == LineState::Low || c.wire(node(26)).output_state == LineState::High
}

/// At rest, the first NAND gates of the multiplexer between pins drive the NAND of
/// what feeds them.
#[verifier::rlimit(100)]
proof fn lemma_bit_mux_part_1(
    da: PropogationDelay,
    db: PropogationDelay,
    ds: PropogationDelay,
    script: Seq<Action>,
)
    requires
        sound_script(bit_mux_between_pins(da, db, ds), script, bit_mux_pins()),
        Circuit::empty().absorbed(bit_mux_between_pins(da, db, ds)).0.followed(script).quiescent(),
        bit_mux_pins_are_binary(Circuit::empty().absorbed(bit_mux_between_pins(da, db, ds)).0.followed(script)),
    ensures
        ({
            let c = Circuit::empty().absorbed(bit_mux_between_pins(da, db, ds)).0.followed(script);
            &&& nand_is(c, 2, 26, 26)
            &&& nand_is(c, 5, 2, 24)
            &&& nand_is(c, 8, 5, 5)
            &&& nand_is(c, 11, 26, 25)
        }),
{
    let c = Circuit::empty().absorbed(bit_mux_between_pins(da, db, ds)).0.followed(script);
    let zone = bit_mux_zone();
    let sources = bit_mux_sources();
    lemma_bit_mux_grounds(da, db, ds, script);
    lemma_leads_over_one(c, zone, sources, node(26), node(0));
    lemma_leads_over_two(c, zone, sources, node(26), node(0), node(1));
    lemma_nand_at_rest(c, zone, sources, 0, gate_on(0), seq![node(26), node(0)], seq![node(26), node(0), node(1)]);
    lemma_leads_over_one(c, zone, sources, node(2), node(3));
    lemma_leads_over_one(c, zone, sources, node(24), node(4));
    lemma_nand_at_rest(c, zone, sources, 1, gate_on(3), seq![node(2), node(3)], seq![node(24), node(4)]);
    lemma_leads_over_one(c, zone, sources, node(5), node(6));
    lemma_leads_over_one(c, zone, sources, node(5), node(7));
    lemma_nand_at_rest(c, zone, sources, 2, gate_on(6), seq![node(5), node(6)], seq![node(5), node(7)]);
    lemma_leads_over_two(c, zone, sources, node(26), node(0), node(9));
    lemma_leads_over_one(c, zone, sources, node(25), node(10));
    lemma_nand_at_rest(c, zone, sources, 3, gate_on(9), seq![node(26), node(0), node(9)], seq![node(25), node(10)]);
}

/// At rest, the last NAND gates of the multiplexer between pins drive the NAND of
/// what feeds them.
#[verifier::rlimit(100)]
proof fn lemma_bit_mux_part_2(
    da: PropogationDelay,
    db: PropogationDelay,
    ds: PropogationDelay,
    script: Seq<Action>,
)
    requires
        sound_script(bit_mux_between_pins(da, db, ds), script, bit_mux_pins()),
        Circuit::empty().absorbed(bit_mux_between_pins(da, db, ds)).0.followed(script).quiescent(),
        bit_mux_pins_are_binary(Circuit::empty().absorbed(bit_mux_between_pins(da, db, ds)).0.followed(script)),
    ensures
        ({
            let c = Circuit::empty().absorbed(bit_mux_between_pins(da, db, ds)).0.followed(script);
            &&& nand_is(c, 14, 11, 11)
            &&& nand_is(c, 17, 8, 8)
            &&& nand_is(c, 20, 14, 14)
            &&& nand_is(c, 23, 17, 20)
        }),
{
    let c = Circuit::empty().absorbed(bit_mux_between_pins(da, db, ds)).0.followed(script);
    let zone = bit_mux_zone();
    let sources = bit_mux_sources();
    lemma_bit_mux_grounds(da, db, ds, script);
    lemma_bit_mux_part_1(da, db, ds, script);
    lemma_leads_over_one(c, zone, sources, node(11), node(12));
    lemma_leads_over_one(c, zone, sources, node(11), node(13));
    lemma_nand_at_rest(c, zone, sources, 4, gate_on(12), seq![node(11), node(12)], seq![node(11), node(13)]);
    lemma_leads_over_one(c, zone, sources, node(8), node(15));
    lemma_leads_over_two(c, zone, sources, node(8), node(15), node(16));
    lemma_nand_at_rest(c, zone, sources, 5, gate_on(15), seq![node(8), node(15)], seq![node(8), node(15), node(16)]);
    lemma_leads_over_two(c, zone, sources, node(14), node(19), node(18));
    lemma_leads_over_one(c, zone, sources, node(14), node(19));
    lemma_nand_at_rest(c, zone, sources, 6, gate_on(18), seq![node(14), node(19), node(18)], seq![node(14), node(19)]);
    lemma_leads_over_one(c, zone, sources, node(17), node(21));
    lemma_leads_over_one(c, zone, sources, node(20), node(22));
    lemma_nand_at_rest(c, zone, sources, 7, gate_on(21), seq![node(17), node(21)], seq![node(20), node(22)]);
}

/// At rest, the output of the multiplexer between pins reads what it is driven to.
#[verifier::rlimit(100)]
proof fn lemma_bit_mux_outputs(
    da: PropogationDelay,
    db: PropogationDelay,
    ds: PropogationDelay,
    script: Seq<Action>,
)
    requires
        sound_script(bit_mux_between_pins(da, db, ds), script, bit_mux_pins()),
        Circuit::empty().absorbed(bit_mux_between_pins(da, db, ds)).0.followed(script).quiescent(),
        bit_mux_pins_are_binary(Circuit::empty().absorbed(bit_mux_between_pins(da, db, ds)).0.followed(script)),
    ensures
        ({
            let c = Circuit::empty().absorbed(bit_mux_between_pins(da, db, ds)).0.followed(script);
            &&& c.reading(node(23)) == c.wire(node(23)).output_state
        }),
{
    let c = Circuit::empty().absorbed(bit_mux_between_pins(da, db, ds)).0.followed(script);
    let zone = bit_mux_zone();
    let sources = bit_mux_sources();
    lemma_bit_mux_grounds(da, db, ds, script);
    lemma_bit_mux_part_1(da, db, ds, script);
    lemma_bit_mux_part_2(da, db, ds, script);
    lemma_source_at_rest(c, zone, sources, node(23));
}

/// The multiplexer of one bit settles to the input that it selects. Absorb
/// a multiplexer and a pin for each of its inputs into an empty
/// simulation; write to the pins and turn the event loop, in any order. If
/// the circuit is at rest in the end and each pin is driven to Low or to
/// High, the output reads what the pin of `a` is driven to if the select
/// is driven to Low, and what the pin of `b` is driven to if the select is
/// driven to High.
pub proof fn lemma_bit_mux_settles(
    da: PropogationDelay,
    db: PropogationDelay,
    ds: PropogationDelay,
    script: Seq<Action>,
)
    requires
        sound_script(bit_mux_between_pins(da, db, ds), script, bit_mux_pins()),
        Circuit::empty().absorbed(bit_mux_between_pins(da, db, ds)).0.followed(script).quiescent(),
        bit_mux_pins_are_binary(Circuit::empty().absorbed(bit_mux_between_pins(da, db, ds)).0.followed(script)),
    ensures
        ({
            let c = Circuit::empty().absorbed(bit_mux_between_pins(da, db, ds)).0.followed(script);
            c.reading(node(23)) == if c.wire(node(26)).output_state == LineState::Low {
                c.wire(node(24)).output_state
            } else {
                c.wire(node(25)).output_state
            }
        }),
{
    lemma_bit_mux_part_1(da, db, ds, script);
    lemma_bit_mux_part_2(da, db, ds, script);
    lemma_bit_mux_outputs(da, db, ds, script);
}

/// The links of a demultiplexer of one bit on the nodes from `n` on.
pub open spec fn bit_demux_links(n: nat) -> Seq<Wiring> {
    seq![
        wired(n + 2, n + 3),
        wired(n + 2, n + 4),
        wired(n + 6, n + 7),
        wired(n + 11, n + 12),
        wired(n + 11, n + 13),
        wired(n + 17, n + 18),
        wired(n + 17, n + 19),
        wired(n + 23, n + 24),
        wired(n + 23, n + 25),
        wired(n + 8, n),
        wired(n + 6, n + 9),
        wired(n + 1, n + 10),
        wired(n + 15, n + 21),
        wired(n + 16, n + 5),
        wired(n + 22, n + 14),
    ]
}

/// A demultiplexer of one bit, spelled out.
pub proof fn lemma_bit_demux_flat(nl: Netlist)
    ensures
        BitDemux::staged(nl).next == nl.next + 27,
        BitDemux::staged(nl).elements == nl.elements + nands(nl.next, 9),
        BitDemux::staged(nl).links == nl.links + bit_demux_links(nl.next),
        BitDemux::at(nl) == (BitDemux {
            input: node(nl.next + 1),
            select: node(nl.next + 6),
            output_a: node(nl.next + 20),
            output_b: node(nl.next + 26),
            enable: node(nl.next + 15),
        }),
{
    lemma_and_flat(nl);
    let n1 = AndGate::staged(nl);
    lemma_not_flat(n1);
    let n2 = NotGate::staged(n1);
    lemma_row_of_four::<AndGate>(n2);
    lemma_and_flat(n2);
    let n3 = AndGate::staged(n2);
    lemma_and_flat(n3);
    let n4 = AndGate::staged(n3);
    lemma_and_flat(n4);
    assert(BitDemux::staged(nl).elements =~= nl.elements + nands(nl.next, 9));
    assert(BitDemux::staged(nl).links =~= nl.links + bit_demux_links(nl.next));
}

/// The session that stages a demultiplexer of one bit on the nodes 0 to
/// 26 and a pin for each of its inputs: node 27 for the input, node 28 for
/// the select, node 29 for the enable. The outputs are the nodes 20 and
/// 26.
pub open spec fn bit_demux_between_pins(di: PropogationDelay, ds: PropogationDelay, de: PropogationDelay) -> Netlist {
    let start = Netlist::starting_at(0);
    let demux = BitDemux::at(start);
    let n1 = BitDemux::staged(start);
    let pin_i = Pin::at(n1);
    let n2 = Pin::staged(n1);
    let pin_s = Pin::at(n2);
    let n3 = Pin::staged(n2);
    let pin_e = Pin::at(n3);
    Pin::staged(n3).with_link(pin_i.node, demux.input, di).with_link(pin_s.node, demux.select, ds).with_link(
        pin_e.node,
        demux.enable,
        de,
    )
}

/// The pins of the demultiplexer between pins.
pub open spec fn bit_demux_pins() -> Set<NodeIndex> {
    Set::new(|n: NodeIndex| 27 <= n.0 < 30)
}

/// The nodes of the demultiplexer between pins that are written or
/// driven: the pins and the outputs of the NAND gates.
pub open spec fn bit_demux_sources() -> Set<NodeIndex> {
    Set::new(|n: NodeIndex| n.0 < 30 && (n.0 >= 27 || n.0 % 3 == 2))
}

/// The source of the part of the demultiplexer between pins in which node
/// `n` lies.
pub open spec fn bit_demux_part_of(n: NodeIndex) -> int {
    if n.0 == 1 || n.0 == 10 {
        27
    } else if n.0 == 6 || n.0 == 7 || n.0 == 9 {
        28
    } else if n.0 == 15 || n.0 == 21 {
        29
    } else if n.0 == 3 || n.0 == 4 {
        2
    } else if n.0 == 16 {
        5
    } else if n.0 == 0 {
        8
    } else if n.0 == 12 || n.0 == 13 {
        11
    } else if n.0 == 22 {
        14
    } else if n.0 == 18 || n.0 == 19 {
        17
    } else if n.0 == 24 || n.0 == 25 {
        23
    } else {
        n.0 as int
    }
}

/// The parts of the demultiplexer between pins that no link joins.
pub open spec fn bit_demux_zone() -> spec_fn(NodeIndex) -> int {
    |n: NodeIndex| bit_demux_part_of(n)
}

/// Whether the links of the demultiplexer between pins join their ends
/// both ways in `c`.
pub open spec fn bit_demux_wired(c: Circuit) -> bool {
    &&& has_link(c, node(2), node(3))
    &&& has_link(c, node(3), node(2))
    &&& has_link(c, node(2), node(4))
    &&& has_link(c, node(4), node(2))
    &&& has_link(c, node(6), node(7))
    &&& has_link(c, node(7), node(6))
    &&& has_link(c, node(11), node(12))
    &&& has_link(c, node(12), node(11))
    &&& has_link(c, node(11), node(13))
    &&& has_link(c, node(13), node(11))
    &&& has_link(c, node(17), node(18))
    &&& has_link(c, node(18), node(17))
    &&& has_link(c, node(17), node(19))
    &&& has_link(c, node(19), node(17))
    &&& has_link(c, node(23), node(24))
    &&& has_link(c, node(24), node(23))
    &&& has_link(c, node(23), node(25))
    &&& has_link(c, node(25), node(23))
    &&& has_link(c, node(8), node(0))
    &&& has_link(c, node(0), node(8))
    &&& has_link(c, node(6), node(9))
    &&& has_link(c, node(9), node(6))
    &&& has_link(c, node(1), node(10))
    &&& has_link(c, node(10), node(1))
    &&& has_link(c, node(15), node(21))
    &&& has_link(c, node(21), node(15))
    &&& has_link(c, node(16), node(5))
    &&& has_link(c, node(5), node(16))
    &&& has_link(c, node(22), node(14))
    &&& has_link(c, node(14), node(22))
    &&& has_link(c, node(27), node(1))
    &&& has_link(c, node(1), node(27))
    &&& has_link(c, node(28), node(6))
    &&& has_link(c, node(6), node(28))
    &&& has_link(c, node(29), node(15))
    &&& has_link(c, node(15), node(29))
}

/// The demultiplexer between pins, spelled out, and sound as a session.
#[verifier::rlimit(100)]
pub proof fn lemma_bit_demux_is_sound(di: PropogationDelay, ds: PropogationDelay, de: PropogationDelay)
    ensures
        ({
            let nl = bit_demux_between_pins(di, ds, de);
            &&& nl.elements == nands(0, 9) + seq![
                Primitive::Pin(PinElem { node: node(27) }),
                Primitive::Pin(PinElem { node: node(28) }),
                Primitive::Pin(PinElem { node: node(29) }),
            ]
            &&& nl.links == bit_demux_links(0) + seq![
                (node(27), node(1), di),
                (node(28), node(6), ds),
                (node(29), node(15), de),
            ]
            &&& nl.links.len() == 18
            &&& nl.links[0] == wired(2, 3)
            &&& nl.links[1] == wired(2, 4)
            &&& nl.links[2] == wired(6, 7)
            &&& nl.links[3] == wired(11, 12)
            &&& nl.links[4] == wired(11, 13)
            &&& nl.links[5] == wired(17, 18)
            &&& nl.links[6] == wired(17, 19)
            &&& nl.links[7] == wired(23, 24)
            &&& nl.links[8] == wired(23, 25)
            &&& nl.links[9] == wired(8, 0)
            &&& nl.links[10] == wired(6, 9)
            &&& nl.links[11] == wired(1, 10)
            &&& nl.links[12] == wired(15, 21)
            &&& nl.links[13] == wired(16, 5)
            &&& nl.links[14] == wired(22, 14)
            &&& nl.links[15] == (node(27), node(1), di)
            &&& nl.links[16] == (node(28), node(6), ds)
            &&& nl.links[17] == (node(29), node(15), de)
            &&& sound_session(nl, bit_demux_zone())
            &&& sound_sources(nl.elements, bit_demux_pins(), bit_demux_sources())
        }),
{
    let nl = bit_demux_between_pins(di, ds, de);
    let zone = bit_demux_zone();
    let start = Netlist::starting_at(0);
    lemma_bit_demux_flat(start);
    assert(start.elements + nands(0, 9) =~= nands(0, 9));
    assert(start.links + bit_demux_links(0) =~= bit_demux_links(0));
    let pins = seq![
        Primitive::Pin(PinElem { node: node(27) }),
        Primitive::Pin(PinElem { node: node(28) }),
        Primitive::Pin(PinElem { node: node(29) }),
    ];
    let to_pins = seq![(node(27), node(1), di), (node(28), node(6), ds), (node(29), node(15), de)];
    assert(nl.elements =~= nands(0, 9) + pins);
    assert(nl.links =~= bit_demux_links(0) + to_pins);
    let h = bit_demux_links(0);
    assert(h.len() == 15);
    assert(nl.links[0] == h[0]);
    assert(nl.links[1] == h[1]);
    assert(nl.links[2] == h[2]);
    assert(nl.links[3] == h[3]);
    assert(nl.links[4] == h[4]);
    assert(nl.links[5] == h[5]);
    assert(nl.links[6] == h[6]);
    assert(nl.links[7] == h[7]);
    assert(nl.links[8] == h[8]);
    assert(nl.links[9] == h[9]);
    assert(nl.links[10] == h[10]);
    assert(nl.links[11] == h[11]);
    assert(nl.links[12] == h[12]);
    assert(nl.links[13] == h[13]);
    assert(nl.links[14] == h[14]);
    assert forall|i: int| 0 <= i < 12 implies (#[trigger] nl.elements[i]).standing() is None && (if i < 9 {
        nl.elements[i] == nand_on((3 * i) as nat) && nl.elements[i].claims() =~= seq![
            node((3 * i) as nat),
            node((3 * i + 1) as nat),
            node((3 * i + 2) as nat),
        ]
    } else {
        nl.elements[i].claims() =~= seq![node((18 + i) as nat)]
    }) by {
        if i < 9 {
            assert(nl.elements[i] == nands(0, 9)[i]);
        }
    }
    assert(distinct_claims(nl.elements)) by {
        assert forall|i: int, k: int, i2: int, k2: int|
            0 <= i < nl.elements.len() && 0 <= k < nl.elements[i].claims().len() && 0 <= i2
                < nl.elements.len() && 0 <= k2 < nl.elements[i2].claims().len() && (i != i2 || k != k2) implies #[trigger] nl.elements[i].claims()[k]
            != #[trigger] nl.elements[i2].claims()[k2] by {
            let n = if i < 9 {
                3 * i + k
            } else {
                18 + i
            };
            let n2 = if i2 < 9 {
                3 * i2 + k2
            } else {
                18 + i2
            };
            assert(nl.elements[i].claims()[k] == node(n as nat));
            assert(nl.elements[i2].claims()[k2] == node(n2 as nat));
            assert(n != n2);
        }
    }
    assert(zone_fits(bit_demux_links(0), zone));
    assert(zone_fits(to_pins, zone));
    lemma_zone_fits_both(bit_demux_links(0), to_pins, zone);
    assert(Circuit::empty().can_absorb(nl)) by {
        assert forall|i: int, k: int|
            0 <= i < nl.elements.len() && 0 <= k < nl.elements[i].claims().len() implies (
        #[trigger] nl.elements[i].claims()[k]).0 < usize::MAX by {
            let n = if i < 9 {
                3 * i + k
            } else {
                18 + i
            };
            assert(nl.elements[i].claims()[k] == node(n as nat));
        }
    }
    assert(sound_sources(nl.elements, bit_demux_pins(), bit_demux_sources())) by {
        assert forall|i: int| 0 <= i < nl.elements.len() implies match (#[trigger] nl.elements[i]).drives() {
            Some(n) => bit_demux_sources().contains(n) && !bit_demux_pins().contains(n),
            None => true,
        } by {
            if i < 9 {
                assert(nl.elements[i].drives() == Some(node((3 * i + 2) as nat)));
            }
        }
    }
}

/// What holds of the demultiplexer between pins whatever is written to its
/// pins and however often the event loop is turned.
#[verifier::rlimit(100)]
pub proof fn lemma_bit_demux_grounds(
    di: PropogationDelay,
    ds: PropogationDelay,
    de: PropogationDelay,
    script: Seq<Action>,
)
    requires
        sound_script(bit_demux_between_pins(di, ds, de), script, bit_demux_pins()),
    ensures
        ({
            let c = Circuit::empty().absorbed(bit_demux_between_pins(di, ds, de)).0.followed(script);
            &&& c.wf()
            &&& c.coherent()
            &&& c.obedient()
            &&& confined(c, bit_demux_zone(), bit_demux_sources())
            &&& c.elements.len() == 12
            &&& forall|k: int| 0 <= k < 9 ==> #[trigger] c.elements[k] == Primitive::Nand(gate_on((3 * k) as nat))
            &&& c.nodes.len() >= 30
            &&& bit_demux_wired(c)
        }),
{
    let nl = bit_demux_between_pins(di, ds, de);
    lemma_bit_demux_is_sound(di, ds, de);
    lemma_built_and_followed(nl, bit_demux_zone(), bit_demux_pins(), bit_demux_sources(), script);
    let c = Circuit::empty().absorbed(nl).0.followed(script);
    assert forall|k: int| 0 <= k < 9 implies #[trigger] c.elements[k] == Primitive::Nand(
        gate_on((3 * k) as nat),
    ) by {
        assert(nl.elements[k] == nands(0, 9)[k]);
    }
    assert(c.nodes.len() >= 30) by {
        assert(c.elements[11] == Primitive::Pin(PinElem { node: node(29) }));
        assert(c.owns(11, c.elements[11].claims()[0]));
    }
    assert(has_link(c, nl.links[0].0, nl.links[0].1) && has_link(c, nl.links[0].1, nl.links[0].0));
    assert(has_link(c, nl.links[1].0, nl.links[1].1) && has_link(c, nl.links[1].1, nl.links[1].0));
    assert(has_link(c, nl.links[2].0, nl.links[2].1) && has_link(c, nl.links[2].1, nl.links[2].0));
    assert(has_link(c, nl.links[3].0, nl.links[3].1) && has_link(c, nl.links[3].1, nl.links[3].0));
    assert(has_link(c, nl.links[4].0, nl.links[4].1) && has_link(c, nl.links[4].1, nl.links[4].0));
    assert(has_link(c, nl.links[5].0, nl.links[5].1) && has_link(c, nl.links[5].1, nl.links[5].0));
    assert(has_link(c, nl.links[6].0, nl.links[6].1) && has_link(c, nl.links[6].1, nl.links[6].0));
    assert(has_link(c, nl.links[7].0, nl.links[7].1) && has_link(c, nl.links[7].1, nl.links[7].0));
    assert(has_link(c, nl.links[8].0, nl.links[8].1) && has_link(c, nl.links[8].1, nl.links[8].0));
    assert(has_link(c, nl.links[9].0, nl.links[9].1) && has_link(c, nl.links[9].1, nl.links[9].0));
    assert(has_link(c, nl.links[10].0, nl.links[10].1) && has_link(c, nl.links[10].1, nl.links[10].0));
    assert(has_link(c, nl.links[11].0, nl.links[11].1) && has_link(c, nl.links[11].1, nl.links[11].0));
    assert(has_link(c, nl.links[12].0, nl.links[12].1) && has_link(c, nl.links[12].1, nl.links[12].0));
    assert(has_link(c, nl.links[13].0, nl.links[13].1) && has_link(c, nl.links[13].1, nl.links[13].0));
    assert(has_link(c, nl.links[14].0, nl.links[14].1) && has_link(c, nl.links[14].1, nl.links[14].0));
    assert(has_link(c, nl.links[15].0, nl.links[15].1) && has_link(c, nl.links[15].1, nl.links[15].0));
    assert(has_link(c, nl.links[16].0, nl.links[16].1) && has_link(c, nl.links[16].1, nl.links[16].0));
    assert(has_link(c, nl.links[17].0, nl.links[17].1) && has_link(c, nl.links[17].1, nl.links[17].0));
}

/// Whether each pin of the demultiplexer between pins is driven to Low or to High.
pub open spec fn bit_demux_pins_are_binary(c: Circuit) -> bool {
    &&& c.wire(node(27)).output_state == LineState::Low || c.wire(node(27)).output_state == LineState::High
    &&& c.wire(node(28)).output_state == LineState::Low || c.wire(node(28)).output_state == LineState::High
    &&& c.wire(node(29)).output_state == LineState::Low || c.wire(node(29)).output_state == LineState::High
}

/// At rest, the first NAND gates of the demultiplexer between pins drive the NAND of
/// what feeds them.
#[verifier::rlimit(100)]
proof fn lemma_bit_demux_part_1(
    di: PropogationDelay,
    ds: PropogationDelay,
    de: PropogationDelay,
    script: Seq<Action>,
)
    requires
        sound_script(bit_demux_between_pins(di, ds, de), script, bit_demux_pins()),
        Circuit::empty().absorbed(bit_demux_between_pins(di, ds, de)).0.followed(script).quiescent(),
        bit_demux_pins_are_binary(Circuit::empty().absorbed(bit_demux_between_pins(di, ds, de)).0.followed(script)),
    ensures
        ({
            let c = Circuit::empty().absorbed(bit_demux_between_pins(di, ds, de)).0.followed(script);
            &&& nand_is(c, 8, 28, 28)
            &&& nand_is(c, 2, 8, 27)
            &&& nand_is(c, 5, 2, 2)
            &&& nand_is(c, 11, 28, 27)
        }),
{
    let c = Circuit::empty().absorbed(bit_demux_between_pins(di, ds, de)).0.followed(script);
    let zone = bit_demux_zone();
    let sources = bit_demux_sources();
    lemma_bit_demux_grounds(di, ds, de, script);
    lemma_leads_over_one(c, zone, sources, node(28), node(6));
    lemma_leads_over_two(c, zone, sources, node(28), node(6), node(7));
    lemma_nand_at_rest(c, zone, sources, 2, gate_on(6), seq![node(28), node(6)], seq![node(28), node(6), node(7)]);
    lemma_leads_over_one(c, zone, sources, node(8), node(0));
    lemma_leads_over_one(c, zone, sources, node(27), node(1));
    lemma_nand_at_rest(c, zone, sources, 0, gate_on(0), seq![node(8), node(0)], seq![node(27), node(1)]);
    lemma_leads_over_one(c, zone, sources, node(2), node(3));
    lemma_leads_over_one(c, zone, sources, node(2), node(4));
    lemma_nand_at_rest(c, zone, sources, 1, gate_on(3), seq![node(2), node(3)], seq![node(2), node(4)]);
    lemma_leads_over_two(c, zone, sources, node(28), node(6), node(9));
    lemma_leads_over_two(c, zone, sources, node(27), node(1), node(10));
    lemma_nand_at_rest(c, zone, sources, 3, gate_on(9), seq![node(28), node(6), node(9)], seq![node(27), node(1), node(10)]);
}

/// At rest, the next NAND gates of the demultiplexer between pins drive the NAND of
/// what feeds them.
#[verifier::rlimit(100)]
proof fn lemma_bit_demux_part_2(
    di: PropogationDelay,
    ds: PropogationDelay,
    de: PropogationDelay,
    script: Seq<Action>,
)
    requires
        sound_script(bit_demux_between_pins(di, ds, de), script, bit_demux_pins()),
        Circuit::empty().absorbed(bit_demux_between_pins(di, ds, de)).0.followed(script).quiescent(),
        bit_demux_pins_are_binary(Circuit::empty().absorbed(bit_demux_between_pins(di, ds, de)).0.followed(script)),
    ensures
        ({
            let c = Circuit::empty().absorbed(bit_demux_between_pins(di, ds, de)).0.followed(script);
            &&& nand_is(c, 14, 11, 11)
            &&& nand_is(c, 17, 29, 5)
            &&& nand_is(c, 20, 17, 17)
        }),
{
    let c = Circuit::empty().absorbed(bit_demux_between_pins(di, ds, de)).0.followed(script);
    let zone = bit_demux_zone();
    let sources = bit_demux_sources();
    lemma_bit_demux_grounds(di, ds, de, script);
    lemma_bit_demux_part_1(di, ds, de, script);
    lemma_leads_over_one(c, zone, sources, node(11), node(12));
    lemma_leads_over_one(c, zone, sources, node(11), node(13));
    lemma_nand_at_rest(c, zone, sources, 4, gate_on(12), seq![node(11), node(12)], seq![node(11), node(13)]);
    lemma_leads_over_one(c, zone, sources, node(29), node(15));
    lemma_leads_over_one(c, zone, sources, node(5), node(16));
    lemma_nand_at_rest(c, zone, sources, 5, gate_on(15), seq![node(29), node(15)], seq![node(5), node(16)]);
    lemma_leads_over_one(c, zone, sources, node(17), node(18));
    lemma_leads_over_one(c, zone, sources, node(17), node(19));
    lemma_nand_at_rest(c, zone, sources, 6, gate_on(18), seq![node(17), node(18)], seq![node(17), node(19)]);
}

/// At rest, the last NAND gates of the demultiplexer between pins drive the NAND of
/// what feeds them.
#[verifier::rlimit(100)]
proof fn lemma_bit_demux_part_3(
    di: PropogationDelay,
    ds: PropogationDelay,
    de: PropogationDelay,
    script: Seq<Action>,
)
    requires
        sound_script(bit_demux_between_pins(di, ds, de), script, bit_demux_pins()),
        Circuit::empty().absorbed(bit_demux_between_pins(di, ds, de)).0.followed(script).quiescent(),
        bit_demux_pins_are_binary(Circuit::empty().absorbed(bit_demux_between_pins(di, ds, de)).0.followed(script)),
    ensures
        ({
            let c = Circuit::empty().absorbed(bit_demux_between_pins(di, ds, de)).0.followed(script);
            &&& nand_is(c, 23, 29, 14)
            &&& nand_is(c, 26, 23, 23)
        }),
{
    let c = Circuit::empty().absorbed(bit_demux_between_pins(di, ds, de)).0.followed(script);
    let zone = bit_demux_zone();
    let sources = bit_demux_sources();
    lemma_bit_demux_grounds(di, ds, de, script);
    lemma_bit_demux_part_1(di, ds, de, script);
    lemma_bit_demux_part_2(di, ds, de, script);
    lemma_leads_over_two(c, zone, sources, node(29), node(15), node(21));
    lemma_leads_over_one(c, zone, sources, node(14), node(22));
    lemma_nand_at_rest(c, zone, sources, 7, gate_on(21), seq![node(29), node(15), node(21)], seq![node(14), node(22)]);
    lemma_leads_over_one(c, zone, sources, node(23), node(24));
    lemma_leads_over_one(c, zone, sources, node(23), node(25));
    lemma_nand_at_rest(c, zone, sources, 8, gate_on(24), seq![node(23), node(24)], seq![node(23), node(25)]);
}

/// At rest, the outputs of the demultiplexer between pins read what they are driven to.
#[verifier::rlimit(100)]
proof fn lemma_bit_demux_outputs(
    di: PropogationDelay,
    ds: PropogationDelay,
    de: PropogationDelay,
    script: Seq<Action>,
)
    requires
        sound_script(bit_demux_between_pins(di, ds, de), script, bit_demux_pins()),
        Circuit::empty().absorbed(bit_demux_between_pins(di, ds, de)).0.followed(script).quiescent(),
        bit_demux_pins_are_binary(Circuit::empty().absorbed(bit_demux_between_pins(di, ds, de)).0.followed(script)),
    ensures
        ({
            let c = Circuit::empty().absorbed(bit_demux_between_pins(di, ds, de)).0.followed(script);
            &&& c.reading(node(20)) == c.wire(node(20)).output_state
            &&& c.reading(node(26)) == c.wire(node(26)).output_state
        }),
{
    let c = Circuit::empty().absorbed(bit_demux_between_pins(di, ds, de)).0.followed(script);
    let zone = bit_demux_zone();
    let sources = bit_demux_sources();
    lemma_bit_demux_grounds(di, ds, de, script);
    lemma_bit_demux_part_1(di, ds, de, script);
    lemma_bit_demux_part_2(di, ds, de, script);
    lemma_bit_demux_part_3(di, ds, de, script);
    lemma_source_at_rest(c, zone, sources, node(20));
    lemma_source_at_rest(c, zone, sources, node(26));
}

/// The demultiplexer of one bit settles to its input on the output that
/// it selects. Absorb a demultiplexer and a pin for its input, its select
/// and its enable into an empty simulation; write to the pins and turn the
/// event loop, in any order. If the circuit is at rest in the end and each
/// pin is driven to Low or to High, the first output reads High exactly if
/// the input and the enable are driven to High and the select to Low, the
/// second exactly if all three are driven to High; an output that does
/// not read High reads Low.
pub proof fn lemma_bit_demux_settles(
    di: PropogationDelay,
    ds: PropogationDelay,
    de: PropogationDelay,
    script: Seq<Action>,
)
    requires
        sound_script(bit_demux_between_pins(di, ds, de), script, bit_demux_pins()),
        Circuit::empty().absorbed(bit_demux_between_pins(di, ds, de)).0.followed(script).quiescent(),
        bit_demux_pins_are_binary(
            Circuit::empty().absorbed(bit_demux_between_pins(di, ds, de)).0.followed(script),
        ),
    ensures
        ({
            let c = Circuit::empty().absorbed(bit_demux_between_pins(di, ds, de)).0.followed(script);
            let i = c.wire(node(27)).output_state;
            let s = c.wire(node(28)).output_state;
            let e = c.wire(node(29)).output_state;
            &&& c.reading(node(20)) == if i == LineState::High && e == LineState::High && s == LineState::Low {
                LineState::High
            } else {
                LineState::Low
            }
            &&& c.reading(node(26)) == if i == LineState::High && e == LineState::High && s == LineState::High {
                LineState::High
            } else {
                LineState::Low
            }
        }),
{
    lemma_bit_demux_part_1(di, ds, de, script);
    lemma_bit_demux_part_2(di, ds, de, script);
    lemma_bit_demux_part_3(di, ds, de, script);
    lemma_bit_demux_outputs(di, ds, de, script);
}

} // verus!
