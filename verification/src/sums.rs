//! The half adder and the full adder settle to the sum of their inputs.

use vstd::prelude::*;
use crate::adder::{Adder, HalfAdder};
use crate::circuit::{Action, Circuit};
use crate::element::Primitive;
use crate::logic_gates::{AndGate, NandGate, OrGate, XorGate};
use crate::nand::{nand_of, NandElem};
use crate::netlist::{Netlist, Wiring};
use crate::part::{lemma_row_of_four, Part};
use crate::pin::{Pin, PinElem};
use crate::rest::{
    distinct_claims, has_link, lemma_built_and_followed, lemma_leads_over_one, lemma_leads_over_two,
    lemma_nand_at_rest, lemma_source_at_rest, lemma_zone_fits_both, sound_script, sound_session,
    sound_sources, zone_fits,
};
use crate::sim::{LineState, NodeIndex, PropogationDelay};
use crate::zones::confined;

verus! {

/// The node with the number `n`.
pub open spec fn node(n: nat) -> NodeIndex {
    NodeIndex(n as usize)
}

/// The NAND gate on the three nodes from `first` on.
pub open spec fn nand_on(first: nat) -> Primitive {
    Primitive::Nand(NandElem { a: node(first), b: node(first + 1), output: node(first + 2) })
}

/// A row of `count` NAND gates on the nodes from `first` on.
pub open spec fn nands(first: nat, count: nat) -> Seq<Primitive> {
    Seq::new(count, |k: int| nand_on((first + 3 * k) as nat))
}

/// A link of the standard delay between the nodes `a` and `b`.
pub open spec fn wired(a: nat, b: nat) -> Wiring {
    (node(a), node(b), PropogationDelay(100))
}

/// The links of an XOR gate on the nodes from `n` on.
pub open spec fn xor_links(n: nat) -> Seq<Wiring> {
    seq![
        wired(n + 2, n + 4),
        wired(n + 2, n + 6),
        wired(n, n + 3),
        wired(n + 1, n + 7),
        wired(n + 5, n + 9),
        wired(n + 8, n + 10),
    ]
}

/// The links of an AND gate on the nodes from `n` on.
pub open spec fn and_links(n: nat) -> Seq<Wiring> {
    seq![wired(n + 2, n + 3), wired(n + 2, n + 4)]
}

/// The links of an OR gate on the nodes from `n` on.
pub open spec fn or_links(n: nat) -> Seq<Wiring> {
    seq![wired(n, n + 1), wired(n + 3, n + 4), wired(n + 2, n + 6), wired(n + 5, n + 7)]
}

/// The links of a half adder on the nodes from `n` on.
pub open spec fn half_links(n: nat) -> Seq<Wiring> {
    xor_links(n) + and_links(n + 12) + seq![wired(n, n + 12), wired(n + 1, n + 13)]
}

/// The links of a full adder on the nodes from `n` on.
pub open spec fn adder_links(n: nat) -> Seq<Wiring> {
    half_links(n) + half_links(n + 18) + or_links(n + 36) + seq![
        wired(n + 17, n + 36),
        wired(n + 35, n + 40),
        wired(n + 11, n + 18),
    ]
}

/// A NAND gate, spelled out.
pub proof fn lemma_nand_flat(nl: Netlist)
    ensures
        NandGate::staged(nl).next == nl.next + 3,
        NandGate::staged(nl).elements == nl.elements + nands(nl.next, 1),
        NandGate::staged(nl).links == nl.links,
        NandGate::at(nl) == (NandGate { a: node(nl.next), b: node(nl.next + 1), output: node(nl.next + 2) }),
{
    assert(NandGate::staged(nl).elements =~= nl.elements + nands(nl.next, 1));
}

/// An XOR gate, spelled out.
pub proof fn lemma_xor_flat(nl: Netlist)
    ensures
        XorGate::staged(nl).next == nl.next + 12,
        XorGate::staged(nl).elements == nl.elements + nands(nl.next, 4),
        XorGate::staged(nl).links == nl.links + xor_links(nl.next),
        XorGate::at(nl) == (XorGate { a: node(nl.next), b: node(nl.next + 1), output: node(nl.next + 11) }),
{
    lemma_row_of_four::<NandGate>(nl);
    let n1 = NandGate::staged(nl);
    let n2 = NandGate::staged(n1);
    let n3 = NandGate::staged(n2);
    lemma_nand_flat(nl);
    lemma_nand_flat(n1);
    lemma_nand_flat(n2);
    lemma_nand_flat(n3);
    assert(XorGate::staged(nl).elements =~= nl.elements + nands(nl.next, 4));
    assert(XorGate::staged(nl).links =~= nl.links + xor_links(nl.next));
}

/// An AND gate, spelled out.
pub proof fn lemma_and_flat(nl: Netlist)
    ensures
        AndGate::staged(nl).next == nl.next + 6,
        AndGate::staged(nl).elements == nl.elements + nands(nl.next, 2),
        AndGate::staged(nl).links == nl.links + and_links(nl.next),
        AndGate::at(nl) == (AndGate { a: node(nl.next), b: node(nl.next + 1), output: node(nl.next + 5) }),
{
    lemma_nand_flat(nl);
    lemma_nand_flat(NandGate::staged(nl));
    assert(AndGate::staged(nl).elements =~= nl.elements + nands(nl.next, 2));
    assert(AndGate::staged(nl).links =~= nl.links + and_links(nl.next));
}

/// An OR gate, spelled out.
pub proof fn lemma_or_flat(nl: Netlist)
    ensures
        OrGate::staged(nl).next == nl.next + 9,
        OrGate::staged(nl).elements == nl.elements + nands(nl.next, 3),
        OrGate::staged(nl).links == nl.links + or_links(nl.next),
        OrGate::at(nl) == (OrGate { a: node(nl.next), b: node(nl.next + 4), output: node(nl.next + 8) }),
{
    lemma_row_of_four::<NandGate>(nl);
    let n1 = NandGate::staged(nl);
    let n2 = NandGate::staged(n1);
    lemma_nand_flat(nl);
    lemma_nand_flat(n1);
    lemma_nand_flat(n2);
    assert(OrGate::staged(nl).elements =~= nl.elements + nands(nl.next, 3));
    assert(OrGate::staged(nl).links =~= nl.links + or_links(nl.next));
}

/// A half adder, spelled out.
pub proof fn lemma_half_adder_flat(nl: Netlist)
    ensures
        HalfAdder::staged(nl).next == nl.next + 18,
        HalfAdder::staged(nl).elements == nl.elements + nands(nl.next, 6),
        HalfAdder::staged(nl).links == nl.links + half_links(nl.next),
        HalfAdder::at(nl) == (HalfAdder {
            a: node(nl.next),
            b: node(nl.next + 1),
            sum: node(nl.next + 11),
            carry: node(nl.next + 17),
        }),
{
    lemma_xor_flat(nl);
    lemma_and_flat(XorGate::staged(nl));
    assert(HalfAdder::staged(nl).elements =~= nl.elements + nands(nl.next, 6));
    assert(HalfAdder::staged(nl).links =~= nl.links + half_links(nl.next));
}

/// A full adder, spelled out.
pub proof fn lemma_adder_flat(nl: Netlist)
    ensures
        Adder::staged(nl).next == nl.next + 45,
        Adder::staged(nl).elements == nl.elements + nands(nl.next, 15),
        Adder::staged(nl).links == nl.links + adder_links(nl.next),
        Adder::at(nl) == (Adder {
            a: node(nl.next),
            b: node(nl.next + 1),
            carry_in: node(nl.next + 19),
            sum: node(nl.next + 29),
            carry_out: node(nl.next + 44),
        }),
{
    lemma_half_adder_flat(nl);
    let n1 = HalfAdder::staged(nl);
    lemma_half_adder_flat(n1);
    let n2 = HalfAdder::staged(n1);
    lemma_or_flat(n2);
    assert(Adder::staged(nl).elements =~= nl.elements + nands(nl.next, 15));
    assert(Adder::staged(nl).links =~= nl.links + adder_links(nl.next));
}

/// The NAND gate on the three nodes from `first` on, as an element.
pub open spec fn gate_on(first: nat) -> NandElem {
    NandElem { a: node(first), b: node(first + 1), output: node(first + 2) }
}

/// The session that stages a full adder on the nodes 0 to 44 and a pin
/// for each of its inputs: node 45 for `a`, node 46 for `b`, node 47 for
/// the carry that comes in. The sum is node 29, the carry that goes out is
/// node 44.
pub open spec fn adder_between_pins(da: PropogationDelay, db: PropogationDelay, dc: PropogationDelay) -> Netlist {
    let start = Netlist::starting_at(0);
    let adder = Adder::at(start);
    let n1 = Adder::staged(start);
    let pin_a = Pin::at(n1);
    let n2 = Pin::staged(n1);
    let pin_b = Pin::at(n2);
    let n3 = Pin::staged(n2);
    let pin_c = Pin::at(n3);
    Pin::staged(n3).with_link(pin_a.node, adder.a, da).with_link(pin_b.node, adder.b, db).with_link(
        pin_c.node,
        adder.carry_in,
        dc,
    )
}

/// The pins of the full adder between pins.
pub open spec fn adder_pins() -> Set<NodeIndex> {
    Set::new(|n: NodeIndex| 45 <= n.0 < 48)
}

/// The nodes of the full adder between pins that are written or driven:
/// the pins and the outputs of the NAND gates.
pub open spec fn adder_sources() -> Set<NodeIndex> {
    Set::new(|n: NodeIndex| n.0 < 48 && (n.0 >= 45 || n.0 % 3 == 2))
}

/// The source of the part of the full adder between pins in which node
/// `n` lies: the pin or the output of a NAND gate to which links join it.
pub open spec fn adder_part_of(n: NodeIndex) -> int {
    if n.0 == 0 || n.0 == 3 || n.0 == 12 {
        45
    } else if n.0 == 1 || n.0 == 7 || n.0 == 13 {
        46
    } else if n.0 == 4 || n.0 == 6 {
        2
    } else if n.0 == 9 {
        5
    } else if n.0 == 10 {
        8
    } else if n.0 == 15 || n.0 == 16 {
        14
    } else if n.0 == 18 || n.0 == 21 || n.0 == 30 {
        11
    } else if n.0 == 19 || n.0 == 25 || n.0 == 31 {
        47
    } else if n.0 == 22 || n.0 == 24 {
        20
    } else if n.0 == 27 {
        23
    } else if n.0 == 28 {
        26
    } else if n.0 == 33 || n.0 == 34 {
        32
    } else if n.0 == 36 || n.0 == 37 {
        17
    } else if n.0 == 39 || n.0 == 40 {
        35
    } else if n.0 == 42 {
        38
    } else if n.0 == 43 {
        41
    } else {
        n.0 as int
    }
}

/// The parts of the full adder between pins that no link joins.
pub open spec fn adder_zone() -> spec_fn(NodeIndex) -> int {
    |n: NodeIndex| adder_part_of(n)
}

/// The full adder between pins, spelled out.
pub proof fn lemma_adder_session(da: PropogationDelay, db: PropogationDelay, dc: PropogationDelay)
    ensures
        ({
            let nl = adder_between_pins(da, db, dc);
            &&& nl.next == 48
            &&& nl.elements == nands(0, 15) + seq![
                Primitive::Pin(PinElem { node: node(45) }),
                Primitive::Pin(PinElem { node: node(46) }),
                Primitive::Pin(PinElem { node: node(47) }),
            ]
            &&& nl.links == adder_links(0) + seq![
                (node(45), node(0), da),
                (node(46), node(1), db),
                (node(47), node(19), dc),
            ]
        }),
{
    let nl = adder_between_pins(da, db, dc);
    let start = Netlist::starting_at(0);
    lemma_adder_flat(start);
    assert(start.elements + nands(0, 15) =~= nands(0, 15));
    assert(start.links + adder_links(0) =~= adder_links(0));
    assert(nl.elements =~= nands(0, 15) + seq![
        Primitive::Pin(PinElem { node: node(45) }),
        Primitive::Pin(PinElem { node: node(46) }),
        Primitive::Pin(PinElem { node: node(47) }),
    ]);
    assert(nl.links =~= adder_links(0) + seq![
        (node(45), node(0), da),
        (node(46), node(1), db),
        (node(47), node(19), dc),
    ]);
}

/// Whether the links of the full adder between pins join their ends both
/// ways in `c`.
pub open spec fn adder_wired(c: Circuit) -> bool {
        &&& has_link(c, node(2), node(4))
        &&& has_link(c, node(4), node(2))
        &&& has_link(c, node(2), node(6))
        &&& has_link(c, node(6), node(2))
        &&& has_link(c, node(0), node(3))
        &&& has_link(c, node(3), node(0))
        &&& has_link(c, node(1), node(7))
        &&& has_link(c, node(7), node(1))
        &&& has_link(c, node(5), node(9))
        &&& has_link(c, node(9), node(5))
        &&& has_link(c, node(8), node(10))
        &&& has_link(c, node(10), node(8))
        &&& has_link(c, node(14), node(15))
        &&& has_link(c, node(15), node(14))
        &&& has_link(c, node(14), node(16))
        &&& has_link(c, node(16), node(14))
        &&& has_link(c, node(0), node(12))
        &&& has_link(c, node(12), node(0))
        &&& has_link(c, node(1), node(13))
        &&& has_link(c, node(13), node(1))
        &&& has_link(c, node(20), node(22))
        &&& has_link(c, node(22), node(20))
        &&& has_link(c, node(20), node(24))
        &&& has_link(c, node(24), node(20))
        &&& has_link(c, node(18), node(21))
        &&& has_link(c, node(21), node(18))
        &&& has_link(c, node(19), node(25))
        &&& has_link(c, node(25), node(19))
        &&& has_link(c, node(23), node(27))
        &&& has_link(c, node(27), node(23))
        &&& has_link(c, node(26), node(28))
        &&& has_link(c, node(28), node(26))
        &&& has_link(c, node(32), node(33))
        &&& has_link(c, node(33), node(32))
        &&& has_link(c, node(32), node(34))
        &&& has_link(c, node(34), node(32))
        &&& has_link(c, node(18), node(30))
        &&& has_link(c, node(30), node(18))
        &&& has_link(c, node(19), node(31))
        &&& has_link(c, node(31), node(19))
        &&& has_link(c, node(36), node(37))
        &&& has_link(c, node(37), node(36))
        &&& has_link(c, node(39), node(40))
        &&& has_link(c, node(40), node(39))
        &&& has_link(c, node(38), node(42))
        &&& has_link(c, node(42), node(38))
        &&& has_link(c, node(41), node(43))
        &&& has_link(c, node(43), node(41))
        &&& has_link(c, node(17), node(36))
        &&& has_link(c, node(36), node(17))
        &&& has_link(c, node(35), node(40))
        &&& has_link(c, node(40), node(35))
        &&& has_link(c, node(11), node(18))
        &&& has_link(c, node(18), node(11))
        &&& has_link(c, node(45), node(0))
        &&& has_link(c, node(0), node(45))
        &&& has_link(c, node(46), node(1))
        &&& has_link(c, node(1), node(46))
        &&& has_link(c, node(47), node(19))
        &&& has_link(c, node(19), node(47))
}

/// The full adder between pins is a sound session: no node is claimed
/// twice, nothing drives from the start, and its links stay within the
/// parts.
#[verifier::rlimit(80)]
pub proof fn lemma_adder_is_sound(da: PropogationDelay, db: PropogationDelay, dc: PropogationDelay)
    ensures
        sound_session(adder_between_pins(da, db, dc), adder_zone()),
        sound_sources(adder_between_pins(da, db, dc).elements, adder_pins(), adder_sources()),
{
    let nl = adder_between_pins(da, db, dc);
    let zone = adder_zone();
    lemma_adder_session(da, db, dc);
    assert(nl.elements.len() == 18);
    assert(nl.links.len() == 30);
    assert forall|i: int| 0 <= i < 18 implies (#[trigger] nl.elements[i]).standing() is None && (if i < 15 {
        nl.elements[i] == nand_on((3 * i) as nat) && nl.elements[i].claims() =~= seq![
            node((3 * i) as nat),
            node((3 * i + 1) as nat),
            node((3 * i + 2) as nat),
        ]
    } else {
        nl.elements[i].claims() =~= seq![node((30 + i) as nat)]
    }) by {
        if i < 15 {
            assert(nl.elements[i] == nands(0, 15)[i]);
        }
    }
    assert(distinct_claims(nl.elements)) by {
        assert forall|i: int, k: int, i2: int, k2: int|
            0 <= i < nl.elements.len() && 0 <= k < nl.elements[i].claims().len() && 0 <= i2
                < nl.elements.len() && 0 <= k2 < nl.elements[i2].claims().len() && (i != i2 || k != k2) implies #[trigger] nl.elements[i].claims()[k]
            != #[trigger] nl.elements[i2].claims()[k2] by {
            let n = if i < 15 {
                3 * i + k
            } else {
                30 + i
            };
            let n2 = if i2 < 15 {
                3 * i2 + k2
            } else {
                30 + i2
            };
            assert(nl.elements[i].claims()[k] == node(n as nat));
            assert(nl.elements[i2].claims()[k2] == node(n2 as nat));
            assert(n != n2);
        }
    }
    assert(zone_fits(xor_links(0), zone));
    assert(zone_fits(and_links(12), zone));
    assert(zone_fits(seq![wired(0, 12), wired(1, 13)], zone));
    lemma_zone_fits_both(xor_links(0), and_links(12), zone);
    lemma_zone_fits_both(xor_links(0) + and_links(12), seq![wired(0, 12), wired(1, 13)], zone);
    assert(zone_fits(xor_links(18), zone));
    assert(zone_fits(and_links(30), zone));
    assert(zone_fits(seq![wired(18, 30), wired(19, 31)], zone));
    lemma_zone_fits_both(xor_links(18), and_links(30), zone);
    lemma_zone_fits_both(xor_links(18) + and_links(30), seq![wired(18, 30), wired(19, 31)], zone);
    assert(zone_fits(or_links(36), zone));
    assert(zone_fits(seq![wired(17, 36), wired(35, 40), wired(11, 18)], zone));
    lemma_zone_fits_both(half_links(0), half_links(18), zone);
    lemma_zone_fits_both(half_links(0) + half_links(18), or_links(36), zone);
    lemma_zone_fits_both(
        half_links(0) + half_links(18) + or_links(36),
        seq![wired(17, 36), wired(35, 40), wired(11, 18)],
        zone,
    );
    let to_pins = seq![(node(45), node(0), da), (node(46), node(1), db), (node(47), node(19), dc)];
    assert(zone_fits(to_pins, zone));
    lemma_zone_fits_both(adder_links(0), to_pins, zone);
    assert(Circuit::empty().can_absorb(nl)) by {
        assert forall|i: int, k: int|
            0 <= i < nl.elements.len() && 0 <= k < nl.elements[i].claims().len() implies (
        #[trigger] nl.elements[i].claims()[k]).0 < usize::MAX by {
            let n = if i < 15 {
                3 * i + k
            } else {
                30 + i
            };
            assert(nl.elements[i].claims()[k] == node(n as nat));
        }
        assert forall|i: int| 0 <= i < nl.links.len() implies (#[trigger] nl.links[i]).0.0 < usize::MAX
            && nl.links[i].1.0 < usize::MAX by {
            lemma_adder_links_are_small(da, db, dc, i);
        }
    }
    assert(sound_sources(nl.elements, adder_pins(), adder_sources())) by {
        assert forall|i: int| 0 <= i < nl.elements.len() implies match (#[trigger] nl.elements[i]).drives() {
            Some(n) => adder_sources().contains(n) && !adder_pins().contains(n),
            None => true,
        } by {
            if i < 15 {
                assert(nl.elements[i].drives() == Some(node((3 * i + 2) as nat)));
            }
        }
    }
}

/// The links of the full adder between pins, one by one.
#[verifier::rlimit(80)]
pub proof fn lemma_adder_links(da: PropogationDelay, db: PropogationDelay, dc: PropogationDelay)
    ensures
        ({
            let nl = adder_between_pins(da, db, dc);
            &&& nl.links.len() == 30
            &&& nl.links[0] == wired(2, 4)
            &&& nl.links[1] == wired(2, 6)
            &&& nl.links[2] == wired(0, 3)
            &&& nl.links[3] == wired(1, 7)
            &&& nl.links[4] == wired(5, 9)
            &&& nl.links[5] == wired(8, 10)
            &&& nl.links[6] == wired(14, 15)
            &&& nl.links[7] == wired(14, 16)
            &&& nl.links[8] == wired(0, 12)
            &&& nl.links[9] == wired(1, 13)
            &&& nl.links[10] == wired(20, 22)
            &&& nl.links[11] == wired(20, 24)
            &&& nl.links[12] == wired(18, 21)
            &&& nl.links[13] == wired(19, 25)
            &&& nl.links[14] == wired(23, 27)
            &&& nl.links[15] == wired(26, 28)
            &&& nl.links[16] == wired(32, 33)
            &&& nl.links[17] == wired(32, 34)
            &&& nl.links[18] == wired(18, 30)
            &&& nl.links[19] == wired(19, 31)
            &&& nl.links[20] == wired(36, 37)
            &&& nl.links[21] == wired(39, 40)
            &&& nl.links[22] == wired(38, 42)
            &&& nl.links[23] == wired(41, 43)
            &&& nl.links[24] == wired(17, 36)
            &&& nl.links[25] == wired(35, 40)
            &&& nl.links[26] == wired(11, 18)
            &&& nl.links[27] == (node(45), node(0), da)
            &&& nl.links[28] == (node(46), node(1), db)
            &&& nl.links[29] == (node(47), node(19), dc)
        }),
{
    let nl = adder_between_pins(da, db, dc);
    lemma_adder_session(da, db, dc);
    let h1 = half_links(0);
    let h2 = half_links(18);
    let o = or_links(36);
    assert(h1.len() == 10);
    assert(h2.len() == 10);
    assert(o.len() == 4);
    assert(adder_links(0).len() == 27);
    assert(h1[0] == wired(2, 4));
    assert(h1[1] == wired(2, 6));
    assert(h1[2] == wired(0, 3));
    assert(h1[3] == wired(1, 7));
    assert(h1[4] == wired(5, 9));
    assert(h1[5] == wired(8, 10));
    assert(h1[6] == wired(14, 15));
    assert(h1[7] == wired(14, 16));
    assert(h1[8] == wired(0, 12));
    assert(h1[9] == wired(1, 13));
    assert(h2[0] == wired(20, 22));
    assert(h2[1] == wired(20, 24));
    assert(h2[2] == wired(18, 21));
    assert(h2[3] == wired(19, 25));
    assert(h2[4] == wired(23, 27));
    assert(h2[5] == wired(26, 28));
    assert(h2[6] == wired(32, 33));
    assert(h2[7] == wired(32, 34));
    assert(h2[8] == wired(18, 30));
    assert(h2[9] == wired(19, 31));
    assert(adder_links(0)[0] == h1[0]);
    assert(adder_links(0)[1] == h1[1]);
    assert(adder_links(0)[2] == h1[2]);
    assert(adder_links(0)[3] == h1[3]);
    assert(adder_links(0)[4] == h1[4]);
    assert(adder_links(0)[5] == h1[5]);
    assert(adder_links(0)[6] == h1[6]);
    assert(adder_links(0)[7] == h1[7]);
    assert(adder_links(0)[8] == h1[8]);
    assert(adder_links(0)[9] == h1[9]);
    assert(adder_links(0)[10] == h2[0]);
    assert(adder_links(0)[11] == h2[1]);
    assert(adder_links(0)[12] == h2[2]);
    assert(adder_links(0)[13] == h2[3]);
    assert(adder_links(0)[14] == h2[4]);
    assert(adder_links(0)[15] == h2[5]);
    assert(adder_links(0)[16] == h2[6]);
    assert(adder_links(0)[17] == h2[7]);
    assert(adder_links(0)[18] == h2[8]);
    assert(adder_links(0)[19] == h2[9]);
    assert(adder_links(0)[20] == o[0]);
    assert(adder_links(0)[21] == o[1]);
    assert(adder_links(0)[22] == o[2]);
    assert(adder_links(0)[23] == o[3]);
    assert(nl.links[0] == adder_links(0)[0]);
    assert(nl.links[1] == adder_links(0)[1]);
    assert(nl.links[2] == adder_links(0)[2]);
    assert(nl.links[3] == adder_links(0)[3]);
    assert(nl.links[4] == adder_links(0)[4]);
    assert(nl.links[5] == adder_links(0)[5]);
    assert(nl.links[6] == adder_links(0)[6]);
    assert(nl.links[7] == adder_links(0)[7]);
    assert(nl.links[8] == adder_links(0)[8]);
    assert(nl.links[9] == adder_links(0)[9]);
    assert(nl.links[10] == adder_links(0)[10]);
    assert(nl.links[11] == adder_links(0)[11]);
    assert(nl.links[12] == adder_links(0)[12]);
    assert(nl.links[13] == adder_links(0)[13]);
    assert(nl.links[14] == adder_links(0)[14]);
    assert(nl.links[15] == adder_links(0)[15]);
    assert(nl.links[16] == adder_links(0)[16]);
    assert(nl.links[17] == adder_links(0)[17]);
    assert(nl.links[18] == adder_links(0)[18]);
    assert(nl.links[19] == adder_links(0)[19]);
    assert(nl.links[20] == adder_links(0)[20]);
    assert(nl.links[21] == adder_links(0)[21]);
    assert(nl.links[22] == adder_links(0)[22]);
    assert(nl.links[23] == adder_links(0)[23]);
    assert(nl.links[24] == adder_links(0)[24]);
    assert(nl.links[25] == adder_links(0)[25]);
    assert(nl.links[26] == adder_links(0)[26]);
}

/// The ends of the links of the full adder between pins are nodes with
/// small numbers.
proof fn lemma_adder_links_are_small(da: PropogationDelay, db: PropogationDelay, dc: PropogationDelay, i: int)
    requires
        0 <= i < 30,
    ensures
        adder_between_pins(da, db, dc).links[i].0.0 < 48,
        adder_between_pins(da, db, dc).links[i].1.0 < 48,
{
    lemma_adder_links(da, db, dc);
}

/// What a signal counts: one if High, nothing if not.
pub open spec fn bit(s: LineState) -> int {
    if s == LineState::High {
        1
    } else {
        0
    }
}

/// What holds of the full adder between pins whatever is written to its
/// pins and however often the event loop is turned.
#[verifier::rlimit(80)]
pub proof fn lemma_adder_grounds(
    da: PropogationDelay,
    db: PropogationDelay,
    dc: PropogationDelay,
    script: Seq<Action>,
)
    requires
        sound_script(adder_between_pins(da, db, dc), script, adder_pins()),
    ensures
        ({
            let c = Circuit::empty().absorbed(adder_between_pins(da, db, dc)).0.followed(script);
            &&& c.wf()
            &&& c.coherent()
            &&& c.obedient()
            &&& confined(c, adder_zone(), adder_sources())
            &&& c.elements.len() == 18
            &&& forall|k: int| 0 <= k < 15 ==> #[trigger] c.elements[k] == Primitive::Nand(gate_on((3 * k) as nat))
            &&& c.nodes.len() >= 48
            &&& adder_wired(c)
        }),
{
    let nl = adder_between_pins(da, db, dc);
    lemma_adder_session(da, db, dc);
    lemma_adder_is_sound(da, db, dc);
    lemma_adder_links(da, db, dc);
    lemma_built_and_followed(nl, adder_zone(), adder_pins(), adder_sources(), script);
    let c = Circuit::empty().absorbed(nl).0.followed(script);
    assert forall|k: int| 0 <= k < 15 implies #[trigger] c.elements[k] == Primitive::Nand(
        gate_on((3 * k) as nat),
    ) by {
        assert(nl.elements[k] == nands(0, 15)[k]);
    }
    assert(c.nodes.len() >= 48) by {
        assert(c.elements[17] == Primitive::Pin(PinElem { node: node(47) }));
        assert(c.owns(17, c.elements[17].claims()[0]));
    }
    assert(has_link(c, nl.links[0].0, nl.links[0].1) && has_link(c, nl.links[0].1, nl.links[0].0));
    assert(has_link(c, nl.links[1].0, nl.links[1].1) && has_link(c, nl.links[1].1, nl.links[1].0));
    assert(has_link(c, nl.links[2].0, nl.links[2].1) && has_link(c, nl.links[2].1, nl.links[2].0));
    assert(has_link(c, nl.links[3].0, nl.links[3].1) && has_link(c, nl.links[3].1, nl.links[3].0));
    assert(has_link(c, nl.links[4].0, nl.links[4].1) && has_link(c, nl.links[4].1, nl.links[4].0));
    assert(has_link(c, nl.links[5].0, nl.links[5].1) && has_link(c, nl.links[5].1, nl.links[5].0));
    assert(has_link(c, nl.links[6].0, nl.links[6].1) && has_link(c, nl.links[6].1, nl.links[6].0));
    assert(has_link(c, nl.links[7].0, nl.links[7].1) && has_link(c, nl.links[7].1, nl.links[7].0));
    assert(has_link(c, nl.links[8].0, nl.links[8].1) && has_link(c, nl.links[8].1, nl.links[8].0));
    assert(has_link(c, nl.links[9].0, nl.links[9].1) && has_link(c, nl.links[9].1, nl.links[9].0));
    assert(has_link(c, nl.links[10].0, nl.links[10].1) && has_link(c, nl.links[10].1, nl.links[10].0));
    assert(has_link(c, nl.links[11].0, nl.links[11].1) && has_link(c, nl.links[11].1, nl.links[11].0));
    assert(has_link(c, nl.links[12].0, nl.links[12].1) && has_link(c, nl.links[12].1, nl.links[12].0));
    assert(has_link(c, nl.links[13].0, nl.links[13].1) && has_link(c, nl.links[13].1, nl.links[13].0));
    assert(has_link(c, nl.links[14].0, nl.links[14].1) && has_link(c, nl.links[14].1, nl.links[14].0));
    assert(has_link(c, nl.links[15].0, nl.links[15].1) && has_link(c, nl.links[15].1, nl.links[15].0));
    assert(has_link(c, nl.links[16].0, nl.links[16].1) && has_link(c, nl.links[16].1, nl.links[16].0));
    assert(has_link(c, nl.links[17].0, nl.links[17].1) && has_link(c, nl.links[17].1, nl.links[17].0));
    assert(has_link(c, nl.links[18].0, nl.links[18].1) && has_link(c, nl.links[18].1, nl.links[18].0));
    assert(has_link(c, nl.links[19].0, nl.links[19].1) && has_link(c, nl.links[19].1, nl.links[19].0));
    assert(has_link(c, nl.links[20].0, nl.links[20].1) && has_link(c, nl.links[20].1, nl.links[20].0));
    assert(has_link(c, nl.links[21].0, nl.links[21].1) && has_link(c, nl.links[21].1, nl.links[21].0));
    assert(has_link(c, nl.links[22].0, nl.links[22].1) && has_link(c, nl.links[22].1, nl.links[22].0));
    assert(has_link(c, nl.links[23].0, nl.links[23].1) && has_link(c, nl.links[23].1, nl.links[23].0));
    assert(has_link(c, nl.links[24].0, nl.links[24].1) && has_link(c, nl.links[24].1, nl.links[24].0));
    assert(has_link(c, nl.links[25].0, nl.links[25].1) && has_link(c, nl.links[25].1, nl.links[25].0));
    assert(has_link(c, nl.links[26].0, nl.links[26].1) && has_link(c, nl.links[26].1, nl.links[26].0));
    assert(has_link(c, nl.links[27].0, nl.links[27].1) && has_link(c, nl.links[27].1, nl.links[27].0));
    assert(has_link(c, nl.links[28].0, nl.links[28].1) && has_link(c, nl.links[28].1, nl.links[28].0));
    assert(has_link(c, nl.links[29].0, nl.links[29].1) && has_link(c, nl.links[29].1, nl.links[29].0));
}

/// Whether each pin of the full adder between pins is driven to Low or to
/// High in `c`.
pub open spec fn pins_are_binary(c: Circuit) -> bool {
    &&& c.wire(node(45)).output_state == LineState::Low || c.wire(node(45)).output_state == LineState::High
    &&& c.wire(node(46)).output_state == LineState::Low || c.wire(node(46)).output_state == LineState::High
    &&& c.wire(node(47)).output_state == LineState::Low || c.wire(node(47)).output_state == LineState::High
}

/// Whether node `out` is driven to the NAND of what the nodes `a` and `b`
/// are driven to, which is Low or High.
pub open spec fn nand_is(c: Circuit, out: nat, a: nat, b: nat) -> bool {
    &&& c.wire(node(out)).output_state == nand_of(c.wire(node(a)).output_state, c.wire(node(b)).output_state)
    &&& c.wire(node(out)).output_state == LineState::Low || c.wire(node(out)).output_state == LineState::High
}

/// At rest, the first four NAND gates of the full adder between pins drive the
/// NAND of what feeds them.
#[verifier::rlimit(100)]
proof fn lemma_adder_part_1(
    da: PropogationDelay,
    db: PropogationDelay,
    dc: PropogationDelay,
    script: Seq<Action>,
)
    requires
        sound_script(adder_between_pins(da, db, dc), script, adder_pins()),
        Circuit::empty().absorbed(adder_between_pins(da, db, dc)).0.followed(script).quiescent(),
        pins_are_binary(Circuit::empty().absorbed(adder_between_pins(da, db, dc)).0.followed(script)),
    ensures
        ({
            let c = Circuit::empty().absorbed(adder_between_pins(da, db, dc)).0.followed(script);
            &&& nand_is(c, 2, 45, 46)
            &&& nand_is(c, 5, 45, 2)
            &&& nand_is(c, 8, 2, 46)
            &&& nand_is(c, 11, 5, 8)
        }),
{
    let c = Circuit::empty().absorbed(adder_between_pins(da, db, dc)).0.followed(script);
    let zone = adder_zone();
    let sources = adder_sources();
    lemma_adder_grounds(da, db, dc, script);
    lemma_leads_over_one(c, zone, sources, node(45), node(0));
    lemma_leads_over_one(c, zone, sources, node(46), node(1));
    lemma_nand_at_rest(c, zone, sources, 0, gate_on(0), seq![node(45), node(0)], seq![node(46), node(1)]);
    lemma_leads_over_two(c, zone, sources, node(45), node(0), node(3));
    lemma_leads_over_one(c, zone, sources, node(2), node(4));
    lemma_nand_at_rest(c, zone, sources, 1, gate_on(3), seq![node(45), node(0), node(3)], seq![node(2), node(4)]);
    lemma_leads_over_one(c, zone, sources, node(2), node(6));
    lemma_leads_over_two(c, zone, sources, node(46), node(1), node(7));
    lemma_nand_at_rest(c, zone, sources, 2, gate_on(6), seq![node(2), node(6)], seq![node(46), node(1), node(7)]);
    lemma_leads_over_one(c, zone, sources, node(5), node(9));
    lemma_leads_over_one(c, zone, sources, node(8), node(10));
    lemma_nand_at_rest(c, zone, sources, 3, gate_on(9), seq![node(5), node(9)], seq![node(8), node(10)]);
}

/// At rest, the next four NAND gates of the full adder between pins drive the
/// NAND of what feeds them.
#[verifier::rlimit(100)]
proof fn lemma_adder_part_2(
    da: PropogationDelay,
    db: PropogationDelay,
    dc: PropogationDelay,
    script: Seq<Action>,
)
    requires
        sound_script(adder_between_pins(da, db, dc), script, adder_pins()),
        Circuit::empty().absorbed(adder_between_pins(da, db, dc)).0.followed(script).quiescent(),
        pins_are_binary(Circuit::empty().absorbed(adder_between_pins(da, db, dc)).0.followed(script)),
    ensures
        ({
            let c = Circuit::empty().absorbed(adder_between_pins(da, db, dc)).0.followed(script);
            &&& nand_is(c, 14, 45, 46)
            &&& nand_is(c, 17, 14, 14)
            &&& nand_is(c, 20, 11, 47)
            &&& nand_is(c, 23, 11, 20)
        }),
{
    let c = Circuit::empty().absorbed(adder_between_pins(da, db, dc)).0.followed(script);
    let zone = adder_zone();
    let sources = adder_sources();
    lemma_adder_grounds(da, db, dc, script);
    lemma_adder_part_1(da, db, dc, script);
    lemma_leads_over_two(c, zone, sources, node(45), node(0), node(12));
    lemma_leads_over_two(c, zone, sources, node(46), node(1), node(13));
    lemma_nand_at_rest(c, zone, sources, 4, gate_on(12), seq![node(45), node(0), node(12)], seq![node(46), node(1), node(13)]);
    lemma_leads_over_one(c, zone, sources, node(14), node(15));
    lemma_leads_over_one(c, zone, sources, node(14), node(16));
    lemma_nand_at_rest(c, zone, sources, 5, gate_on(15), seq![node(14), node(15)], seq![node(14), node(16)]);
    lemma_leads_over_one(c, zone, sources, node(11), node(18));
    lemma_leads_over_one(c, zone, sources, node(47), node(19));
    lemma_nand_at_rest(c, zone, sources, 6, gate_on(18), seq![node(11), node(18)], seq![node(47), node(19)]);
    lemma_leads_over_two(c, zone, sources, node(11), node(18), node(21));
    lemma_leads_over_one(c, zone, sources, node(20), node(22));
    lemma_nand_at_rest(c, zone, sources, 7, gate_on(21), seq![node(11), node(18), node(21)], seq![node(20), node(22)]);
}

/// At rest, the third four NAND gates of the full adder between pins drive the
/// NAND of what feeds them.
#[verifier::rlimit(100)]
proof fn lemma_adder_part_3(
    da: PropogationDelay,
    db: PropogationDelay,
    dc: PropogationDelay,
    script: Seq<Action>,
)
    requires
        sound_script(adder_between_pins(da, db, dc), script, adder_pins()),
        Circuit::empty().absorbed(adder_between_pins(da, db, dc)).0.followed(script).quiescent(),
        pins_are_binary(Circuit::empty().absorbed(adder_between_pins(da, db, dc)).0.followed(script)),
    ensures
        ({
            let c = Circuit::empty().absorbed(adder_between_pins(da, db, dc)).0.followed(script);
            &&& nand_is(c, 26, 20, 47)
            &&& nand_is(c, 29, 23, 26)
            &&& nand_is(c, 32, 11, 47)
            &&& nand_is(c, 35, 32, 32)
        }),
{
    let c = Circuit::empty().absorbed(adder_between_pins(da, db, dc)).0.followed(script);
    let zone = adder_zone();
    let sources = adder_sources();
    lemma_adder_grounds(da, db, dc, script);
    lemma_adder_part_1(da, db, dc, script);
    lemma_adder_part_2(da, db, dc, script);
    lemma_leads_over_one(c, zone, sources, node(20), node(24));
    lemma_leads_over_two(c, zone, sources, node(47), node(19), node(25));
    lemma_nand_at_rest(c, zone, sources, 8, gate_on(24), seq![node(20), node(24)], seq![node(47), node(19), node(25)]);
    lemma_leads_over_one(c, zone, sources, node(23), node(27));
    lemma_leads_over_one(c, zone, sources, node(26), node(28));
    lemma_nand_at_rest(c, zone, sources, 9, gate_on(27), seq![node(23), node(27)], seq![node(26), node(28)]);
    lemma_leads_over_two(c, zone, sources, node(11), node(18), node(30));
    lemma_leads_over_two(c, zone, sources, node(47), node(19), node(31));
    lemma_nand_at_rest(c, zone, sources, 10, gate_on(30), seq![node(11), node(18), node(30)], seq![node(47), node(19), node(31)]);
    lemma_leads_over_one(c, zone, sources, node(32), node(33));
    lemma_leads_over_one(c, zone, sources, node(32), node(34));
    lemma_nand_at_rest(c, zone, sources, 11, gate_on(33), seq![node(32), node(33)], seq![node(32), node(34)]);
}

/// At rest, the last three NAND gates of the full adder between pins drive the
/// NAND of what feeds them.
#[verifier::rlimit(100)]
proof fn lemma_adder_part_4(
    da: PropogationDelay,
    db: PropogationDelay,
    dc: PropogationDelay,
    script: Seq<Action>,
)
    requires
        sound_script(adder_between_pins(da, db, dc), script, adder_pins()),
        Circuit::empty().absorbed(adder_between_pins(da, db, dc)).0.followed(script).quiescent(),
        pins_are_binary(Circuit::empty().absorbed(adder_between_pins(da, db, dc)).0.followed(script)),
    ensures
        ({
            let c = Circuit::empty().absorbed(adder_between_pins(da, db, dc)).0.followed(script);
            &&& nand_is(c, 38, 17, 17)
            &&& nand_is(c, 41, 35, 35)
            &&& nand_is(c, 44, 38, 41)
        }),
{
    let c = Circuit::empty().absorbed(adder_between_pins(da, db, dc)).0.followed(script);
    let zone = adder_zone();
    let sources = adder_sources();
    lemma_adder_grounds(da, db, dc, script);
    lemma_adder_part_1(da, db, dc, script);
    lemma_adder_part_2(da, db, dc, script);
    lemma_adder_part_3(da, db, dc, script);
    lemma_leads_over_one(c, zone, sources, node(17), node(36));
    lemma_leads_over_two(c, zone, sources, node(17), node(36), node(37));
    lemma_nand_at_rest(c, zone, sources, 12, gate_on(36), seq![node(17), node(36)], seq![node(17), node(36), node(37)]);
    lemma_leads_over_two(c, zone, sources, node(35), node(40), node(39));
    lemma_leads_over_one(c, zone, sources, node(35), node(40));
    lemma_nand_at_rest(c, zone, sources, 13, gate_on(39), seq![node(35), node(40), node(39)], seq![node(35), node(40)]);
    lemma_leads_over_one(c, zone, sources, node(38), node(42));
    lemma_leads_over_one(c, zone, sources, node(41), node(43));
    lemma_nand_at_rest(c, zone, sources, 14, gate_on(42), seq![node(38), node(42)], seq![node(41), node(43)]);
}

/// The full adder settles to the sum of its inputs. Absorb a full adder
/// and a pin for each of its inputs into an empty simulation; write to the
/// pins and turn the event loop, in any order. If the circuit is at rest
/// in the end and each pin is driven to Low or to High, the sum and the
/// carry that goes out read Low or High each, and as a number of two bits
/// they spell how many of the three pins are driven to High.
#[verifier::rlimit(100)]
pub proof fn lemma_adder_settles(
    da: PropogationDelay,
    db: PropogationDelay,
    dc: PropogationDelay,
    script: Seq<Action>,
)
    requires
        sound_script(adder_between_pins(da, db, dc), script, adder_pins()),
        Circuit::empty().absorbed(adder_between_pins(da, db, dc)).0.followed(script).quiescent(),
        pins_are_binary(Circuit::empty().absorbed(adder_between_pins(da, db, dc)).0.followed(script)),
    ensures
        ({
            let c = Circuit::empty().absorbed(adder_between_pins(da, db, dc)).0.followed(script);
            let sum = c.reading(node(29));
            let carry_out = c.reading(node(44));
            &&& sum == LineState::Low || sum == LineState::High
            &&& carry_out == LineState::Low || carry_out == LineState::High
            &&& bit(sum) + 2 * bit(carry_out) == bit(c.wire(node(45)).output_state) + bit(
                c.wire(node(46)).output_state,
            ) + bit(c.wire(node(47)).output_state)
        }),
{
    let c = Circuit::empty().absorbed(adder_between_pins(da, db, dc)).0.followed(script);
    lemma_adder_part_1(da, db, dc, script);
    lemma_adder_part_2(da, db, dc, script);
    lemma_adder_part_3(da, db, dc, script);
    lemma_adder_part_4(da, db, dc, script);
    lemma_adder_outputs(da, db, dc, script);
}

/// At rest, the sum and the carry of the full adder between pins read
/// what they are driven to.
#[verifier::rlimit(100)]
proof fn lemma_adder_outputs(
    da: PropogationDelay,
    db: PropogationDelay,
    dc: PropogationDelay,
    script: Seq<Action>,
)
    requires
        sound_script(adder_between_pins(da, db, dc), script, adder_pins()),
        Circuit::empty().absorbed(adder_between_pins(da, db, dc)).0.followed(script).quiescent(),
        pins_are_binary(Circuit::empty().absorbed(adder_between_pins(da, db, dc)).0.followed(script)),
    ensures
        ({
            let c = Circuit::empty().absorbed(adder_between_pins(da, db, dc)).0.followed(script);
            &&& c.reading(node(29)) == c.wire(node(29)).output_state
            &&& c.reading(node(44)) == c.wire(node(44)).output_state
        }),
{
    let c = Circuit::empty().absorbed(adder_between_pins(da, db, dc)).0.followed(script);
    let zone = adder_zone();
    let sources = adder_sources();
    lemma_adder_grounds(da, db, dc, script);
    lemma_adder_part_3(da, db, dc, script);
    lemma_adder_part_4(da, db, dc, script);
    lemma_source_at_rest(c, zone, sources, node(29));
    lemma_source_at_rest(c, zone, sources, node(44));
}

/// The session that stages a half adder on the nodes 0 to 17 and a pin
/// for each of its inputs: node 18 for `a`, node 19 for `b`. The sum is
/// node 11, the carry is node 17.
pub open spec fn half_adder_between_pins(da: PropogationDelay, db: PropogationDelay) -> Netlist {
    let start = Netlist::starting_at(0);
    let adder = HalfAdder::at(start);
    let n1 = HalfAdder::staged(start);
    let pin_a = Pin::at(n1);
    let n2 = Pin::staged(n1);
    let pin_b = Pin::at(n2);
    Pin::staged(n2).with_link(pin_a.node, adder.a, da).with_link(pin_b.node, adder.b, db)
}

/// The pins of the half adder between pins.
pub open spec fn half_adder_pins() -> Set<NodeIndex> {
    Set::new(|n: NodeIndex| 18 <= n.0 < 20)
}

/// The nodes of the half adder between pins that are written or driven:
/// the pins and the outputs of the NAND gates.
pub open spec fn half_adder_sources() -> Set<NodeIndex> {
    Set::new(|n: NodeIndex| n.0 < 20 && (n.0 >= 18 || n.0 % 3 == 2))
}

/// The source of the part of the half adder between pins in which node
/// `n` lies.
pub open spec fn half_adder_part_of(n: NodeIndex) -> int {
    if n.0 == 0 || n.0 == 3 || n.0 == 12 {
        18
    } else if n.0 == 1 || n.0 == 7 || n.0 == 13 {
        19
    } else if n.0 == 4 || n.0 == 6 {
        2
    } else if n.0 == 9 {
        5
    } else if n.0 == 10 {
        8
    } else if n.0 == 15 || n.0 == 16 {
        14
    } else {
        n.0 as int
    }
}

/// The parts of the half adder between pins that no link joins.
pub open spec fn half_adder_zone() -> spec_fn(NodeIndex) -> int {
    |n: NodeIndex| half_adder_part_of(n)
}

/// Whether the links of the half adder between pins join their ends both
/// ways in `c`.
pub open spec fn half_adder_wired(c: Circuit) -> bool {
        &&& has_link(c, node(2), node(4))
        &&& has_link(c, node(4), node(2))
        &&& has_link(c, node(2), node(6))
        &&& has_link(c, node(6), node(2))
        &&& has_link(c, node(0), node(3))
        &&& has_link(c, node(3), node(0))
        &&& has_link(c, node(1), node(7))
        &&& has_link(c, node(7), node(1))
        &&& has_link(c, node(5), node(9))
        &&& has_link(c, node(9), node(5))
        &&& has_link(c, node(8), node(10))
        &&& has_link(c, node(10), node(8))
        &&& has_link(c, node(14), node(15))
        &&& has_link(c, node(15), node(14))
        &&& has_link(c, node(14), node(16))
        &&& has_link(c, node(16), node(14))
        &&& has_link(c, node(0), node(12))
        &&& has_link(c, node(12), node(0))
        &&& has_link(c, node(1), node(13))
        &&& has_link(c, node(13), node(1))
        &&& has_link(c, node(18), node(0))
        &&& has_link(c, node(0), node(18))
        &&& has_link(c, node(19), node(1))
        &&& has_link(c, node(1), node(19))
}

/// The half adder between pins, spelled out, and sound as a session.
#[verifier::rlimit(80)]
pub proof fn lemma_half_adder_is_sound(da: PropogationDelay, db: PropogationDelay)
    ensures
        ({
            let nl = half_adder_between_pins(da, db);
            &&& nl.elements == nands(0, 6) + seq![
                Primitive::Pin(PinElem { node: node(18) }),
                Primitive::Pin(PinElem { node: node(19) }),
            ]
            &&& nl.links == half_links(0) + seq![(node(18), node(0), da), (node(19), node(1), db)]
            &&& nl.links.len() == 12
            &&& nl.links[0] == wired(2, 4)
            &&& nl.links[1] == wired(2, 6)
            &&& nl.links[2] == wired(0, 3)
            &&& nl.links[3] == wired(1, 7)
            &&& nl.links[4] == wired(5, 9)
            &&& nl.links[5] == wired(8, 10)
            &&& nl.links[6] == wired(14, 15)
            &&& nl.links[7] == wired(14, 16)
            &&& nl.links[8] == wired(0, 12)
            &&& nl.links[9] == wired(1, 13)
            &&& nl.links[10] == (node(18), node(0), da)
            &&& nl.links[11] == (node(19), node(1), db)
            &&& sound_session(nl, half_adder_zone())
            &&& sound_sources(nl.elements, half_adder_pins(), half_adder_sources())
        }),
{
    let nl = half_adder_between_pins(da, db);
    let zone = half_adder_zone();
    let start = Netlist::starting_at(0);
    lemma_half_adder_flat(start);
    assert(start.elements + nands(0, 6) =~= nands(0, 6));
    assert(start.links + half_links(0) =~= half_links(0));
    let pins = seq![Primitive::Pin(PinElem { node: node(18) }), Primitive::Pin(PinElem { node: node(19) })];
    let to_pins = seq![(node(18), node(0), da), (node(19), node(1), db)];
    assert(nl.elements =~= nands(0, 6) + pins);
    assert(nl.links =~= half_links(0) + to_pins);
    let h = half_links(0);
    assert(h.len() == 10);
    assert(h[0] == wired(2, 4));
    assert(h[1] == wired(2, 6));
    assert(h[2] == wired(0, 3));
    assert(h[3] == wired(1, 7));
    assert(h[4] == wired(5, 9));
    assert(h[5] == wired(8, 10));
    assert(h[6] == wired(14, 15));
    assert(h[7] == wired(14, 16));
    assert(h[8] == wired(0, 12));
    assert(h[9] == wired(1, 13));
    assert(nl.links[0] == h[0]);
    assert(nl.links[1] == h[1]);
    assert(nl.links[2] == h[2]);
    assert(nl.links[3] == h[3]);
    assert(nl.links[4] == h[4]);
    assert(nl.links[5] == h[5]);
    assert(nl.links[6] == h[6]);
    assert(nl.links[7] == h[7]);
    assert(nl.links[8] == h[8]);
    assert(nl.links[9] == h[9]);
    assert forall|i: int| 0 <= i < 8 implies (#[trigger] nl.elements[i]).standing() is None && (if i < 6 {
        nl.elements[i] == nand_on((3 * i) as nat) && nl.elements[i].claims() =~= seq![
            node((3 * i) as nat),
            node((3 * i + 1) as nat),
            node((3 * i + 2) as nat),
        ]
    } else {
        nl.elements[i].claims() =~= seq![node((12 + i) as nat)]
    }) by {
        if i < 6 {
            assert(nl.elements[i] == nands(0, 6)[i]);
        }
    }
    assert(distinct_claims(nl.elements)) by {
        assert forall|i: int, k: int, i2: int, k2: int|
            0 <= i < nl.elements.len() && 0 <= k < nl.elements[i].claims().len() && 0 <= i2
                < nl.elements.len() && 0 <= k2 < nl.elements[i2].claims().len() && (i != i2 || k != k2) implies #[trigger] nl.elements[i].claims()[k]
            != #[trigger] nl.elements[i2].claims()[k2] by {
            let n = if i < 6 {
                3 * i + k
            } else {
                12 + i
            };
            let n2 = if i2 < 6 {
                3 * i2 + k2
            } else {
                12 + i2
            };
            assert(nl.elements[i].claims()[k] == node(n as nat));
            assert(nl.elements[i2].claims()[k2] == node(n2 as nat));
            assert(n != n2);
        }
    }
    assert(zone_fits(xor_links(0), zone));
    assert(zone_fits(and_links(12), zone));
    assert(zone_fits(seq![wired(0, 12), wired(1, 13)], zone));
    lemma_zone_fits_both(xor_links(0), and_links(12), zone);
    lemma_zone_fits_both(xor_links(0) + and_links(12), seq![wired(0, 12), wired(1, 13)], zone);
    assert(zone_fits(to_pins, zone));
    lemma_zone_fits_both(half_links(0), to_pins, zone);
    assert(Circuit::empty().can_absorb(nl)) by {
        assert forall|i: int, k: int|
            0 <= i < nl.elements.len() && 0 <= k < nl.elements[i].claims().len() implies (
        #[trigger] nl.elements[i].claims()[k]).0 < usize::MAX by {
            let n = if i < 6 {
                3 * i + k
            } else {
                12 + i
            };
            assert(nl.elements[i].claims()[k] == node(n as nat));
        }
    }
    assert(sound_sources(nl.elements, half_adder_pins(), half_adder_sources())) by {
        assert forall|i: int| 0 <= i < nl.elements.len() implies match (#[trigger] nl.elements[i]).drives() {
            Some(n) => half_adder_sources().contains(n) && !half_adder_pins().contains(n),
            None => true,
        } by {
            if i < 6 {
                assert(nl.elements[i].drives() == Some(node((3 * i + 2) as nat)));
            }
        }
    }
}

/// What holds of the half adder between pins whatever is written to its
/// pins and however often the event loop is turned.
#[verifier::rlimit(80)]
pub proof fn lemma_half_adder_grounds(da: PropogationDelay, db: PropogationDelay, script: Seq<Action>)
    requires
        sound_script(half_adder_between_pins(da, db), script, half_adder_pins()),
    ensures
        ({
            let c = Circuit::empty().absorbed(half_adder_between_pins(da, db)).0.followed(script);
            &&& c.wf()
            &&& c.coherent()
            &&& c.obedient()
            &&& confined(c, half_adder_zone(), half_adder_sources())
            &&& c.elements.len() == 8
            &&& forall|k: int| 0 <= k < 6 ==> #[trigger] c.elements[k] == Primitive::Nand(gate_on((3 * k) as nat))
            &&& c.nodes.len() >= 20
            &&& half_adder_wired(c)
        }),
{
    let nl = half_adder_between_pins(da, db);
    lemma_half_adder_is_sound(da, db);
    lemma_built_and_followed(nl, half_adder_zone(), half_adder_pins(), half_adder_sources(), script);
    let c = Circuit::empty().absorbed(nl).0.followed(script);
    assert forall|k: int| 0 <= k < 6 implies #[trigger] c.elements[k] == Primitive::Nand(
        gate_on((3 * k) as nat),
    ) by {
        assert(nl.elements[k] == nands(0, 6)[k]);
    }
    assert(c.nodes.len() >= 20) by {
        assert(c.elements[7] == Primitive::Pin(PinElem { node: node(19) }));
        assert(c.owns(7, c.elements[7].claims()[0]));
    }
    assert(has_link(c, nl.links[0].0, nl.links[0].1) && has_link(c, nl.links[0].1, nl.links[0].0));
    assert(has_link(c, nl.links[1].0, nl.links[1].1) && has_link(c, nl.links[1].1, nl.links[1].0));
    assert(has_link(c, nl.links[2].0, nl.links[2].1) && has_link(c, nl.links[2].1, nl.links[2].0));
    assert(has_link(c, nl.links[3].0, nl.links[3].1) && has_link(c, nl.links[3].1, nl.links[3].0));
    assert(has_link(c, nl.links[4].0, nl.links[4].1) && has_link(c, nl.links[4].1, nl.links[4].0));
    assert(has_link(c, nl.links[5].0, nl.links[5].1) && has_link(c, nl.links[5].1, nl.links[5].0));
    assert(has_link(c, nl.links[6].0, nl.links[6].1) && has_link(c, nl.links[6].1, nl.links[6].0));
    assert(has_link(c, nl.links[7].0, nl.links[7].1) && has_link(c, nl.links[7].1, nl.links[7].0));
    assert(has_link(c, nl.links[8].0, nl.links[8].1) && has_link(c, nl.links[8].1, nl.links[8].0));
    assert(has_link(c, nl.links[9].0, nl.links[9].1) && has_link(c, nl.links[9].1, nl.links[9].0));
    assert(has_link(c, nl.links[10].0, nl.links[10].1) && has_link(c, nl.links[10].1, nl.links[10].0));
    assert(has_link(c, nl.links[11].0, nl.links[11].1) && has_link(c, nl.links[11].1, nl.links[11].0));
}

/// The half adder settles to the sum of its inputs. Absorb a half adder
/// and a pin for each of its inputs into an empty simulation; write to the
/// pins and turn the event loop, in any order. If the circuit is at rest
/// in the end and each pin is driven to Low or to High, the sum and the
/// carry read Low or High each, and as a number of two bits they spell how
/// many of the two pins are driven to High.
#[verifier::rlimit(100)]
pub proof fn lemma_half_adder_settles(da: PropogationDelay, db: PropogationDelay, script: Seq<Action>)
    requires
        sound_script(half_adder_between_pins(da, db), script, half_adder_pins()),
        Circuit::empty().absorbed(half_adder_between_pins(da, db)).0.followed(script).quiescent(),
        ({
            let c = Circuit::empty().absorbed(half_adder_between_pins(da, db)).0.followed(script);
            let a = c.wire(node(18)).output_state;
            let b = c.wire(node(19)).output_state;
            &&& a == LineState::Low || a == LineState::High
            &&& b == LineState::Low || b == LineState::High
        }),
    ensures
        ({
            let c = Circuit::empty().absorbed(half_adder_between_pins(da, db)).0.followed(script);
            let sum = c.reading(node(11));
            let carry = c.reading(node(17));
            &&& sum == LineState::Low || sum == LineState::High
            &&& carry == LineState::Low || carry == LineState::High
            &&& bit(sum) + 2 * bit(carry) == bit(c.wire(node(18)).output_state) + bit(
                c.wire(node(19)).output_state,
            )
        }),
{
    let c = Circuit::empty().absorbed(half_adder_between_pins(da, db)).0.followed(script);
    let zone = half_adder_zone();
    let sources = half_adder_sources();
    lemma_half_adder_grounds(da, db, script);
    lemma_leads_over_one(c, zone, sources, node(18), node(0));
    lemma_leads_over_one(c, zone, sources, node(19), node(1));
    lemma_nand_at_rest(c, zone, sources, 0, gate_on(0), seq![node(18), node(0)], seq![node(19), node(1)]);
    lemma_leads_over_two(c, zone, sources, node(18), node(0), node(3));
    lemma_leads_over_one(c, zone, sources, node(2), node(4));
    lemma_nand_at_rest(c, zone, sources, 1, gate_on(3), seq![node(18), node(0), node(3)], seq![node(2), node(4)]);
    lemma_leads_over_one(c, zone, sources, node(2), node(6));
    lemma_leads_over_two(c, zone, sources, node(19), node(1), node(7));
    lemma_nand_at_rest(c, zone, sources, 2, gate_on(6), seq![node(2), node(6)], seq![node(19), node(1), node(7)]);
    lemma_leads_over_one(c, zone, sources, node(5), node(9));
    lemma_leads_over_one(c, zone, sources, node(8), node(10));
    lemma_nand_at_rest(c, zone, sources, 3, gate_on(9), seq![node(5), node(9)], seq![node(8), node(10)]);
    lemma_leads_over_two(c, zone, sources, node(18), node(0), node(12));
    lemma_leads_over_two(c, zone, sources, node(19), node(1), node(13));
    lemma_nand_at_rest(c, zone, sources, 4, gate_on(12), seq![node(18), node(0), node(12)], seq![node(19), node(1), node(13)]);
    lemma_leads_over_one(c, zone, sources, node(14), node(15));
    lemma_leads_over_one(c, zone, sources, node(14), node(16));
    lemma_nand_at_rest(c, zone, sources, 5, gate_on(15), seq![node(14), node(15)], seq![node(14), node(16)]);
    lemma_source_at_rest(c, zone, sources, node(11));
    lemma_source_at_rest(c, zone, sources, node(17));
}

} // verus!
