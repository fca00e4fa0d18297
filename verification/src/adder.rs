//! Adders: half adder, full adder, and the ripple-carry adder of a word.

use vstd::prelude::*;
use crate::creator::NodeCreator;
use crate::logic_gates::{AndGate, OrGate, XorGate};
use crate::netlist::Netlist;
use crate::part::{counts, member, repeated, replicate, row, Part};
use crate::sim::{NodeIndex, PropogationDelay};

verus! {

/// A half adder: an XOR gate for the sum and an AND gate for the carry.
#[derive(Debug, Clone, Copy, PartialEq, Eq, Structural)]
pub struct HalfAdder {
    pub a: NodeIndex,
    pub b: NodeIndex,
    pub sum: NodeIndex,
    pub carry: NodeIndex,
}

impl Part for HalfAdder {
    open spec fn size() -> nat {
        18
    }

    fn node_count() -> (n: usize) {
        18
    }

    open spec fn at(nl: Netlist) -> HalfAdder {
        let different = XorGate::at(nl);
        let both = AndGate::at(XorGate::staged(nl));
        HalfAdder { a: different.a, b: different.b, sum: different.output, carry: both.output }
    }

    open spec fn staged(nl: Netlist) -> Netlist {
        let different = XorGate::at(nl);
        let n1 = XorGate::staged(nl);
        let both = AndGate::at(n1);
        let d = PropogationDelay::standard();
        AndGate::staged(n1).with_link(different.a, both.a, d).with_link(different.b, both.b, d)
    }

    proof fn lemma_size(nl: Netlist) {
        XorGate::lemma_size(nl);
        AndGate::lemma_size(XorGate::staged(nl));
    }

    fn build(creator: &mut NodeCreator) -> (part: HalfAdder) {
        HalfAdder::new(creator)
    }
}

impl HalfAdder {
    /// Stages a half adder.
    pub fn new(creator: &mut NodeCreator) -> (adder: HalfAdder)
        requires
            old(creator)@.next + Self::size() <= usize::MAX,
        ensures
            adder == Self::at(old(creator)@),
            final(creator)@ == Self::staged(old(creator)@),
            final(creator)@.next == old(creator)@.next + Self::size(),
    {
        let different = XorGate::new(creator);
        let both = AndGate::new(creator);

        creator.link(different.a, both.a, PropogationDelay::standard());
        creator.link(different.b, both.b, PropogationDelay::standard());
        HalfAdder { a: different.a, b: different.b, sum: different.output, carry: both.output }
    }
}

/// A full adder: two half adders, and an OR gate on their carries.
#[derive(Debug, Clone, Copy, PartialEq, Eq, Structural)]
pub struct Adder {
    pub a: NodeIndex,
    pub b: NodeIndex,
    pub carry_in: NodeIndex,
    pub sum: NodeIndex,
    pub carry_out: NodeIndex,
}

impl Part for Adder {
    open spec fn size() -> nat {
        45
    }

    fn node_count() -> (n: usize) {
        45
    }

    open spec fn at(nl: Netlist) -> Adder {
        let half_one = HalfAdder::at(nl);
        let n1 = HalfAdder::staged(nl);
        let half_two = HalfAdder::at(n1);
        let either_carry = OrGate::at(HalfAdder::staged(n1));
        Adder {
            a: half_one.a,
            b: half_one.b,
            carry_in: half_two.b,
            sum: half_two.sum,
            carry_out: either_carry.output,
        }
    }

    open spec fn staged(nl: Netlist) -> Netlist {
        let half_one = HalfAdder::at(nl);
        let n1 = HalfAdder::staged(nl);
        let half_two = HalfAdder::at(n1);
        let n2 = HalfAdder::staged(n1);
        let either_carry = OrGate::at(n2);
        let d = PropogationDelay::standard();
        OrGate::staged(n2).with_link(half_one.carry, either_carry.a, d).with_link(
            half_two.carry,
            either_carry.b,
            d,
        ).with_link(half_one.sum, half_two.a, d)
    }

    proof fn lemma_size(nl: Netlist) {
        HalfAdder::lemma_size(nl);
        HalfAdder::lemma_size(HalfAdder::staged(nl));
        OrGate::lemma_size(HalfAdder::staged(HalfAdder::staged(nl)));
    }

    fn build(creator: &mut NodeCreator) -> (part: Adder) {
        Adder::new(creator)
    }
}

impl Adder {
    /// Stages a full adder.
    pub fn new(creator: &mut NodeCreator) -> (adder: Adder)
        requires
            old(creator)@.next + Self::size() <= usize::MAX,
        ensures
            adder == Self::at(old(creator)@),
            final(creator)@ == Self::staged(old(creator)@),
            final(creator)@.next == old(creator)@.next + Self::size(),
    {
        let half_one = HalfAdder::new(creator);
        let half_two = HalfAdder::new(creator);
        let either_carry = OrGate::new(creator);

        creator.link(half_one.carry, either_carry.a, PropogationDelay::standard());
        creator.link(half_two.carry, either_carry.b, PropogationDelay::standard());
        creator.link(half_one.sum, half_two.a, PropogationDelay::standard());

        Adder {
            a: half_one.a,
            b: half_one.b,
            carry_in: half_two.b,
            sum: half_two.sum,
            carry_out: either_carry.output,
        }
    }
}

/// An adder of two words: one full adder for each bit, the carry of each
/// fed into the next.
pub struct RippleCarryAdder {
    pub a: Vec<NodeIndex>,
    pub b: Vec<NodeIndex>,
    pub carry_in: NodeIndex,
    pub sum: Vec<NodeIndex>,
    pub carry_out: NodeIndex,
}

impl RippleCarryAdder {
    /// The number of node indices that an adder of `bits` bits takes, if it can be counted.
    pub fn node_count(bits: usize) -> (n: Option<usize>)
        ensures
            counts(n, Self::size(bits as nat) as int),
    {
        bits.checked_mul(45)
    }

    /// The number of node indices that an adder of `bits` bits takes.
    pub open spec fn size(bits: nat) -> nat {
        bits * 45
    }

    /// The session `base` after the carries of the first `joints + 1` full
    /// adders of the row built on `nl` were chained.
    pub open spec fn chained(base: Netlist, nl: Netlist, joints: nat) -> Netlist
        decreases joints,
    {
        if joints == 0 {
            base
        } else {
            Self::chained(base, nl, (joints - 1) as nat).with_link(
                member::<Adder>(nl, (joints - 1) as nat).carry_out,
                member::<Adder>(nl, joints).carry_in,
                PropogationDelay::standard(),
            )
        }
    }

    /// The session `nl` after an adder of `bits` bits was built on it: a
    /// row of full adders, then the links that chain their carries.
    pub open spec fn staged(nl: Netlist, bits: nat) -> Netlist {
        Self::chained(repeated::<Adder>(nl, bits), nl, (bits - 1) as nat)
    }

    /// The inputs for the first word, lowest bit first.
    pub open spec fn a_of(nl: Netlist, bits: nat) -> Seq<NodeIndex> {
        Seq::new(bits, |i: int| member::<Adder>(nl, i as nat).a)
    }

    /// The inputs for the second word, lowest bit first.
    pub open spec fn b_of(nl: Netlist, bits: nat) -> Seq<NodeIndex> {
        Seq::new(bits, |i: int| member::<Adder>(nl, i as nat).b)
    }

    /// The outputs for the sum, lowest bit first.
    pub open spec fn sum_of(nl: Netlist, bits: nat) -> Seq<NodeIndex> {
        Seq::new(bits, |i: int| member::<Adder>(nl, i as nat).sum)
    }

    /// The carry into the lowest bit.
    pub open spec fn carry_in_of(nl: Netlist) -> NodeIndex {
        member::<Adder>(nl, 0).carry_in
    }

    /// The carry out of the highest bit.
    pub open spec fn carry_out_of(nl: Netlist, bits: nat) -> NodeIndex {
        member::<Adder>(nl, (bits - 1) as nat).carry_out
    }

    /// Stages an adder of two words of `bits` bits.
    pub fn new(creator: &mut NodeCreator, bits: usize) -> (adder: RippleCarryAdder)
        requires
            bits >= 1,
            old(creator)@.next + Self::size(bits as nat) <= usize::MAX,
        ensures
            adder.a@ == Self::a_of(old(creator)@, bits as nat),
            adder.b@ == Self::b_of(old(creator)@, bits as nat),
            adder.sum@ == Self::sum_of(old(creator)@, bits as nat),
            adder.carry_in == Self::carry_in_of(old(creator)@),
            adder.carry_out == Self::carry_out_of(old(creator)@, bits as nat),
            final(creator)@ == Self::staged(old(creator)@, bits as nat),
            final(creator)@.next == old(creator)@.next + Self::size(bits as nat),
    {
        let adders: Vec<Adder> = replicate::<Adder>(creator, bits);
        let ghost base = creator@;

        let mut idx: usize = 1;
        while idx < bits
            invariant
                1 <= idx <= bits,
                adders@ == row::<Adder>(old(creator)@, bits as nat),
                creator@ == Self::chained(base, old(creator)@, (idx - 1) as nat),
                creator@.next == base.next,
            decreases bits - idx,
        {
            creator.link(adders[idx - 1].carry_out, adders[idx].carry_in, PropogationDelay::standard());
            idx = idx + 1;
        }

        let mut a: Vec<NodeIndex> = Vec::new();
        let mut b: Vec<NodeIndex> = Vec::new();
        let mut sum: Vec<NodeIndex> = Vec::new();
        let mut i: usize = 0;
        while i < bits
            invariant
                i <= bits,
                adders@ == row::<Adder>(old(creator)@, bits as nat),
                a@ == Self::a_of(old(creator)@, i as nat),
                b@ == Self::b_of(old(creator)@, i as nat),
                sum@ == Self::sum_of(old(creator)@, i as nat),
            decreases bits - i,
        {
            a.push(adders[i].a);
            b.push(adders[i].b);
            sum.push(adders[i].sum);
            proof {
                assert(a@ =~= Self::a_of(old(creator)@, (i + 1) as nat));
                assert(b@ =~= Self::b_of(old(creator)@, (i + 1) as nat));
                assert(sum@ =~= Self::sum_of(old(creator)@, (i + 1) as nat));
            }
            i = i + 1;
        }

        RippleCarryAdder {
            a,
            b,
            sum,
            carry_in: adders[0].carry_in,
            carry_out: adders[adders.len() - 1].carry_out,
        }
    }
}

} // verus!
