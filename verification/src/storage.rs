//! Storage: the SR latch, the D flip-flop, and the register of a word.

use vstd::prelude::*;
use vstd::arithmetic::power2::{lemma_pow2_unfold, pow2};
use crate::circuit::Circuit;
use crate::collection::NodeCollection;
use crate::creator::NodeCreator;
use crate::logic_gates::{AndGate, NandGate};
use crate::netlist::Netlist;
use crate::part::{counts, member, repeated, replicate, row, Part};
use crate::sim::{LineState, NodeIndex, PropogationDelay};
use crate::word::{binary, lemma_spelled_bound, spelled, with_bit};

verus! {

/// An SR latch with inverted inputs: two NAND gates, each fed the output
/// of the other.
#[derive(Debug, Clone, Copy, PartialEq, Eq, Structural)]
pub struct NotSRLatch {
    pub not_s: NodeIndex,
    pub not_r: NodeIndex,
    pub q: NodeIndex,
    pub not_q: NodeIndex,
}

impl Part for NotSRLatch {
    open spec fn size() -> nat {
        6
    }

    fn node_count() -> (n: usize) {
        6
    }

    open spec fn at(nl: Netlist) -> NotSRLatch {
        let top = NandGate::at(nl);
        let bottom = NandGate::at(NandGate::staged(nl));
        NotSRLatch { not_s: top.a, not_r: bottom.b, q: top.output, not_q: bottom.output }
    }

    open spec fn staged(nl: Netlist) -> Netlist {
        let top = NandGate::at(nl);
        let n1 = NandGate::staged(nl);
        let bottom = NandGate::at(n1);
        let d = PropogationDelay::standard();
        NandGate::staged(n1).with_link(top.output, bottom.a, d).with_link(bottom.output, top.b, d)
    }

    proof fn lemma_size(nl: Netlist) {
        NandGate::lemma_size(nl);
        NandGate::lemma_size(NandGate::staged(nl));
    }

    fn build(creator: &mut NodeCreator) -> (part: NotSRLatch) {
        NotSRLatch::new(creator)
    }
}

impl NotSRLatch {
    /// Stages an SR latch.
    pub fn new(creator: &mut NodeCreator) -> (latch: NotSRLatch)
        requires
            old(creator)@.next + Self::size() <= usize::MAX,
        ensures
            latch == Self::at(old(creator)@),
            final(creator)@ == Self::staged(old(creator)@),
            final(creator)@.next == old(creator)@.next + Self::size(),
    {
        let top = NandGate::new(creator);
        let bottom = NandGate::new(creator);

        creator.link(top.output, bottom.a, PropogationDelay::standard());
        creator.link(bottom.output, top.b, PropogationDelay::standard());

        NotSRLatch { not_s: top.a, not_r: bottom.b, q: top.output, not_q: bottom.output }
    }
}

/// An edge-triggered D flip-flop: three SR latches and an AND gate.
#[derive(Debug, Clone, Copy, PartialEq, Eq, Structural)]
pub struct DFlipFlop {
    pub clock: NodeIndex,
    pub data: NodeIndex,
    pub q: NodeIndex,
    pub not_q: NodeIndex,
}

impl Part for DFlipFlop {
    open spec fn size() -> nat {
        24
    }

    fn node_count() -> (n: usize) {
        24
    }

    open spec fn at(nl: Netlist) -> DFlipFlop {
        let bottom = member::<NotSRLatch>(nl, 1);
        let output = member::<NotSRLatch>(nl, 2);
        let ander = AndGate::at(repeated::<NotSRLatch>(nl, 3));
        DFlipFlop { clock: ander.a, data: bottom.not_r, q: output.q, not_q: output.not_q }
    }

    open spec fn staged(nl: Netlist) -> Netlist {
        let top = member::<NotSRLatch>(nl, 0);
        let bottom = member::<NotSRLatch>(nl, 1);
        let output = member::<NotSRLatch>(nl, 2);
        let n3 = repeated::<NotSRLatch>(nl, 3);
        let ander = AndGate::at(n3);
        let clock = ander.a;
        let d = PropogationDelay::standard();
        AndGate::staged(n3).with_link(ander.b, top.not_q, d).with_link(ander.output, bottom.not_s, d).with_link(
            bottom.q,
            output.not_r,
            d,
        ).with_link(clock, top.not_r, d).with_link(bottom.not_q, top.not_s, d).with_link(
            top.not_q,
            output.not_s,
            d,
        )
    }

    proof fn lemma_size(nl: Netlist) {
        crate::part::lemma_row_next::<NotSRLatch>(nl, 3);
        AndGate::lemma_size(repeated::<NotSRLatch>(nl, 3));
    }

    fn build(creator: &mut NodeCreator) -> (part: DFlipFlop) {
        DFlipFlop::new(creator)
    }
}

impl DFlipFlop {
    /// Stages a D flip-flop.
    pub fn new(creator: &mut NodeCreator) -> (flip_flop: DFlipFlop)
        requires
            old(creator)@.next + Self::size() <= usize::MAX,
        ensures
            flip_flop == Self::at(old(creator)@),
            final(creator)@ == Self::staged(old(creator)@),
            final(creator)@.next == old(creator)@.next + Self::size(),
    {
        proof {
            crate::part::lemma_row_of_four::<NotSRLatch>(creator@);
        }
        let top = NotSRLatch::new(creator);
        let bottom = NotSRLatch::new(creator);
        let output = NotSRLatch::new(creator);
        let ander = AndGate::new(creator);

        let clock = ander.a;

        creator.link(ander.b, top.not_q, PropogationDelay::standard());
        creator.link(ander.output, bottom.not_s, PropogationDelay::standard());
        let data = bottom.not_r;

        creator.link(bottom.q, output.not_r, PropogationDelay::standard());
        creator.link(clock, top.not_r, PropogationDelay::standard());
        creator.link(bottom.not_q, top.not_s, PropogationDelay::standard());
        creator.link(top.not_q, output.not_s, PropogationDelay::standard());

        DFlipFlop { clock, data, q: output.q, not_q: output.not_q }
    }
}

/// A register of a word: a D flip-flop for each bit, their clocks tied.
pub struct Register {
    pub bits: Vec<DFlipFlop>,
    pub clock: NodeIndex,
}

impl Register {
    /// The number of node indices that a register of `bit_count` bits takes, if it can be counted.
    pub fn node_count(bit_count: usize) -> (n: Option<usize>)
        ensures
            counts(n, Self::size(bit_count as nat) as int),
    {
        bit_count.checked_mul(24)
    }

    /// The number of node indices that a register of `bit_count` bits takes.
    pub open spec fn size(bit_count: nat) -> nat {
        bit_count * 24
    }

    /// The session `base` after the clock of the first bit of the row
    /// built on `nl` was linked to that of each of the next `joints` bits.
    pub open spec fn tied(base: Netlist, nl: Netlist, joints: nat) -> Netlist
        decreases joints,
    {
        if joints == 0 {
            base
        } else {
            Self::tied(base, nl, (joints - 1) as nat).with_link(
                member::<DFlipFlop>(nl, 0).clock,
                member::<DFlipFlop>(nl, joints).clock,
                PropogationDelay::standard(),
            )
        }
    }

    /// The session `nl` after a register of `bit_count` bits was built on
    /// it: a row of flip-flops, then the links that tie their clocks.
    pub open spec fn staged(nl: Netlist, bit_count: nat) -> Netlist {
        Self::tied(repeated::<DFlipFlop>(nl, bit_count), nl, (bit_count - 1) as nat)
    }

    /// The data inputs of the register built on `nl`, lowest bit first.
    pub open spec fn inputs_of(nl: Netlist, bit_count: nat) -> Seq<NodeIndex> {
        Seq::new(bit_count, |i: int| member::<DFlipFlop>(nl, i as nat).data)
    }

    /// The outputs of the register built on `nl`, lowest bit first.
    pub open spec fn outputs_of(nl: Netlist, bit_count: nat) -> Seq<NodeIndex> {
        Seq::new(bit_count, |i: int| member::<DFlipFlop>(nl, i as nat).q)
    }

    /// The clock of the register built on `nl`.
    pub open spec fn clock_of(nl: Netlist) -> NodeIndex {
        member::<DFlipFlop>(nl, 0).clock
    }

    /// Stages a register of `bit_count` bits.
    pub fn new(creator: &mut NodeCreator, bit_count: usize) -> (register: Register)
        requires
            bit_count >= 1,
            old(creator)@.next + Self::size(bit_count as nat) <= usize::MAX,
        ensures
            register.bits@ == row::<DFlipFlop>(old(creator)@, bit_count as nat),
            register.clock == Self::clock_of(old(creator)@),
            final(creator)@ == Self::staged(old(creator)@, bit_count as nat),
            final(creator)@.next == old(creator)@.next + Self::size(bit_count as nat),
    {
        let bits: Vec<DFlipFlop> = replicate::<DFlipFlop>(creator, bit_count);
        let ghost base = creator@;

        let clock = bits[0].clock;
        let mut k: usize = 1;
        while k < bit_count
            invariant
                1 <= k <= bit_count,
                bits@ == row::<DFlipFlop>(old(creator)@, bit_count as nat),
                clock == member::<DFlipFlop>(old(creator)@, 0).clock,
                creator@ == Self::tied(base, old(creator)@, (k - 1) as nat),
                creator@.next == base.next,
            decreases bit_count - k,
        {
            creator.link(clock, bits[k].clock, PropogationDelay::standard());
            k = k + 1;
        }

        Register { bits, clock }
    }

    /// The data inputs, lowest bit first.
    pub open spec fn spec_inputs(&self) -> Seq<NodeIndex> {
        Seq::new(self.bits@.len(), |i: int| self.bits@[i].data)
    }

    /// The outputs, lowest bit first.
    pub open spec fn spec_outputs(&self) -> Seq<NodeIndex> {
        Seq::new(self.bits@.len(), |i: int| self.bits@[i].q)
    }

    /// The data inputs, lowest bit first.
    pub fn inputs(&self) -> (nodes: Vec<NodeIndex>)
        ensures
            nodes@ == self.spec_inputs(),
    {
        let mut nodes: Vec<NodeIndex> = Vec::new();
        let mut i: usize = 0;
        while i < self.bits.len()
            invariant
                i <= self.bits@.len(),
                nodes@ == Seq::new(i as nat, |k: int| self.bits@[k].data),
            decreases self.bits@.len() - i,
        {
            nodes.push(self.bits[i].data);
            proof {
                assert(nodes@ =~= Seq::new((i + 1) as nat, |k: int| self.bits@[k].data));
            }
            i = i + 1;
        }
        nodes
    }

    /// The outputs, lowest bit first.
    pub fn outputs(&self) -> (nodes: Vec<NodeIndex>)
        ensures
            nodes@ == self.spec_outputs(),
    {
        let mut nodes: Vec<NodeIndex> = Vec::new();
        let mut i: usize = 0;
        while i < self.bits.len()
            invariant
                i <= self.bits@.len(),
                nodes@ == Seq::new(i as nat, |k: int| self.bits@[k].q),
            decreases self.bits@.len() - i,
        {
            nodes.push(self.bits[i].q);
            proof {
                assert(nodes@ =~= Seq::new((i + 1) as nat, |k: int| self.bits@[k].q));
            }
            i = i + 1;
        }
        nodes
    }

    /// What the outputs of this register read in circuit `c`, lowest bit
    /// first.
    pub open spec fn readings(&self, c: Circuit) -> Seq<LineState> {
        Seq::new(self.bits@.len(), |i: int| c.reading(self.bits@[i].q))
    }

    /// The number that the register holds: the number its outputs spell,
    /// or nothing while some output reads neither Low nor High.
    pub fn read_u64(&self, c: &NodeCollection) -> (value: Option<u64>)
        requires
            c.wf(),
            self.bits@.len() <= 64,
            forall|i: int| 0 <= i < self.bits@.len() ==> c@.has_node((#[trigger] self.bits@[i]).q),
        ensures
            binary(self.readings(c@)) ==> value == Some(spelled(self.readings(c@)) as u64),
            !binary(self.readings(c@)) ==> value is None,
            value matches Some(v) ==> v == spelled(self.readings(c@)),
    {
        let ghost states = self.readings(c@);
        let mut accum: u64 = 0u64;
        let mut index: usize = 0;
        proof {
            assert(states.subrange(0, 0) =~= Seq::<LineState>::empty());
            lemma_spelled_bound(states.subrange(0, 0));
        }
        while index < self.bits.len()
            invariant
                index <= self.bits@.len(),
                self.bits@.len() <= 64,
                c.wf(),
                states == self.readings(c@),
                forall|i: int| 0 <= i < self.bits@.len() ==> c@.has_node((#[trigger] self.bits@[i]).q),
                binary(states.subrange(0, index as int)),
                accum == spelled(states.subrange(0, index as int)),
                accum < pow2(index as nat),
            decreases self.bits@.len() - index,
        {
            let ghost upto = states.subrange(0, index as int + 1);
            proof {
                assert(upto.drop_last() =~= states.subrange(0, index as int));
                assert(upto.last() == states[index as int]);
                lemma_pow2_unfold((index + 1) as nat);
                assert(c@.has_node(self.bits@[index as int].q));
            }
            match self.bits[index].q.read(c) {
                LineState::Low => {},
                LineState::High => {
                    accum = with_bit(accum, index);
                },
                _ => {
                    assert(!(states[index as int] == LineState::Low || states[index as int]
                        == LineState::High));
                    return None;
                },
            }
            proof {
                assert forall|i: int| 0 <= i < upto.len() implies (#[trigger] upto[i]) == LineState::Low
                    || upto[i] == LineState::High by {
                    if i < index {
                        assert(states.subrange(0, index as int)[i] == upto[i]);
                    }
                }
            }
            index = index + 1;
        }
        proof {
            assert(states.subrange(0, states.len() as int) =~= states);
            assert forall|i: int| 0 <= i < states.len() implies (#[trigger] states[i]) == LineState::Low
                || states[i] == LineState::High by {
                assert(states.subrange(0, index as int)[i] == states[i]);
            }
        }
        Some(accum)
    }
}

} // verus!
