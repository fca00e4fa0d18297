//! The basic gates, each composed from NAND gates.

use vstd::prelude::*;
use crate::creator::NodeCreator;
use crate::element::Primitive;
use crate::nand::NandElem;
use crate::netlist::Netlist;
use crate::part::{counts, plus, lemma_row_next, lemma_row_of_four, member, repeated, replicate, row, Part};
use crate::sim::{NodeIndex, PropogationDelay};

verus! {

/// A NAND gate as its user sees it.
#[derive(Debug, Clone, Copy, PartialEq, Eq, Structural)]
pub struct NandGate {
    pub a: NodeIndex,
    pub b: NodeIndex,
    pub output: NodeIndex,
}

impl Part for NandGate {
    open spec fn size() -> nat {
        3
    }

    fn node_count() -> (n: usize) {
        3
    }

    open spec fn at(nl: Netlist) -> NandGate {
        NandGate { a: NandElem::at(nl).a, b: NandElem::at(nl).b, output: NandElem::at(nl).output }
    }

    open spec fn staged(nl: Netlist) -> Netlist {
        nl.with_nodes(3).with_element(Primitive::Nand(NandElem::at(nl)))
    }

    proof fn lemma_size(nl: Netlist) {
    }

    fn build(creator: &mut NodeCreator) -> (part: NandGate) {
        NandGate::new(creator)
    }
}

impl NandGate {
    /// Stages a NAND gate: three new nodes and the element that owns them.
    pub fn new(creator: &mut NodeCreator) -> (gate: NandGate)
        requires
            old(creator)@.next + Self::size() <= usize::MAX,
        ensures
            gate == Self::at(old(creator)@),
            final(creator)@ == Self::staged(old(creator)@),
            final(creator)@.next == old(creator)@.next + Self::size(),
    {
        let elem = NandElem::new(creator);
        creator.add_element(Primitive::Nand(elem));
        NandGate { a: elem.a, b: elem.b, output: elem.output }
    }
}

/// An AND gate: a NAND gate followed by a NAND gate that inverts.
#[derive(Debug, Clone, Copy, PartialEq, Eq, Structural)]
pub struct AndGate {
    pub a: NodeIndex,
    pub b: NodeIndex,
    pub output: NodeIndex,
}

impl Part for AndGate {
    open spec fn size() -> nat {
        6
    }

    fn node_count() -> (n: usize) {
        6
    }

    open spec fn at(nl: Netlist) -> AndGate {
        let nander = NandGate::at(nl);
        let notter = NandGate::at(NandGate::staged(nl));
        AndGate { a: nander.a, b: nander.b, output: notter.output }
    }

    open spec fn staged(nl: Netlist) -> Netlist {
        let nander = NandGate::at(nl);
        let n1 = NandGate::staged(nl);
        let notter = NandGate::at(n1);
        NandGate::staged(n1).with_link(nander.output, notter.a, PropogationDelay::standard()).with_link(
            nander.output,
            notter.b,
            PropogationDelay::standard(),
        )
    }

    proof fn lemma_size(nl: Netlist) {
        NandGate::lemma_size(nl);
        NandGate::lemma_size(NandGate::staged(nl));
    }

    fn build(creator: &mut NodeCreator) -> (part: AndGate) {
        AndGate::new(creator)
    }
}

impl AndGate {
    /// Stages an AND gate.
    pub fn new(creator: &mut NodeCreator) -> (gate: AndGate)
        requires
            old(creator)@.next + Self::size() <= usize::MAX,
        ensures
            gate == Self::at(old(creator)@),
            final(creator)@ == Self::staged(old(creator)@),
            final(creator)@.next == old(creator)@.next + Self::size(),
    {
        let nander = NandGate::new(creator);
        let notter = NandGate::new(creator);

        creator.link(nander.output, notter.a, PropogationDelay::standard());
        creator.link(nander.output, notter.b, PropogationDelay::standard());

        AndGate { a: nander.a, b: nander.b, output: notter.output }
    }
}

/// A NOT gate: a NAND gate with its inputs tied.
#[derive(Debug, Clone, Copy, PartialEq, Eq, Structural)]
pub struct NotGate {
    pub input: NodeIndex,
    pub output: NodeIndex,
}

impl Part for NotGate {
    open spec fn size() -> nat {
        3
    }

    fn node_count() -> (n: usize) {
        3
    }

    open spec fn at(nl: Netlist) -> NotGate {
        NotGate { input: NandGate::at(nl).a, output: NandGate::at(nl).output }
    }

    open spec fn staged(nl: Netlist) -> Netlist {
        let nand = NandGate::at(nl);
        NandGate::staged(nl).with_link(nand.a, nand.b, PropogationDelay::standard())
    }

    proof fn lemma_size(nl: Netlist) {
        NandGate::lemma_size(nl);
    }

    fn build(creator: &mut NodeCreator) -> (part: NotGate) {
        NotGate::new(creator)
    }
}

impl NotGate {
    /// Stages a NOT gate.
    pub fn new(creator: &mut NodeCreator) -> (gate: NotGate)
        requires
            old(creator)@.next + Self::size() <= usize::MAX,
        ensures
            gate == Self::at(old(creator)@),
            final(creator)@ == Self::staged(old(creator)@),
            final(creator)@.next == old(creator)@.next + Self::size(),
    {
        let nand = NandGate::new(creator);
        creator.link(nand.a, nand.b, PropogationDelay::standard());
        NotGate { input: nand.a, output: nand.output }
    }
}

/// An XOR gate: the textbook construction from four NAND gates.
#[derive(Debug, Clone, Copy, PartialEq, Eq, Structural)]
pub struct XorGate {
    pub a: NodeIndex,
    pub b: NodeIndex,
    pub output: NodeIndex,
}

impl Part for XorGate {
    open spec fn size() -> nat {
        12
    }

    fn node_count() -> (n: usize) {
        12
    }

    open spec fn at(nl: Netlist) -> XorGate {
        let a_nand_b = member::<NandGate>(nl, 0);
        let output = member::<NandGate>(nl, 3);
        XorGate { a: a_nand_b.a, b: a_nand_b.b, output: output.output }
    }

    open spec fn staged(nl: Netlist) -> Netlist {
        let a_nand_b = member::<NandGate>(nl, 0);
        let top = member::<NandGate>(nl, 1);
        let bottom = member::<NandGate>(nl, 2);
        let output = member::<NandGate>(nl, 3);
        let d = PropogationDelay::standard();
        repeated::<NandGate>(nl, 4).with_link(a_nand_b.output, top.b, d).with_link(
            a_nand_b.output,
            bottom.a,
            d,
        ).with_link(a_nand_b.a, top.a, d).with_link(a_nand_b.b, bottom.b, d).with_link(
            top.output,
            output.a,
            d,
        ).with_link(bottom.output, output.b, d)
    }

    proof fn lemma_size(nl: Netlist) {
        lemma_row_next::<NandGate>(nl, 4);
    }

    fn build(creator: &mut NodeCreator) -> (part: XorGate) {
        XorGate::new(creator)
    }
}

impl XorGate {
    /// Stages an XOR gate.
    pub fn new(creator: &mut NodeCreator) -> (gate: XorGate)
        requires
            old(creator)@.next + Self::size() <= usize::MAX,
        ensures
            gate == Self::at(old(creator)@),
            final(creator)@ == Self::staged(old(creator)@),
            final(creator)@.next == old(creator)@.next + Self::size(),
    {
        proof {
            lemma_row_of_four::<NandGate>(creator@);
        }
        let a_nand_b = NandGate::new(creator);
        let top = NandGate::new(creator);
        let bottom = NandGate::new(creator);
        let output = NandGate::new(creator);

        creator.link(a_nand_b.output, top.b, PropogationDelay::standard());
        creator.link(a_nand_b.output, bottom.a, PropogationDelay::standard());
        creator.link(a_nand_b.a, top.a, PropogationDelay::standard());
        creator.link(a_nand_b.b, bottom.b, PropogationDelay::standard());
        creator.link(top.output, output.a, PropogationDelay::standard());
        creator.link(bottom.output, output.b, PropogationDelay::standard());

        XorGate { a: a_nand_b.a, b: a_nand_b.b, output: output.output }
    }
}

/// An OR gate: each input inverted, then a NAND gate.
#[derive(Debug, Clone, Copy, PartialEq, Eq, Structural)]
pub struct OrGate {
    pub a: NodeIndex,
    pub b: NodeIndex,
    pub output: NodeIndex,
}

impl Part for OrGate {
    open spec fn size() -> nat {
        9
    }

    fn node_count() -> (n: usize) {
        9
    }

    open spec fn at(nl: Netlist) -> OrGate {
        let not_a = member::<NandGate>(nl, 0);
        let not_b = member::<NandGate>(nl, 1);
        let or = member::<NandGate>(nl, 2);
        OrGate { a: not_a.a, b: not_b.b, output: or.output }
    }

    open spec fn staged(nl: Netlist) -> Netlist {
        let not_a = member::<NandGate>(nl, 0);
        let not_b = member::<NandGate>(nl, 1);
        let or = member::<NandGate>(nl, 2);
        let d = PropogationDelay::standard();
        repeated::<NandGate>(nl, 3).with_link(not_a.a, not_a.b, d).with_link(not_b.a, not_b.b, d).with_link(
            not_a.output,
            or.a,
            d,
        ).with_link(not_b.output, or.b, d)
    }

    proof fn lemma_size(nl: Netlist) {
        lemma_row_next::<NandGate>(nl, 3);
    }

    fn build(creator: &mut NodeCreator) -> (part: OrGate) {
        OrGate::new(creator)
    }
}

impl OrGate {
    /// Stages an OR gate.
    pub fn new(creator: &mut NodeCreator) -> (gate: OrGate)
        requires
            old(creator)@.next + Self::size() <= usize::MAX,
        ensures
            gate == Self::at(old(creator)@),
            final(creator)@ == Self::staged(old(creator)@),
            final(creator)@.next == old(creator)@.next + Self::size(),
    {
        proof {
            lemma_row_of_four::<NandGate>(creator@);
        }
        let not_a = NandGate::new(creator);
        let not_b = NandGate::new(creator);
        let or = NandGate::new(creator);

        creator.link(not_a.a, not_a.b, PropogationDelay::standard());
        creator.link(not_b.a, not_b.b, PropogationDelay::standard());
        creator.link(not_a.output, or.a, PropogationDelay::standard());
        creator.link(not_b.output, or.b, PropogationDelay::standard());

        OrGate { a: not_a.a, b: not_b.b, output: or.output }
    }
}

/// A row of AND gates, one for each bit of a word.
pub struct AndGateVec {
    pub a: Vec<NodeIndex>,
    pub b: Vec<NodeIndex>,
    pub output: Vec<NodeIndex>,
}

impl AndGateVec {
    /// The number of node indices that a row of `count` AND gates takes, if it can be counted.
    pub fn node_count(count: usize) -> (n: Option<usize>)
        ensures
            counts(n, Self::size(count as nat) as int),
    {
        count.checked_mul(6)
    }

    /// The number of node indices that a row of `count` AND gates takes.
    pub open spec fn size(count: nat) -> nat {
        count * 6
    }

    /// The session `nl` after a row of `count` AND gates was built on it.
    pub open spec fn staged(nl: Netlist, count: nat) -> Netlist {
        repeated::<AndGate>(nl, count)
    }

    /// The first inputs of the gates of the row, in order.
    pub open spec fn a_of(nl: Netlist, count: nat) -> Seq<NodeIndex> {
        Seq::new(count, |i: int| member::<AndGate>(nl, i as nat).a)
    }

    /// The second inputs of the gates of the row, in order.
    pub open spec fn b_of(nl: Netlist, count: nat) -> Seq<NodeIndex> {
        Seq::new(count, |i: int| member::<AndGate>(nl, i as nat).b)
    }

    /// The outputs of the gates of the row, in order.
    pub open spec fn output_of(nl: Netlist, count: nat) -> Seq<NodeIndex> {
        Seq::new(count, |i: int| member::<AndGate>(nl, i as nat).output)
    }

    /// Stages `count` AND gates, one after the other.
    pub fn new(count: usize, creator: &mut NodeCreator) -> (gates: AndGateVec)
        requires
            old(creator)@.next + Self::size(count as nat) <= usize::MAX,
        ensures
            gates.a@ == Self::a_of(old(creator)@, count as nat),
            gates.b@ == Self::b_of(old(creator)@, count as nat),
            gates.output@ == Self::output_of(old(creator)@, count as nat),
            final(creator)@ == Self::staged(old(creator)@, count as nat),
            final(creator)@.next == old(creator)@.next + Self::size(count as nat),
    {
        let subgates: Vec<AndGate> = replicate::<AndGate>(creator, count);
        let mut a: Vec<NodeIndex> = Vec::new();
        let mut b: Vec<NodeIndex> = Vec::new();
        let mut output: Vec<NodeIndex> = Vec::new();
        let mut i: usize = 0;
        while i < count
            invariant
                i <= count,
                subgates@ == row::<AndGate>(old(creator)@, count as nat),
                a@ == Self::a_of(old(creator)@, i as nat),
                b@ == Self::b_of(old(creator)@, i as nat),
                output@ == Self::output_of(old(creator)@, i as nat),
            decreases count - i,
        {
            a.push(subgates[i].a);
            b.push(subgates[i].b);
            output.push(subgates[i].output);
            proof {
                assert(a@ =~= Self::a_of(old(creator)@, (i + 1) as nat));
                assert(b@ =~= Self::b_of(old(creator)@, (i + 1) as nat));
                assert(output@ =~= Self::output_of(old(creator)@, (i + 1) as nat));
            }
            i = i + 1;
        }
        AndGateVec { a, b, output }
    }
}

/// A row of XOR gates, one for each bit of a word.
pub struct XorGateVec {
    pub a: Vec<NodeIndex>,
    pub b: Vec<NodeIndex>,
    pub output: Vec<NodeIndex>,
}

impl XorGateVec {
    /// The number of node indices that a row of `count` XOR gates takes, if it can be counted.
    pub fn node_count(count: usize) -> (n: Option<usize>)
        ensures
            counts(n, Self::size(count as nat) as int),
    {
        count.checked_mul(12)
    }

    /// The number of node indices that a row of `count` XOR gates takes.
    pub open spec fn size(count: nat) -> nat {
        count * 12
    }

    /// The session `nl` after a row of `count` XOR gates was built on it.
    pub open spec fn staged(nl: Netlist, count: nat) -> Netlist {
        repeated::<XorGate>(nl, count)
    }

    /// The first inputs of the gates of the row, in order.
    pub open spec fn a_of(nl: Netlist, count: nat) -> Seq<NodeIndex> {
        Seq::new(count, |i: int| member::<XorGate>(nl, i as nat).a)
    }

    /// The second inputs of the gates of the row, in order.
    pub open spec fn b_of(nl: Netlist, count: nat) -> Seq<NodeIndex> {
        Seq::new(count, |i: int| member::<XorGate>(nl, i as nat).b)
    }

    /// The outputs of the gates of the row, in order.
    pub open spec fn output_of(nl: Netlist, count: nat) -> Seq<NodeIndex> {
        Seq::new(count, |i: int| member::<XorGate>(nl, i as nat).output)
    }

    /// Stages `count` XOR gates, one after the other.
    pub fn new(count: usize, creator: &mut NodeCreator) -> (gates: XorGateVec)
        requires
            old(creator)@.next + Self::size(count as nat) <= usize::MAX,
        ensures
            gates.a@ == Self::a_of(old(creator)@, count as nat),
            gates.b@ == Self::b_of(old(creator)@, count as nat),
            gates.output@ == Self::output_of(old(creator)@, count as nat),
            final(creator)@ == Self::staged(old(creator)@, count as nat),
            final(creator)@.next == old(creator)@.next + Self::size(count as nat),
    {
        let subgates: Vec<XorGate> = replicate::<XorGate>(creator, count);
        let mut a: Vec<NodeIndex> = Vec::new();
        let mut b: Vec<NodeIndex> = Vec::new();
        let mut output: Vec<NodeIndex> = Vec::new();
        let mut i: usize = 0;
        while i < count
            invariant
                i <= count,
                subgates@ == row::<XorGate>(old(creator)@, count as nat),
                a@ == Self::a_of(old(creator)@, i as nat),
                b@ == Self::b_of(old(creator)@, i as nat),
                output@ == Self::output_of(old(creator)@, i as nat),
            decreases count - i,
        {
            a.push(subgates[i].a);
            b.push(subgates[i].b);
            output.push(subgates[i].output);
            proof {
                assert(a@ =~= Self::a_of(old(creator)@, (i + 1) as nat));
                assert(b@ =~= Self::b_of(old(creator)@, (i + 1) as nat));
                assert(output@ =~= Self::output_of(old(creator)@, (i + 1) as nat));
            }
            i = i + 1;
        }
        XorGateVec { a, b, output }
    }
}

/// A signal on its way into a tree of gates: the node that carries it, and
/// the delay of the link that will pass it on.
pub type Tap = (NodeIndex, PropogationDelay);

/// An AND of many inputs.
pub struct NWayAnd {
    pub inputs: Vec<NodeIndex>,
    pub output: NodeIndex,
}

impl NWayAnd {
    /// The number of node indices that a chain for `n` inputs takes, if it
    /// can be counted.
    pub fn node_count(n: usize) -> (count: Option<usize>)
        requires
            n >= 1,
        ensures
            counts(count, Self::size(n as nat) as int),
    {
        (n - 1).checked_mul(6)
    }

    /// The number of node indices that a tree for `n` inputs takes, if it
    /// can be counted.
    pub fn node_count_logtime(n: usize) -> (count: Option<usize>)
        requires
            n >= 1,
        ensures
            counts(count, Self::size_logtime(n as nat) as int),
    {
        let leaves = Some(n);
        let gates = (n - 1).checked_mul(6);
        assert(counts(leaves, n as int));
        assert(counts(gates, (n - 1) * 6));
        plus(leaves, gates)
    }

    /// The number of node indices that a chain for `n` inputs takes.
    pub open spec fn size(n: nat) -> nat {
        ((n - 1) * 6) as nat
    }

    /// The session `nl` after a chain of AND gates for `n` inputs was built
    /// on it: one AND gate for the first two inputs, and one more for each
    /// further input, whose other input is the output of the one before.
    pub open spec fn staged(nl: Netlist, n: nat) -> Netlist
        decreases n, 1nat,
    {
        if n <= 2 {
            AndGate::staged(nl)
        } else {
            let prev = Self::staged(nl, (n - 1) as nat);
            AndGate::staged(prev).with_link(
                Self::output_of(nl, (n - 1) as nat),
                AndGate::at(prev).a,
                PropogationDelay::standard(),
            )
        }
    }

    /// The output of the chain for `n` inputs: that of its last gate.
    pub open spec fn output_of(nl: Netlist, n: nat) -> NodeIndex
        decreases n, 0nat,
    {
        if n <= 2 {
            AndGate::at(nl).output
        } else {
            AndGate::at(Self::staged(nl, (n - 1) as nat)).output
        }
    }

    /// The inputs of the chain for `n` inputs: both inputs of the first
    /// gate, then the free input of each further gate.
    pub open spec fn inputs_of(nl: Netlist, n: nat) -> Seq<NodeIndex>
        decreases n,
    {
        if n <= 2 {
            seq![AndGate::at(nl).a, AndGate::at(nl).b]
        } else {
            Self::inputs_of(nl, (n - 1) as nat).push(AndGate::at(Self::staged(nl, (n - 1) as nat)).b)
        }
    }

    /// Stages an AND of `input_count` inputs as a chain of AND gates.
    pub fn new(creator: &mut NodeCreator, input_count: usize) -> (gate: NWayAnd)
        requires
            input_count >= 2,
            old(creator)@.next + Self::size(input_count as nat) <= usize::MAX,
        ensures
            gate.inputs@ == Self::inputs_of(old(creator)@, input_count as nat),
            gate.output == Self::output_of(old(creator)@, input_count as nat),
            final(creator)@ == Self::staged(old(creator)@, input_count as nat),
            final(creator)@.next == old(creator)@.next + Self::size(input_count as nat),
    {
        let mut inputs: Vec<NodeIndex> = Vec::new();

        let and0 = AndGate::new(creator);
        inputs.push(and0.a);
        inputs.push(and0.b);
        let mut output_so_far = and0.output;
        proof {
            assert(inputs@ =~= Self::inputs_of(old(creator)@, 2));
        }

        let mut k: usize = 2;
        while k < input_count
            invariant
                2 <= k <= input_count,
                old(creator)@.next + Self::size(input_count as nat) <= usize::MAX,
                inputs@ == Self::inputs_of(old(creator)@, k as nat),
                output_so_far == Self::output_of(old(creator)@, k as nat),
                creator@ == Self::staged(old(creator)@, k as nat),
                creator@.next == old(creator)@.next + Self::size(k as nat),
            decreases input_count - k,
        {
            let and = AndGate::new(creator);
            creator.link(output_so_far, and.a, PropogationDelay::standard());
            output_so_far = and.output;
            inputs.push(and.b);
            k = k + 1;
        }

        NWayAnd { inputs, output: output_so_far }
    }

    /// The session `nl` after the first `pairs` pairs of `frontier` were
    /// each fed into an AND gate of their own, over links with the delays
    /// that the taps name.
    pub open spec fn paired(nl: Netlist, frontier: Seq<Tap>, pairs: nat) -> Netlist
        decreases pairs,
    {
        if pairs == 0 {
            nl
        } else {
            let prev = Self::paired(nl, frontier, (pairs - 1) as nat);
            let and = AndGate::at(prev);
            let left = frontier[2 * (pairs - 1)];
            let right = frontier[2 * (pairs - 1) + 1];
            AndGate::staged(prev).with_link(left.0, and.a, left.1).with_link(right.0, and.b, right.1)
        }
    }

    /// The taps that one round of pairing leaves: the output of each pair's
    /// gate, then the tap that found no partner, if there is one.
    pub open spec fn narrowed(nl: Netlist, frontier: Seq<Tap>) -> Seq<Tap> {
        let joined = Seq::new(
            frontier.len() / 2,
            |i: int| (AndGate::at(Self::paired(nl, frontier, i as nat)).output, PropogationDelay::standard()),
        );
        if frontier.len() % 2 == 1 {
            joined.push(frontier.last())
        } else {
            joined
        }
    }

    /// The session `nl` after `frontier` was paired round by round until
    /// one tap was left.
    pub open spec fn reduced(nl: Netlist, frontier: Seq<Tap>) -> Netlist
        decreases frontier.len(),
    {
        if frontier.len() <= 1 {
            nl
        } else {
            Self::reduced(
                Self::paired(nl, frontier, frontier.len() / 2),
                Self::narrowed(nl, frontier),
            )
        }
    }

    /// The node of the one tap that pairing `frontier` round by round leaves.
    pub open spec fn tip(nl: Netlist, frontier: Seq<Tap>) -> NodeIndex
        decreases frontier.len(),
    {
        if frontier.len() <= 1 {
            frontier[0].0
        } else {
            Self::tip(Self::paired(nl, frontier, frontier.len() / 2), Self::narrowed(nl, frontier))
        }
    }

    /// The taps that a tree of `n` inputs starts from: `n` new nodes, each
    /// to be linked on without delay.
    pub open spec fn leaves(nl: Netlist, n: nat) -> Seq<Tap> {
        Seq::new(n, |i: int| (nl.ahead(i as nat), PropogationDelay(0)))
    }

    /// The number of node indices that a tree for `n` inputs takes.
    pub open spec fn size_logtime(n: nat) -> nat {
        (n + (n - 1) * 6) as nat
    }

    /// Stages an AND of `input_count` inputs as a tree of AND gates: the
    /// inputs are paired, then the outputs of the pairs, until one is left.
    pub fn new_logtime(creator: &mut NodeCreator, input_count: usize) -> (gate: NWayAnd)
        requires
            input_count >= 2,
            old(creator)@.next + Self::size_logtime(input_count as nat) <= usize::MAX,
        ensures
            gate.inputs@ == crate::part::run_of(old(creator)@.next, input_count as nat),
            gate.output == Self::tip(
                old(creator)@.with_nodes(input_count as nat),
                Self::leaves(old(creator)@, input_count as nat),
            ),
            final(creator)@ == Self::reduced(
                old(creator)@.with_nodes(input_count as nat),
                Self::leaves(old(creator)@, input_count as nat),
            ),
            final(creator)@.next == old(creator)@.next + Self::size_logtime(input_count as nat),
    {
        let inputs: Vec<NodeIndex> = crate::part::new_nodes(creator, input_count);
        let mut frontier: Vec<Tap> = Vec::new();
        let mut i: usize = 0;
        while i < input_count
            invariant
                i <= input_count,
                inputs@ == crate::part::run_of(old(creator)@.next, input_count as nat),
                frontier@ == Self::leaves(old(creator)@, i as nat),
            decreases input_count - i,
        {
            frontier.push((inputs[i], PropogationDelay(0)));
            proof {
                assert(frontier@ =~= Self::leaves(old(creator)@, (i + 1) as nat));
            }
            i = i + 1;
        }
        let ghost start = creator@;
        let ghost leaves = frontier@;
        while frontier.len() > 1
            invariant
                frontier@.len() >= 1,
                creator@.next + (frontier@.len() - 1) * 6 == old(creator)@.next + Self::size_logtime(
                    input_count as nat,
                ),
                old(creator)@.next + Self::size_logtime(input_count as nat) <= usize::MAX,
                Self::reduced(start, leaves) == Self::reduced(creator@, frontier@),
                Self::tip(start, leaves) == Self::tip(creator@, frontier@),
            decreases frontier@.len(),
        {
            let ghost round = creator@;
            let ghost taps = frontier@;
            let pairs = frontier.len() / 2;
            let mut next_frontier: Vec<Tap> = Vec::new();
            let mut p: usize = 0;
            while p < pairs
                invariant
                    p <= pairs,
                    pairs == taps.len() / 2,
                    frontier@ == taps,
                    creator@ == Self::paired(round, taps, p as nat),
                    creator@.next == round.next + p * 6,
                    round.next + (taps.len() - 1) * 6 <= usize::MAX,
                    next_frontier@ == Seq::new(
                        p as nat,
                        |i: int|
                            (
                                AndGate::at(Self::paired(round, taps, i as nat)).output,
                                PropogationDelay::standard(),
                            ),
                    ),
                decreases pairs - p,
            {
                let and = AndGate::new(creator);
                let (node_a, delay_a) = frontier[2 * p];
                let (node_b, delay_b) = frontier[2 * p + 1];
                creator.link(node_a, and.a, delay_a);
                creator.link(node_b, and.b, delay_b);
                next_frontier.push((and.output, PropogationDelay::standard()));
                proof {
                    assert(next_frontier@ =~= Seq::new(
                        (p + 1) as nat,
                        |i: int|
                            (
                                AndGate::at(Self::paired(round, taps, i as nat)).output,
                                PropogationDelay::standard(),
                            ),
                    ));
                }
                p = p + 1;
            }
            if frontier.len() % 2 == 1 {
                next_frontier.push(frontier[frontier.len() - 1]);
            }
            proof {
                assert(next_frontier@ =~= Self::narrowed(round, taps));
            }
            frontier = next_frontier;
        }

        let (last_node, _) = frontier[0];

        NWayAnd { inputs, output: last_node }
    }
}

} // verus!
