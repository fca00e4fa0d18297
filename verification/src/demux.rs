//! Demultiplexers: of one bit, of one word, and onto many words. Each has
//! an enable input that gates every output.

use vstd::prelude::*;
use crate::creator::NodeCreator;
use crate::logic_gates::{AndGate, AndGateVec, NotGate};
use crate::mux::words_of;
use crate::netlist::{lemma_with_fan, lemma_with_links, lemma_with_links_prefix, Netlist};
use crate::part::{counts, plus, lemma_row_next, lemma_row_of_four, member, repeated, replicate, row, Part};
use crate::sim::{NodeIndex, PropogationDelay};
use crate::split::{depth, lemma_lower_half, lemma_upper_is_shallower, lower_half, lower_size};

verus! {

/// A demultiplexer of one bit: while `enable` is High, the input appears
/// on `output_a` while `select` is Low and on `output_b` while it is High.
#[derive(Debug, Clone, Copy, PartialEq, Eq, Structural)]
pub struct BitDemux {
    pub input: NodeIndex,
    pub select: NodeIndex,
    pub output_a: NodeIndex,
    pub output_b: NodeIndex,
    pub enable: NodeIndex,
}

impl Part for BitDemux {
    open spec fn size() -> nat {
        27
    }

    fn node_count() -> (n: usize) {
        27
    }

    open spec fn at(nl: Netlist) -> BitDemux {
        let ander_a = AndGate::at(nl);
        let n1 = AndGate::staged(nl);
        let not_select = NotGate::at(n1);
        let n2 = NotGate::staged(n1);
        let enabler_a = member::<AndGate>(n2, 1);
        let enabler_b = member::<AndGate>(n2, 2);
        BitDemux {
            input: ander_a.b,
            select: not_select.input,
            output_a: enabler_a.output,
            output_b: enabler_b.output,
            enable: enabler_a.a,
        }
    }

    open spec fn staged(nl: Netlist) -> Netlist {
        let ander_a = AndGate::at(nl);
        let n1 = AndGate::staged(nl);
        let not_select = NotGate::at(n1);
        let n2 = NotGate::staged(n1);
        let ander_b = member::<AndGate>(n2, 0);
        let enabler_a = member::<AndGate>(n2, 1);
        let enabler_b = member::<AndGate>(n2, 2);
        let d = PropogationDelay::standard();
        repeated::<AndGate>(n2, 3).with_link(not_select.output, ander_a.a, d).with_link(
            not_select.input,
            ander_b.a,
            d,
        ).with_link(ander_a.b, ander_b.b, d).with_link(enabler_a.a, enabler_b.a, d).with_link(
            enabler_a.b,
            ander_a.output,
            d,
        ).with_link(enabler_b.b, ander_b.output, d)
    }

    proof fn lemma_size(nl: Netlist) {
        AndGate::lemma_size(nl);
        NotGate::lemma_size(AndGate::staged(nl));
        lemma_row_next::<AndGate>(NotGate::staged(AndGate::staged(nl)), 3);
    }

    fn build(creator: &mut NodeCreator) -> (part: BitDemux) {
        BitDemux::new(creator)
    }
}

impl BitDemux {
    /// Stages a demultiplexer of one bit.
    pub fn new(creator: &mut NodeCreator) -> (demux: BitDemux)
        requires
            old(creator)@.next + Self::size() <= usize::MAX,
        ensures
            demux == Self::at(old(creator)@),
            final(creator)@ == Self::staged(old(creator)@),
            final(creator)@.next == old(creator)@.next + Self::size(),
    {
        let ander_a = AndGate::new(creator);
        let not_select = NotGate::new(creator);
        proof {
            lemma_row_of_four::<AndGate>(creator@);
        }
        let ander_b = AndGate::new(creator);
        let enabler_a = AndGate::new(creator);
        let enabler_b = AndGate::new(creator);

        creator.link(not_select.output, ander_a.a, PropogationDelay::standard());
        creator.link(not_select.input, ander_b.a, PropogationDelay::standard());
        creator.link(ander_a.b, ander_b.b, PropogationDelay::standard());

        creator.link(enabler_a.a, enabler_b.a, PropogationDelay::standard());
        creator.link(enabler_a.b, ander_a.output, PropogationDelay::standard());
        creator.link(enabler_b.b, ander_b.output, PropogationDelay::standard());

        BitDemux {
            input: ander_a.b,
            select: not_select.input,
            output_a: enabler_a.output,
            output_b: enabler_b.output,
            enable: enabler_a.a,
        }
    }
}

/// A demultiplexer of one word: a demultiplexer for each bit, their
/// selects tied and their enables tied.
pub struct Demux {
    pub input: Vec<NodeIndex>,
    pub select: NodeIndex,
    pub output_a: Vec<NodeIndex>,
    pub output_b: Vec<NodeIndex>,
    pub enable: NodeIndex,
}

impl Demux {
    /// The number of node indices that a demultiplexer of a word of `word_bits` bits takes, if it can be counted.
    pub fn node_count(word_bits: usize) -> (n: Option<usize>)
        ensures
            counts(n, Self::size(word_bits as nat) as int),
    {
        word_bits.checked_mul(27)
    }

    /// The number of node indices that a demultiplexer of a word of
    /// `word_bits` bits takes.
    pub open spec fn size(word_bits: nat) -> nat {
        word_bits * 27
    }

    /// The session `base` after the select and the enable of the first bit
    /// of the row built on `nl` were linked to those of each of the next
    /// `joints` bits.
    pub open spec fn tied(base: Netlist, nl: Netlist, joints: nat) -> Netlist
        decreases joints,
    {
        if joints == 0 {
            base
        } else {
            Self::tied(base, nl, (joints - 1) as nat).with_link(
                member::<BitDemux>(nl, 0).select,
                member::<BitDemux>(nl, joints).select,
                PropogationDelay::standard(),
            ).with_link(
                member::<BitDemux>(nl, 0).enable,
                member::<BitDemux>(nl, joints).enable,
                PropogationDelay::standard(),
            )
        }
    }

    /// The session `nl` after a demultiplexer of one word was built on it.
    pub open spec fn staged(nl: Netlist, word_bits: nat) -> Netlist {
        Self::tied(repeated::<BitDemux>(nl, word_bits), nl, (word_bits - 1) as nat)
    }

    /// The inputs for the word.
    pub open spec fn input_of(nl: Netlist, word_bits: nat) -> Seq<NodeIndex> {
        Seq::new(word_bits, |i: int| member::<BitDemux>(nl, i as nat).input)
    }

    /// The outputs on which the word appears while select is Low.
    pub open spec fn output_a_of(nl: Netlist, word_bits: nat) -> Seq<NodeIndex> {
        Seq::new(word_bits, |i: int| member::<BitDemux>(nl, i as nat).output_a)
    }

    /// The outputs on which the word appears while select is High.
    pub open spec fn output_b_of(nl: Netlist, word_bits: nat) -> Seq<NodeIndex> {
        Seq::new(word_bits, |i: int| member::<BitDemux>(nl, i as nat).output_b)
    }

    /// Stages a demultiplexer of one word of `word_bits` bits.
    pub fn new(word_bits: usize, creator: &mut NodeCreator) -> (demux: Demux)
        requires
            word_bits > 0,
            old(creator)@.next + Self::size(word_bits as nat) <= usize::MAX,
        ensures
            demux.input@ == Self::input_of(old(creator)@, word_bits as nat),
            demux.output_a@ == Self::output_a_of(old(creator)@, word_bits as nat),
            demux.output_b@ == Self::output_b_of(old(creator)@, word_bits as nat),
            demux.select == member::<BitDemux>(old(creator)@, 0).select,
            demux.enable == member::<BitDemux>(old(creator)@, 0).enable,
            final(creator)@ == Self::staged(old(creator)@, word_bits as nat),
            final(creator)@.next == old(creator)@.next + Self::size(word_bits as nat),
    {
        let bits: Vec<BitDemux> = replicate::<BitDemux>(creator, word_bits);
        let ghost base = creator@;

        let mut k: usize = 1;
        while k < word_bits
            invariant
                1 <= k <= word_bits,
                bits@ == row::<BitDemux>(old(creator)@, word_bits as nat),
                creator@ == Self::tied(base, old(creator)@, (k - 1) as nat),
                creator@.next == base.next,
            decreases word_bits - k,
        {
            creator.link(bits[0].select, bits[k].select, PropogationDelay::standard());
            creator.link(bits[0].enable, bits[k].enable, PropogationDelay::standard());
            k = k + 1;
        }

        let mut input: Vec<NodeIndex> = Vec::new();
        let mut output_a: Vec<NodeIndex> = Vec::new();
        let mut output_b: Vec<NodeIndex> = Vec::new();
        let mut i: usize = 0;
        while i < word_bits
            invariant
                i <= word_bits,
                bits@ == row::<BitDemux>(old(creator)@, word_bits as nat),
                input@ == Self::input_of(old(creator)@, i as nat),
                output_a@ == Self::output_a_of(old(creator)@, i as nat),
                output_b@ == Self::output_b_of(old(creator)@, i as nat),
            decreases word_bits - i,
        {
            input.push(bits[i].input);
            output_a.push(bits[i].output_a);
            output_b.push(bits[i].output_b);
            proof {
                assert(input@ =~= Self::input_of(old(creator)@, (i + 1) as nat));
                assert(output_a@ =~= Self::output_a_of(old(creator)@, (i + 1) as nat));
                assert(output_b@ =~= Self::output_b_of(old(creator)@, (i + 1) as nat));
            }
            i = i + 1;
        }

        Demux { input, select: bits[0].select, enable: bits[0].enable, output_a, output_b }
    }
}

/// The handles of a demultiplexer onto many words, as sequences.
pub struct DemuxNView {
    /// The inputs for the word.
    pub input: Seq<NodeIndex>,
    /// The select lines, lowest bit first.
    pub select: Seq<NodeIndex>,
    /// The outputs, word by word.
    pub outputs: Seq<Seq<NodeIndex>>,
    /// The enable input.
    pub enable: NodeIndex,
}

/// A demultiplexer onto many words: a tree that passes the enable signal
/// down to the chosen word.
pub struct DemuxN {
    pub input: Vec<NodeIndex>,
    pub select: Vec<NodeIndex>,
    pub outputs: Vec<Vec<NodeIndex>>,
    pub enable: NodeIndex,
}

impl View for DemuxN {
    type V = DemuxNView;

    open spec fn view(&self) -> DemuxNView {
        DemuxNView {
            input: self.input@,
            select: self.select@,
            outputs: words_of(self.outputs@),
            enable: self.enable,
        }
    }
}

impl DemuxN {
    /// The number of node indices that a demultiplexer onto `word_count` words of `word_bits` bits takes, if it can be counted.
    pub fn node_count(word_bits: usize, word_count: usize) -> (n: Option<usize>)
        requires
            word_count >= 1,
        ensures
            counts(n, Self::size(word_bits as nat, word_count as nat) as int),
        decreases word_count,
    {
        if word_count == 1 {
            AndGateVec::node_count(word_bits)
        } else {
            let lower = lower_size(word_count);
            proof {
                lemma_lower_half(word_count as nat);
            }
            let below = Self::node_count(word_bits, lower);
            let above = Self::node_count(word_bits, word_count - lower);
            let enablers = Some(15);
            assert(counts(enablers, 15));
            plus(plus(below, above), enablers)
        }
    }

    /// The number of node indices that a demultiplexer onto `word_count`
    /// words of `word_bits` bits takes.
    pub open spec fn size(word_bits: nat, word_count: nat) -> nat
        decreases word_count,
    {
        if word_count <= 1 {
            AndGateVec::size(word_bits)
        } else {
            proof {
                lemma_lower_half(word_count);
            }
            let lo = lower_half(word_count);
            Self::size(word_bits, lo) + Self::size(word_bits, (word_count - lo) as nat) + 15
        }
    }

    /// What building a demultiplexer onto `word_count` words of
    /// `word_bits` bits on the session `nl` leaves: the session afterwards,
    /// and the handles. One word is a row of AND gates that pass the input
    /// while enable, which feeds the second input of each, is High. More
    /// words are split into a lower and an upper part, each a
    /// demultiplexer of its own on the same input; the highest select line
    /// decides which of the two the enable signal reaches.
    pub open spec fn plan(word_bits: nat, word_count: nat, nl: Netlist) -> (Netlist, DemuxNView)
        decreases word_count,
    {
        let d = PropogationDelay::standard();
        if word_count <= 1 {
            let b = AndGateVec::b_of(nl, word_bits);
            (
                AndGateVec::staged(nl, word_bits).with_fan(b[0], b, d, word_bits),
                DemuxNView {
                    input: AndGateVec::a_of(nl, word_bits),
                    select: Seq::empty(),
                    outputs: seq![AndGateVec::output_of(nl, word_bits)],
                    enable: b[0],
                },
            )
        } else {
            proof {
                lemma_lower_half(word_count);
            }
            let lo = lower_half(word_count);
            let (n1, lower) = Self::plan(word_bits, lo, nl);
            let (n2, upper) = Self::plan(word_bits, (word_count - lo) as nat, n1);
            let l0 = n2.with_links(lower.input, upper.input, d, word_bits);
            let lower_enabler = AndGate::at(l0);
            let n3 = AndGate::staged(l0);
            let upper_enabler = AndGate::at(n3);
            let n4 = AndGate::staged(n3);
            let lower_select_gen = NotGate::at(n4);
            let n5 = NotGate::staged(n4);
            let upper_select = lower_select_gen.input;
            let lower_select = lower_select_gen.output;
            let enable = lower_enabler.b;
            (
                n5.with_link(enable, upper_enabler.b, d).with_link(lower_enabler.a, lower_select, d).with_link(
                    upper_enabler.a,
                    upper_select,
                    d,
                ).with_link(lower_enabler.output, lower.enable, d).with_link(
                    upper_enabler.output,
                    upper.enable,
                    d,
                ).with_links(lower.select, upper.select, d, upper.select.len()),
                DemuxNView {
                    input: lower.input,
                    select: lower.select.push(upper_select),
                    outputs: lower.outputs + upper.outputs,
                    enable,
                },
            )
        }
    }

    /// The session `nl` after the demultiplexer was built on it.
    pub open spec fn staged(word_bits: nat, word_count: nat, nl: Netlist) -> Netlist {
        Self::plan(word_bits, word_count, nl).0
    }

    /// The handles of the demultiplexer built on the session `nl`.
    pub open spec fn at(word_bits: nat, word_count: nat, nl: Netlist) -> DemuxNView {
        Self::plan(word_bits, word_count, nl).1
    }

    /// The shape of a demultiplexer onto many words: it has one output
    /// word for each word, every word has the width of the input, and
    /// there are as many select lines as the tree is deep.
    pub proof fn lemma_shape(word_bits: nat, word_count: nat, nl: Netlist)
        requires
            word_count >= 1,
        ensures
            Self::at(word_bits, word_count, nl).outputs.len() == word_count,
            forall|i: int|
                0 <= i < word_count ==> (#[trigger] Self::at(word_bits, word_count, nl).outputs[i]).len()
                    == word_bits,
            Self::at(word_bits, word_count, nl).input.len() == word_bits,
            Self::at(word_bits, word_count, nl).select.len() == depth(word_count),
            Self::staged(word_bits, word_count, nl).next == nl.next + Self::size(word_bits, word_count),
        decreases word_count,
    {
        let d = PropogationDelay::standard();
        if word_count > 1 {
            lemma_lower_half(word_count);
            lemma_upper_is_shallower(word_count);
            let lo = lower_half(word_count);
            let (n1, lower) = Self::plan(word_bits, lo, nl);
            let (n2, upper) = Self::plan(word_bits, (word_count - lo) as nat, n1);
            Self::lemma_shape(word_bits, lo, nl);
            Self::lemma_shape(word_bits, (word_count - lo) as nat, n1);
            let l0 = n2.with_links(lower.input, upper.input, d, word_bits);
            lemma_with_links(n2, lower.input, upper.input, d, word_bits);
            let lower_enabler = AndGate::at(l0);
            let n3 = AndGate::staged(l0);
            AndGate::lemma_size(l0);
            let upper_enabler = AndGate::at(n3);
            let n4 = AndGate::staged(n3);
            AndGate::lemma_size(n3);
            let lower_select_gen = NotGate::at(n4);
            let n5 = NotGate::staged(n4);
            NotGate::lemma_size(n4);
            let upper_select = lower_select_gen.input;
            let lower_select = lower_select_gen.output;
            let enable = lower_enabler.b;
            let l5 = n5.with_link(enable, upper_enabler.b, d).with_link(lower_enabler.a, lower_select, d).with_link(
                upper_enabler.a,
                upper_select,
                d,
            ).with_link(lower_enabler.output, lower.enable, d).with_link(upper_enabler.output, upper.enable, d);
            lemma_with_links(l5, lower.select, upper.select, d, upper.select.len());
        } else {
            let b = AndGateVec::b_of(nl, word_bits);
            lemma_row_next::<AndGate>(nl, word_bits);
            lemma_with_fan(AndGateVec::staged(nl, word_bits), b[0], b, d, word_bits);
        }
    }

    /// Stages a demultiplexer onto `word_count` words of `word_bits` bits.
    pub fn new(word_bits: usize, word_count: usize, creator: &mut NodeCreator) -> (demux: DemuxN)
        requires
            word_count >= 1,
            word_bits >= 1,
            old(creator)@.next + Self::size(word_bits as nat, word_count as nat) <= usize::MAX,
        ensures
            demux@ == Self::at(word_bits as nat, word_count as nat, old(creator)@),
            final(creator)@ == Self::staged(word_bits as nat, word_count as nat, old(creator)@),
            final(creator)@.next == old(creator)@.next + Self::size(
                word_bits as nat,
                word_count as nat,
            ),
        decreases word_count,
    {
        if word_count == 1 {
            let ands = AndGateVec::new(word_bits, creator);
            let ghost n1 = creator@;
            creator.link_one_to_many(ands.b[0], ands.b.as_slice(), PropogationDelay::standard());
            proof {
                lemma_with_fan(n1, ands.b@[0], ands.b@, PropogationDelay::standard(), word_bits as nat);
            }
            let enable = ands.b[0];
            let mut outputs: Vec<Vec<NodeIndex>> = Vec::new();
            outputs.push(ands.output);
            let demux = DemuxN { input: ands.a, outputs, select: Vec::new(), enable };
            proof {
                assert(demux@.outputs =~= seq![AndGateVec::output_of(old(creator)@, word_bits as nat)]);
            }
            demux
        } else {
            let lower_size = lower_size(word_count);
            proof {
                lemma_lower_half(word_count as nat);
                lemma_upper_is_shallower(word_count as nat);
                Self::lemma_shape(word_bits as nat, lower_size as nat, old(creator)@);
            }
            let lower = DemuxN::new(word_bits, lower_size, creator);
            let ghost n1 = creator@;
            proof {
                Self::lemma_shape(word_bits as nat, (word_count - lower_size) as nat, n1);
            }
            let upper = DemuxN::new(word_bits, word_count - lower_size, creator);
            let ghost n2 = creator@;

            creator.multilink(lower.input.as_slice(), upper.input.as_slice(), PropogationDelay::standard());
            proof {
                lemma_with_links(n2, lower.input@, upper.input@, PropogationDelay::standard(), word_bits as nat);
            }

            let mut outputs = lower.outputs;
            let mut upper_outputs = upper.outputs;
            let ghost lower_words = words_of(outputs@);
            let ghost upper_words = words_of(upper_outputs@);
            outputs.append(&mut upper_outputs);

            let lower_enabler = AndGate::new(creator);
            let upper_enabler = AndGate::new(creator);
            let lower_select_gen = NotGate::new(creator);
            let upper_select = lower_select_gen.input;
            let lower_select = lower_select_gen.output;
            let enable = lower_enabler.b;
            // The enablers share one input, the one that enables the whole.
            creator.link(enable, upper_enabler.b, PropogationDelay::standard());
            creator.link(lower_enabler.a, lower_select, PropogationDelay::standard());
            creator.link(upper_enabler.a, upper_select, PropogationDelay::standard());
            creator.link(lower_enabler.output, lower.enable, PropogationDelay::standard());
            creator.link(upper_enabler.output, upper.enable, PropogationDelay::standard());

            let ghost l5 = creator@;
            let shared = vstd::slice::slice_subrange(lower.select.as_slice(), 0, upper.select.len());
            creator.multilink(shared, upper.select.as_slice(), PropogationDelay::standard());
            proof {
                lemma_with_links_prefix(
                    l5,
                    shared@,
                    upper.select@,
                    lower.select@,
                    upper.select@,
                    PropogationDelay::standard(),
                    upper.select@.len(),
                );
                lemma_with_links(l5, lower.select@, upper.select@, PropogationDelay::standard(), upper.select@.len());
            }
            let mut select = lower.select;
            select.push(upper_select);

            let demux = DemuxN { input: lower.input, select, outputs, enable };
            proof {
                assert(demux@.outputs =~= lower_words + upper_words);
            }
            demux
        }
    }
}

} // verus!
