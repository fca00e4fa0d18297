//! Multiplexers: of two bits, of two words, and of many words.

use vstd::prelude::*;
use crate::creator::NodeCreator;
use crate::logic_gates::{AndGate, NotGate, OrGate};
use crate::netlist::{lemma_with_links, lemma_with_links_prefix, Netlist};
use crate::part::{counts, plus, lemma_row_of_four, member, new_nodes, repeated, replicate, row, run_of, Part};
use crate::sim::{NodeIndex, PropogationDelay};
use crate::split::{depth, lemma_lower_half, lemma_upper_is_shallower, lower_half, lower_size};

verus! {

/// A multiplexer of two bits: the output follows `a` while `select` is
/// Low, and `b` while it is High.
#[derive(Debug, Clone, Copy, PartialEq, Eq, Structural)]
pub struct BitMux {
    pub a: NodeIndex,
    pub b: NodeIndex,
    pub select: NodeIndex,
    pub output: NodeIndex,
}

impl Part for BitMux {
    open spec fn size() -> nat {
        24
    }

    fn node_count() -> (n: usize) {
        24
    }

    open spec fn at(nl: Netlist) -> BitMux {
        let not_select = NotGate::at(nl);
        let n1 = NotGate::staged(nl);
        let a_masked = member::<AndGate>(n1, 0);
        let b_masked = member::<AndGate>(n1, 1);
        let output = OrGate::at(repeated::<AndGate>(n1, 2));
        BitMux { a: a_masked.b, b: b_masked.b, select: not_select.input, output: output.output }
    }

    open spec fn staged(nl: Netlist) -> Netlist {
        let not_select = NotGate::at(nl);
        let n1 = NotGate::staged(nl);
        let a_masked = member::<AndGate>(n1, 0);
        let b_masked = member::<AndGate>(n1, 1);
        let n3 = repeated::<AndGate>(n1, 2);
        let output = OrGate::at(n3);
        let d = PropogationDelay::standard();
        OrGate::staged(n3).with_link(not_select.output, a_masked.a, d).with_link(
            not_select.input,
            b_masked.a,
            d,
        ).with_link(a_masked.output, output.a, d).with_link(b_masked.output, output.b, d)
    }

    proof fn lemma_size(nl: Netlist) {
        NotGate::lemma_size(nl);
        crate::part::lemma_row_next::<AndGate>(NotGate::staged(nl), 2);
        OrGate::lemma_size(repeated::<AndGate>(NotGate::staged(nl), 2));
    }

    fn build(creator: &mut NodeCreator) -> (part: BitMux) {
        BitMux::new(creator)
    }
}

impl BitMux {
    /// Stages a multiplexer of two bits.
    pub fn new(creator: &mut NodeCreator) -> (mux: BitMux)
        requires
            old(creator)@.next + Self::size() <= usize::MAX,
        ensures
            mux == Self::at(old(creator)@),
            final(creator)@ == Self::staged(old(creator)@),
            final(creator)@.next == old(creator)@.next + Self::size(),
    {
        let not_select = NotGate::new(creator);
        proof {
            lemma_row_of_four::<AndGate>(creator@);
        }
        let a_masked = AndGate::new(creator);
        let b_masked = AndGate::new(creator);
        let output = OrGate::new(creator);

        creator.link(not_select.output, a_masked.a, PropogationDelay::standard());
        creator.link(not_select.input, b_masked.a, PropogationDelay::standard());
        creator.link(a_masked.output, output.a, PropogationDelay::standard());
        creator.link(b_masked.output, output.b, PropogationDelay::standard());

        BitMux { a: a_masked.b, b: b_masked.b, select: not_select.input, output: output.output }
    }
}

/// A multiplexer of two words: one multiplexer for each bit, their selects
/// tied.
pub struct Mux {
    pub a: Vec<NodeIndex>,
    pub b: Vec<NodeIndex>,
    pub output: Vec<NodeIndex>,
    pub select: NodeIndex,
}

impl Mux {
    /// The number of node indices that a multiplexer of words of `word_bits` bits takes, if it can be counted.
    pub fn node_count(word_bits: usize) -> (n: Option<usize>)
        ensures
            counts(n, Self::size(word_bits as nat) as int),
    {
        word_bits.checked_mul(24)
    }

    /// The number of node indices that a multiplexer of words of
    /// `word_bits` bits takes.
    pub open spec fn size(word_bits: nat) -> nat {
        word_bits * 24
    }

    /// The session `base` after the select of the first bit of the row
    /// built on `nl` was linked to that of each of the next `joints` bits.
    pub open spec fn tied(base: Netlist, nl: Netlist, joints: nat) -> Netlist
        decreases joints,
    {
        if joints == 0 {
            base
        } else {
            Self::tied(base, nl, (joints - 1) as nat).with_link(
                member::<BitMux>(nl, 0).select,
                member::<BitMux>(nl, joints).select,
                PropogationDelay::standard(),
            )
        }
    }

    /// The session `nl` after a multiplexer of two words was built on it: a
    /// row of bit multiplexers, then the links that tie their selects.
    pub open spec fn staged(nl: Netlist, word_bits: nat) -> Netlist {
        Self::tied(repeated::<BitMux>(nl, word_bits), nl, (word_bits - 1) as nat)
    }

    /// The inputs for the first word.
    pub open spec fn a_of(nl: Netlist, word_bits: nat) -> Seq<NodeIndex> {
        Seq::new(word_bits, |i: int| member::<BitMux>(nl, i as nat).a)
    }

    /// The inputs for the second word.
    pub open spec fn b_of(nl: Netlist, word_bits: nat) -> Seq<NodeIndex> {
        Seq::new(word_bits, |i: int| member::<BitMux>(nl, i as nat).b)
    }

    /// The outputs for the chosen word.
    pub open spec fn output_of(nl: Netlist, word_bits: nat) -> Seq<NodeIndex> {
        Seq::new(word_bits, |i: int| member::<BitMux>(nl, i as nat).output)
    }

    /// The select line.
    pub open spec fn select_of(nl: Netlist) -> NodeIndex {
        member::<BitMux>(nl, 0).select
    }

    /// Tying the selects stages nothing but links.
    pub proof fn lemma_tied(base: Netlist, nl: Netlist, joints: nat)
        ensures
            Self::tied(base, nl, joints).next == base.next,
        decreases joints,
    {
        if joints > 0 {
            Self::lemma_tied(base, nl, (joints - 1) as nat);
        }
    }

    /// Stages a multiplexer of two words of `word_bits` bits.
    pub fn new(word_bits: usize, creator: &mut NodeCreator) -> (mux: Mux)
        requires
            word_bits > 0,
            old(creator)@.next + Self::size(word_bits as nat) <= usize::MAX,
        ensures
            mux.a@ == Self::a_of(old(creator)@, word_bits as nat),
            mux.b@ == Self::b_of(old(creator)@, word_bits as nat),
            mux.output@ == Self::output_of(old(creator)@, word_bits as nat),
            mux.select == Self::select_of(old(creator)@),
            final(creator)@ == Self::staged(old(creator)@, word_bits as nat),
            final(creator)@.next == old(creator)@.next + Self::size(word_bits as nat),
    {
        let bits: Vec<BitMux> = replicate::<BitMux>(creator, word_bits);
        let ghost base = creator@;

        let mut k: usize = 1;
        while k < word_bits
            invariant
                1 <= k <= word_bits,
                bits@ == row::<BitMux>(old(creator)@, word_bits as nat),
                creator@ == Self::tied(base, old(creator)@, (k - 1) as nat),
                creator@.next == base.next,
            decreases word_bits - k,
        {
            creator.link(bits[0].select, bits[k].select, PropogationDelay::standard());
            k = k + 1;
        }

        let mut a: Vec<NodeIndex> = Vec::new();
        let mut b: Vec<NodeIndex> = Vec::new();
        let mut output: Vec<NodeIndex> = Vec::new();
        let mut i: usize = 0;
        while i < word_bits
            invariant
                i <= word_bits,
                bits@ == row::<BitMux>(old(creator)@, word_bits as nat),
                a@ == Self::a_of(old(creator)@, i as nat),
                b@ == Self::b_of(old(creator)@, i as nat),
                output@ == Self::output_of(old(creator)@, i as nat),
            decreases word_bits - i,
        {
            a.push(bits[i].a);
            b.push(bits[i].b);
            output.push(bits[i].output);
            proof {
                assert(a@ =~= Self::a_of(old(creator)@, (i + 1) as nat));
                assert(b@ =~= Self::b_of(old(creator)@, (i + 1) as nat));
                assert(output@ =~= Self::output_of(old(creator)@, (i + 1) as nat));
            }
            i = i + 1;
        }

        Mux { a, b, output, select: bits[0].select }
    }
}

/// The handles of a multiplexer of many words, as sequences.
pub struct MuxNView {
    /// The inputs, word by word.
    pub inputs: Seq<Seq<NodeIndex>>,
    /// The outputs for the chosen word.
    pub output: Seq<NodeIndex>,
    /// The select lines, lowest bit first.
    pub select: Seq<NodeIndex>,
}

/// A multiplexer of many words: a tree of multiplexers of two words.
pub struct MuxN {
    pub inputs: Vec<Vec<NodeIndex>>,
    pub output: Vec<NodeIndex>,
    pub select: Vec<NodeIndex>,
}

/// The words of `words`, each as a sequence.
pub open spec fn words_of(words: Seq<Vec<NodeIndex>>) -> Seq<Seq<NodeIndex>> {
    Seq::new(words.len(), |i: int| words[i]@)
}

impl View for MuxN {
    type V = MuxNView;

    open spec fn view(&self) -> MuxNView {
        MuxNView { inputs: words_of(self.inputs@), output: self.output@, select: self.select@ }
    }
}

impl MuxN {
    /// The number of node indices that a multiplexer of `word_count` words of `word_bits` bits takes, if it can be counted.
    pub fn node_count(word_bits: usize, word_count: usize) -> (n: Option<usize>)
        requires
            word_count >= 1,
        ensures
            counts(n, Self::size(word_bits as nat, word_count as nat) as int),
        decreases word_count,
    {
        if word_count == 1 {
            Some(word_bits)
        } else {
            let lower = lower_size(word_count);
            proof {
                lemma_lower_half(word_count as nat);
            }
            let below = Self::node_count(word_bits, lower);
            let above = Self::node_count(word_bits, word_count - lower);
            plus(plus(below, above), Mux::node_count(word_bits))
        }
    }

    /// The number of node indices that a multiplexer of `word_count` words
    /// of `word_bits` bits takes.
    pub open spec fn size(word_bits: nat, word_count: nat) -> nat
        decreases word_count,
    {
        if word_count <= 1 {
            word_bits
        } else {
            proof {
                lemma_lower_half(word_count);
            }
            let lo = lower_half(word_count);
            Self::size(word_bits, lo) + Self::size(word_bits, (word_count - lo) as nat) + Mux::size(
                word_bits,
            )
        }
    }

    /// What building a multiplexer of `word_count` words of `word_bits`
    /// bits on the session `nl` leaves: the session afterwards, and the
    /// handles. One word is a row of new nodes that are inputs and outputs
    /// at once. More words are split into a lower and an upper part, each
    /// a multiplexer of its own, and a multiplexer of two words that
    /// chooses between their outputs by the highest select line; the select
    /// lines of the upper part are linked to the lowest of the lower part.
    pub open spec fn plan(word_bits: nat, word_count: nat, nl: Netlist) -> (Netlist, MuxNView)
        decreases word_count,
    {
        if word_count <= 1 {
            let nodes = run_of(nl.next, word_bits);
            (
                nl.with_nodes(word_bits),
                MuxNView { inputs: seq![nodes], output: nodes, select: Seq::empty() },
            )
        } else {
            proof {
                lemma_lower_half(word_count);
            }
            let lo = lower_half(word_count);
            let (n1, lower) = Self::plan(word_bits, lo, nl);
            let (n2, upper) = Self::plan(word_bits, (word_count - lo) as nat, n1);
            let n3 = Mux::staged(n2, word_bits);
            let d = PropogationDelay::standard();
            (
                n3.with_links(lower.output, Mux::a_of(n2, word_bits), d, word_bits).with_links(
                    upper.output,
                    Mux::b_of(n2, word_bits),
                    d,
                    word_bits,
                ).with_links(lower.select, upper.select, d, upper.select.len()),
                MuxNView {
                    inputs: lower.inputs + upper.inputs,
                    output: Mux::output_of(n2, word_bits),
                    select: lower.select.push(Mux::select_of(n2)),
                },
            )
        }
    }

    /// The session `nl` after the multiplexer was built on it.
    pub open spec fn staged(word_bits: nat, word_count: nat, nl: Netlist) -> Netlist {
        Self::plan(word_bits, word_count, nl).0
    }

    /// The handles of the multiplexer built on the session `nl`.
    pub open spec fn at(word_bits: nat, word_count: nat, nl: Netlist) -> MuxNView {
        Self::plan(word_bits, word_count, nl).1
    }

    /// The shape of a multiplexer of many words: it has one input word for
    /// each word, every word has the width of the output, and there are as
    /// many select lines as the tree is deep.
    pub proof fn lemma_shape(word_bits: nat, word_count: nat, nl: Netlist)
        requires
            word_count >= 1,
        ensures
            Self::at(word_bits, word_count, nl).inputs.len() == word_count,
            forall|i: int|
                0 <= i < word_count ==> (#[trigger] Self::at(word_bits, word_count, nl).inputs[i]).len()
                    == word_bits,
            Self::at(word_bits, word_count, nl).output.len() == word_bits,
            Self::at(word_bits, word_count, nl).select.len() == depth(word_count),
            Self::staged(word_bits, word_count, nl).next == nl.next + Self::size(word_bits, word_count),
        decreases word_count,
    {
        if word_count > 1 {
            lemma_lower_half(word_count);
            lemma_upper_is_shallower(word_count);
            let lo = lower_half(word_count);
            let (n1, lower) = Self::plan(word_bits, lo, nl);
            let (n2, upper) = Self::plan(word_bits, (word_count - lo) as nat, n1);
            Self::lemma_shape(word_bits, lo, nl);
            Self::lemma_shape(word_bits, (word_count - lo) as nat, n1);
            let n3 = Mux::staged(n2, word_bits);
            let d = PropogationDelay::standard();
            Mux::lemma_tied(repeated::<BitMux>(n2, word_bits), n2, (word_bits - 1) as nat);
            crate::part::lemma_row_next::<BitMux>(n2, word_bits);
            let l1 = n3.with_links(lower.output, Mux::a_of(n2, word_bits), d, word_bits);
            lemma_with_links(n3, lower.output, Mux::a_of(n2, word_bits), d, word_bits);
            let l2 = l1.with_links(upper.output, Mux::b_of(n2, word_bits), d, word_bits);
            lemma_with_links(l1, upper.output, Mux::b_of(n2, word_bits), d, word_bits);
            lemma_with_links(l2, lower.select, upper.select, d, upper.select.len());
        }
    }

    /// Stages a multiplexer of `word_count` words of `word_bits` bits.
    pub fn new(word_bits: usize, word_count: usize, creator: &mut NodeCreator) -> (mux: MuxN)
        requires
            word_count >= 1,
            word_count >= 2 ==> word_bits >= 1,
            old(creator)@.next + Self::size(word_bits as nat, word_count as nat) <= usize::MAX,
        ensures
            mux@ == Self::at(word_bits as nat, word_count as nat, old(creator)@),
            final(creator)@ == Self::staged(word_bits as nat, word_count as nat, old(creator)@),
            final(creator)@.next == old(creator)@.next + Self::size(
                word_bits as nat,
                word_count as nat,
            ),
        decreases word_count,
    {
        if word_count == 1 {
            let nodes: Vec<NodeIndex> = new_nodes(creator, word_bits);
            let mut inputs: Vec<Vec<NodeIndex>> = Vec::new();
            inputs.push(nodes.clone());
            let mux = MuxN { inputs, output: nodes, select: Vec::new() };
            proof {
                assert(mux@.inputs =~= seq![run_of(old(creator)@.next, word_bits as nat)]);
            }
            mux
        } else {
            let lower_size = lower_size(word_count);
            proof {
                lemma_lower_half(word_count as nat);
                lemma_upper_is_shallower(word_count as nat);
                Self::lemma_shape(word_bits as nat, lower_size as nat, old(creator)@);
            }
            let lower = MuxN::new(word_bits, lower_size, creator);
            let ghost n1 = creator@;
            proof {
                Self::lemma_shape(word_bits as nat, (word_count - lower_size) as nat, n1);
            }
            let upper = MuxN::new(word_bits, word_count - lower_size, creator);
            let ghost n2 = creator@;
            let top_level_chooser = Mux::new(word_bits, creator);
            let ghost n3 = creator@;
            creator.multilink(
                lower.output.as_slice(),
                top_level_chooser.a.as_slice(),
                PropogationDelay::standard(),
            );
            creator.multilink(
                upper.output.as_slice(),
                top_level_chooser.b.as_slice(),
                PropogationDelay::standard(),
            );
            let ghost l2 = creator@;
            let shared = vstd::slice::slice_subrange(lower.select.as_slice(), 0, upper.select.len());
            creator.multilink(shared, upper.select.as_slice(), PropogationDelay::standard());
            proof {
                lemma_with_links_prefix(
                    l2,
                    shared@,
                    upper.select@,
                    lower.select@,
                    upper.select@,
                    PropogationDelay::standard(),
                    upper.select@.len(),
                );
                lemma_with_links(n3, lower.output@, top_level_chooser.a@, PropogationDelay::standard(), word_bits as nat);
                lemma_with_links(
                    n3.with_links(lower.output@, top_level_chooser.a@, PropogationDelay::standard(), word_bits as nat),
                    upper.output@,
                    top_level_chooser.b@,
                    PropogationDelay::standard(),
                    word_bits as nat,
                );
                lemma_with_links(l2, lower.select@, upper.select@, PropogationDelay::standard(), upper.select@.len());
            }

            let mut select = lower.select;
            select.push(top_level_chooser.select);
            let mut inputs = lower.inputs;
            let mut upper_inputs = upper.inputs;
            let ghost lower_words = words_of(inputs@);
            let ghost upper_words = words_of(upper_inputs@);
            inputs.append(&mut upper_inputs);

            let mux = MuxN { inputs, output: top_level_chooser.output, select };
            proof {
                assert(mux@.inputs =~= lower_words + upper_words);
            }
            mux
        }
    }
}

} // verus!
