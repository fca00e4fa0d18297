//! The arithmetic and logic unit.
//!
//! The mode selects the function: 0 gives zero, 1 passes `a` on, 2 adds one
//! to `a`, 3 takes one from `a`, 4 adds `a` and `b`, 5 takes `b` from `a`,
//! 6 is the bitwise AND of `a` and `b`; 7 is unused.
//!
//! A control memory decodes the mode into four lines: whether `b` is kept
//! rather than replaced by zero, whether it is then inverted, whether a
//! carry enters the adder, and whether the output is taken from the AND
//! gates rather than from the adder.

use vstd::prelude::*;
use crate::adder::RippleCarryAdder;
use crate::cpu0::params::Params;
use crate::creator::NodeCreator;
use crate::logic_gates::{AndGateVec, XorGateVec};
use crate::mux::Mux;
use crate::part::{counts, plus};
use crate::netlist::{lemma_with_fan, lemma_with_links, Netlist};
use crate::rom::{rectangular, rows_of, Rom};
use crate::sim::{NodeIndex, PropogationDelay};

verus! {

/// The handles of the unit, as sequences.
pub struct AluView {
    /// The inputs for the first operand.
    pub a: Seq<NodeIndex>,
    /// The inputs for the second operand.
    pub b: Seq<NodeIndex>,
    /// The mode lines, lowest bit first.
    pub mode: Seq<NodeIndex>,
    /// The outputs for the result.
    pub output: Seq<NodeIndex>,
}

/// The arithmetic and logic unit.
pub struct Alu {
    pub a: Vec<NodeIndex>,
    pub b: Vec<NodeIndex>,
    pub mode: Vec<NodeIndex>,
    pub output: Vec<NodeIndex>,
}

impl View for Alu {
    type V = AluView;

    open spec fn view(&self) -> AluView {
        AluView { a: self.a@, b: self.b@, mode: self.mode@, output: self.output@ }
    }
}

/// The control word of each mode: keep `b`, invert, carry in, select AND.
pub open spec fn control_rows() -> Seq<Seq<bool>> {
    seq![
        seq![false, false, false, true],
        seq![false, false, false, false],
        seq![false, false, true, false],
        seq![false, true, false, false],
        seq![true, false, false, false],
        seq![true, true, true, false],
        seq![true, false, false, true],
    ]
}

/// A control word.
fn control_word(keep: bool, invert: bool, carry: bool, and: bool) -> (word: Vec<bool>)
    ensures
        word@ == seq![keep, invert, carry, and],
{
    let mut word: Vec<bool> = Vec::new();
    word.push(keep);
    word.push(invert);
    word.push(carry);
    word.push(and);
    assert(word@ =~= seq![keep, invert, carry, and]);
    word
}

/// The content of the control memory.
fn control_content() -> (content: Vec<Vec<bool>>)
    ensures
        rows_of(content@) == control_rows(),
        content@.len() == 7,
        content@[0]@.len() == 4,
        rectangular(rows_of(content@)),
{
    let mut content: Vec<Vec<bool>> = Vec::new();
    content.push(control_word(false, false, false, true));  // zero
    content.push(control_word(false, false, false, false));  // identity
    content.push(control_word(false, false, true, false));  // increment
    content.push(control_word(false, true, false, false));  // decrement
    content.push(control_word(true, false, false, false));  // add
    content.push(control_word(true, true, true, false));  // subtract
    content.push(control_word(true, false, false, true));  // and
    assert(rows_of(content@) =~= control_rows());
    content
}

impl Alu {
    /// The number of node indices that a unit for words of `word_bits` bits
    /// takes, if it can be counted.
    pub fn node_count(word_bits: usize) -> (n: Option<usize>)
        ensures
            counts(n, Self::size(word_bits as nat) as int),
    {
        let ands = AndGateVec::node_count(word_bits);
        plus(
            plus(
                plus(plus(plus(Rom::node_count(4, 7), ands), XorGateVec::node_count(word_bits)), RippleCarryAdder::node_count(word_bits)),
                ands,
            ),
            Mux::node_count(word_bits),
        )
    }

    /// The number of node indices that a unit for words of `word_bits`
    /// bits takes.
    pub open spec fn size(word_bits: nat) -> nat {
        Rom::size(4, 7) + AndGateVec::size(word_bits) + XorGateVec::size(word_bits)
            + RippleCarryAdder::size(word_bits) + AndGateVec::size(word_bits) + Mux::size(word_bits)
    }

    /// What building a unit for words of `word_bits` bits on the session
    /// `nl` leaves: the session afterwards, and the handles. The control
    /// memory comes first. A row of AND gates masks `b` by the keep line,
    /// a row of XOR gates inverts the result by the invert line, and an
    /// adder adds that to `a`, with the carry line as its carry. A second
    /// row of AND gates joins `a` and the masked `b`. A multiplexer picks
    /// the adder's sum or the AND gates' output by the select line.
    pub open spec fn plan(word_bits: nat, nl: Netlist) -> (Netlist, AluView) {
        let d = PropogationDelay::standard();
        let (n1, control_rom) = Rom::plan(control_rows(), nl);
        let keep_nonzero = control_rom.output[0];
        let do_invert = control_rom.output[1];
        let carry_in_set = control_rom.output[2];
        let select_and = control_rom.output[3];
        let n2 = AndGateVec::staged(n1, word_bits);
        let l2 = n2.with_fan(keep_nonzero, AndGateVec::b_of(n1, word_bits), d, word_bits);
        let n3 = XorGateVec::staged(l2, word_bits);
        let l3 = n3.with_links(
            AndGateVec::output_of(n1, word_bits),
            XorGateVec::a_of(l2, word_bits),
            d,
            word_bits,
        ).with_fan(do_invert, XorGateVec::b_of(l2, word_bits), d, word_bits);
        let n4 = RippleCarryAdder::staged(l3, word_bits);
        let l4 = n4.with_links(
            XorGateVec::output_of(l2, word_bits),
            RippleCarryAdder::b_of(l3, word_bits),
            d,
            word_bits,
        ).with_link(RippleCarryAdder::carry_in_of(l3), carry_in_set, d);
        let n5 = AndGateVec::staged(l4, word_bits);
        let l5 = n5.with_links(
            RippleCarryAdder::a_of(l3, word_bits),
            AndGateVec::a_of(l4, word_bits),
            d,
            word_bits,
        ).with_links(AndGateVec::output_of(n1, word_bits), AndGateVec::b_of(l4, word_bits), d, word_bits);
        let n6 = Mux::staged(l5, word_bits);
        let l6 = n6.with_links(
            RippleCarryAdder::sum_of(l3, word_bits),
            Mux::a_of(l5, word_bits),
            d,
            word_bits,
        ).with_links(AndGateVec::output_of(l4, word_bits), Mux::b_of(l5, word_bits), d, word_bits).with_link(
            select_and,
            Mux::select_of(l5),
            d,
        );
        (
            l6,
            AluView {
                a: RippleCarryAdder::a_of(l3, word_bits),
                b: AndGateVec::a_of(n1, word_bits),
                mode: control_rom.address,
                output: Mux::output_of(l5, word_bits),
            },
        )
    }

    /// The session `nl` after the unit was built on it.
    pub open spec fn staged(word_bits: nat, nl: Netlist) -> Netlist {
        Self::plan(word_bits, nl).0
    }

    /// The handles of the unit built on the session `nl`.
    pub open spec fn at(word_bits: nat, nl: Netlist) -> AluView {
        Self::plan(word_bits, nl).1
    }

    /// Stages an arithmetic and logic unit for words of `params.word_bits`
    /// bits.
    pub fn new(params: &Params, creator: &mut NodeCreator) -> (alu: Alu)
        requires
            params.word_bits >= 1,
            old(creator)@.next + Self::size(params.word_bits as nat) <= usize::MAX,
        ensures
            alu@ == Self::at(params.word_bits as nat, old(creator)@),
            final(creator)@ == Self::staged(params.word_bits as nat, old(creator)@),
            final(creator)@.next == old(creator)@.next + Self::size(params.word_bits as nat),
    {
        let word_bits = params.word_bits;
        let ghost d = PropogationDelay::standard();
        let ghost wb = word_bits as nat;
        let content = control_content();
        proof {
            Rom::lemma_shape(control_rows(), old(creator)@);
        }
        let control_rom = Rom::new(content.as_slice(), creator);
        let ghost n1 = creator@;

        let keep_nonzero = control_rom.output[0];
        let do_invert = control_rom.output[1];
        let carry_in_set = control_rom.output[2];
        let select_and = control_rom.output[3];

        // Build the branch that uses the adder.
        // Possibly mask B to 0.
        let masked_b = AndGateVec::new(word_bits, creator);
        let ghost n2 = creator@;
        creator.link_one_to_many(keep_nonzero, masked_b.b.as_slice(), PropogationDelay::standard());
        let ghost l2 = creator@;
        proof {
            lemma_with_fan(n2, keep_nonzero, masked_b.b@, d, wb);
        }

        // Possibly invert the masked B.
        let prepped_b_producer = XorGateVec::new(word_bits, creator);
        let ghost n3 = creator@;
        creator.multilink(
            masked_b.output.as_slice(),
            prepped_b_producer.a.as_slice(),
            PropogationDelay::standard(),
        );
        let ghost l3a = creator@;
        creator.link_one_to_many(do_invert, prepped_b_producer.b.as_slice(), PropogationDelay::standard());
        let ghost l3 = creator@;
        proof {
            lemma_with_links(n3, masked_b.output@, prepped_b_producer.a@, d, wb);
            lemma_with_fan(l3a, do_invert, prepped_b_producer.b@, d, wb);
        }

        // Add the tweaked B to A.
        let adder = RippleCarryAdder::new(creator, word_bits);
        let ghost n4 = creator@;
        creator.multilink(prepped_b_producer.output.as_slice(), adder.b.as_slice(), PropogationDelay::standard());
        creator.link(adder.carry_in, carry_in_set, PropogationDelay::standard());
        let ghost l4 = creator@;
        proof {
            lemma_with_links(n4, prepped_b_producer.output@, adder.b@, d, wb);
        }

        // Build the branch that uses the AND gates.
        let ander = AndGateVec::new(word_bits, creator);
        let ghost n5 = creator@;
        creator.multilink(adder.a.as_slice(), ander.a.as_slice(), PropogationDelay::standard());
        let ghost l5a = creator@;
        creator.multilink(masked_b.output.as_slice(), ander.b.as_slice(), PropogationDelay::standard());
        let ghost l5 = creator@;
        proof {
            lemma_with_links(n5, adder.a@, ander.a@, d, wb);
            lemma_with_links(l5a, masked_b.output@, ander.b@, d, wb);
        }

        // Build the chooser between the adder and the AND gates.
        let chooser = Mux::new(word_bits, creator);
        let ghost n6 = creator@;
        creator.multilink(adder.sum.as_slice(), chooser.a.as_slice(), PropogationDelay::standard());
        let ghost l6a = creator@;
        creator.multilink(ander.output.as_slice(), chooser.b.as_slice(), PropogationDelay::standard());
        creator.link(select_and, chooser.select, PropogationDelay::standard());
        proof {
            lemma_with_links(n6, adder.sum@, chooser.a@, d, wb);
            lemma_with_links(l6a, ander.output@, chooser.b@, d, wb);
        }

        Alu { a: adder.a, b: masked_b.a, mode: control_rom.address, output: chooser.output }
    }
}

} // verus!
