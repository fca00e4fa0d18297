//! The register bank: a row of registers that share their data inputs, a
//! multiplexer that reads one of them, and a demultiplexer that passes the
//! write clock to one of them.

use vstd::prelude::*;
use vstd::arithmetic::power2::{lemma_pow2_pos, lemma_pow2_unfold, pow2};
use crate::cpu0::params::Params;
use crate::creator::NodeCreator;
use crate::demux::DemuxN;
use crate::mux::MuxN;
use crate::netlist::{lemma_with_links, Netlist};
use crate::part::{counts, plus, row};
use crate::sim::{NodeIndex, PropogationDelay};
use crate::storage::{DFlipFlop, Register};

verus! {

/// The handles of the register bank, as sequences.
pub struct RegisterBankView {
    /// The select lines of the register to write, lowest bit first.
    pub write_selector: Seq<NodeIndex>,
    /// The select lines of the register to read, lowest bit first.
    pub read_selector: Seq<NodeIndex>,
    /// The inputs for the word to write.
    pub input: Seq<NodeIndex>,
    /// The outputs for the word that is read.
    pub output: Seq<NodeIndex>,
    /// The write clock: when it goes High, the input is stored.
    pub write_clock: NodeIndex,
}

/// The register bank.
pub struct RegisterBank {
    pub write_selector: Vec<NodeIndex>,
    pub read_selector: Vec<NodeIndex>,
    pub input: Vec<NodeIndex>,
    pub output: Vec<NodeIndex>,
    pub write_clock: NodeIndex,
}

impl View for RegisterBank {
    type V = RegisterBankView;

    open spec fn view(&self) -> RegisterBankView {
        RegisterBankView {
            write_selector: self.write_selector@,
            read_selector: self.read_selector@,
            input: self.input@,
            output: self.output@,
            write_clock: self.write_clock,
        }
    }
}

/// Two to the power of `log`.
fn two_to(log: usize) -> (count: usize)
    requires
        pow2(log as nat) <= usize::MAX,
    ensures
        count == pow2(log as nat),
{
    let mut count: usize = 1;
    let mut i: usize = 0;
    proof {
        lemma_pow2_unfold(1);
        vstd::arithmetic::power2::lemma2_to64();
    }
    while i < log
        invariant
            i <= log,
            count == pow2(i as nat),
            pow2(log as nat) <= usize::MAX,
        decreases log - i,
    {
        proof {
            lemma_pow2_unfold((i + 1) as nat);
            if i + 1 < log {
                vstd::arithmetic::power2::lemma_pow2_strictly_increases((i + 1) as nat, log as nat);
            }
        }
        count = count * 2;
        i = i + 1;
    }
    count
}

impl RegisterBank {
    /// The session `nl` after `count` registers of `word_bits` bits were
    /// built on it, one after the other.
    pub open spec fn registers(nl: Netlist, word_bits: nat, count: nat) -> Netlist
        decreases count,
    {
        if count == 0 {
            nl
        } else {
            Register::staged(Self::registers(nl, word_bits, (count - 1) as nat), word_bits)
        }
    }

    /// The data inputs of register `k` of the row built on `nl`.
    pub open spec fn inputs_of(nl: Netlist, word_bits: nat, k: nat) -> Seq<NodeIndex> {
        Register::inputs_of(Self::registers(nl, word_bits, k), word_bits)
    }

    /// The outputs of register `k` of the row built on `nl`.
    pub open spec fn outputs_of(nl: Netlist, word_bits: nat, k: nat) -> Seq<NodeIndex> {
        Register::outputs_of(Self::registers(nl, word_bits, k), word_bits)
    }

    /// The clock of register `k` of the row built on `nl`.
    pub open spec fn clock_of(nl: Netlist, word_bits: nat, k: nat) -> NodeIndex {
        Register::clock_of(Self::registers(nl, word_bits, k))
    }

    /// The session `base` after the data inputs of the first register were
    /// linked to those of each of the next `joints` registers.
    pub open spec fn inputs_tied(base: Netlist, nl: Netlist, word_bits: nat, joints: nat) -> Netlist
        decreases joints,
    {
        if joints == 0 {
            base
        } else {
            Self::inputs_tied(base, nl, word_bits, (joints - 1) as nat).with_links(
                Self::inputs_of(nl, word_bits, 0),
                Self::inputs_of(nl, word_bits, joints),
                PropogationDelay::standard(),
                word_bits,
            )
        }
    }

    /// The session `base` after the outputs of each of the first `count`
    /// registers were linked to the word of `words` with the same number.
    pub open spec fn outputs_fed(
        base: Netlist,
        nl: Netlist,
        word_bits: nat,
        words: Seq<Seq<NodeIndex>>,
        count: nat,
    ) -> Netlist
        decreases count,
    {
        if count == 0 {
            base
        } else {
            Self::outputs_fed(base, nl, word_bits, words, (count - 1) as nat).with_links(
                Self::outputs_of(nl, word_bits, (count - 1) as nat),
                words[count - 1],
                PropogationDelay::standard(),
                word_bits,
            )
        }
    }

    /// The session `base` after the first node of each of the first
    /// `count` words of `words` was linked to the clock of the register
    /// with the same number.
    pub open spec fn clocks_fed(
        base: Netlist,
        nl: Netlist,
        word_bits: nat,
        words: Seq<Seq<NodeIndex>>,
        count: nat,
    ) -> Netlist
        decreases count,
    {
        if count == 0 {
            base
        } else {
            Self::clocks_fed(base, nl, word_bits, words, (count - 1) as nat).with_link(
                words[count - 1][0],
                Self::clock_of(nl, word_bits, (count - 1) as nat),
                PropogationDelay::standard(),
            )
        }
    }

    /// The number of registers of a bank with `log` address lines, two to
    /// the power of `log`, if it can be counted.
    pub fn register_count(log: usize) -> (n: Option<usize>)
        ensures
            counts(n, pow2(log as nat) as int),
    {
        let mut count: usize = 1;
        let mut i: usize = 0;
        proof {
            vstd::arithmetic::power2::lemma2_to64();
        }
        while i < log
            invariant
                i <= log,
                count == pow2(i as nat),
            decreases log - i,
        {
            proof {
                lemma_pow2_unfold((i + 1) as nat);
            }
            match count.checked_mul(2) {
                Some(twice) => {
                    count = twice;
                },
                None => {
                    proof {
                        if i + 1 < log {
                            vstd::arithmetic::power2::lemma_pow2_strictly_increases((i + 1) as nat, log as nat);
                        }
                    }
                    return None;
                },
            }
            i = i + 1;
        }
        Some(count)
    }

    /// The number of node indices that a bank of `count` registers of
    /// `word_bits` bits takes, if it can be counted.
    pub fn node_count(word_bits: usize, count: usize) -> (n: Option<usize>)
        requires
            count >= 1,
        ensures
            counts(n, Self::size(word_bits as nat, count as nat) as int),
    {
        let registers = match Register::node_count(word_bits) {
            Some(each) => count.checked_mul(each),
            None => None,
        };
        proof {
            if Register::size(word_bits as nat) > usize::MAX {
                assert(count * Register::size(word_bits as nat) > usize::MAX) by (nonlinear_arith)
                    requires
                        count >= 1,
                        Register::size(word_bits as nat) > usize::MAX,
                ;
            }
        }
        assert(counts(registers, count * Register::size(word_bits as nat)));
        plus(plus(registers, MuxN::node_count(word_bits, count)), DemuxN::node_count(1, count))
    }

    /// The number of node indices that a bank of `count` registers of
    /// `word_bits` bits takes.
    pub open spec fn size(word_bits: nat, count: nat) -> nat {
        count * Register::size(word_bits) + MuxN::size(word_bits, count) + DemuxN::size(1, count)
    }

    /// What building a bank of `count` registers of `word_bits` bits on
    /// the session `nl` leaves: the session afterwards, and the handles.
    /// The registers come first, their data inputs tied. A multiplexer of
    /// as many words takes the outputs of the registers. A demultiplexer
    /// of one bit onto as many words feeds the clocks of the registers.
    pub open spec fn plan(word_bits: nat, count: nat, nl: Netlist) -> (Netlist, RegisterBankView) {
        let n1 = Self::registers(nl, word_bits, count);
        let l1 = Self::inputs_tied(n1, nl, word_bits, (count - 1) as nat);
        let (n2, output_chooser) = MuxN::plan(word_bits, count, l1);
        let l2 = Self::outputs_fed(n2, nl, word_bits, output_chooser.inputs, count);
        let (n3, demux) = DemuxN::plan(1, count, l2);
        let l3 = Self::clocks_fed(n3, nl, word_bits, demux.outputs, count);
        (
            l3,
            RegisterBankView {
                input: Self::inputs_of(nl, word_bits, 0),
                write_selector: demux.select,
                read_selector: output_chooser.select,
                write_clock: demux.input[0],
                output: output_chooser.output,
            },
        )
    }

    /// The session `nl` after the bank was built on it.
    pub open spec fn staged(word_bits: nat, count: nat, nl: Netlist) -> Netlist {
        Self::plan(word_bits, count, nl).0
    }

    /// The handles of the bank built on the session `nl`.
    pub open spec fn at(word_bits: nat, count: nat, nl: Netlist) -> RegisterBankView {
        Self::plan(word_bits, count, nl).1
    }

    /// Tying stages nothing but links.
    pub proof fn lemma_links_only(base: Netlist, nl: Netlist, word_bits: nat, words: Seq<Seq<NodeIndex>>, count: nat)
        ensures
            Self::inputs_tied(base, nl, word_bits, count).next == base.next,
            Self::outputs_fed(base, nl, word_bits, words, count).next == base.next,
            Self::clocks_fed(base, nl, word_bits, words, count).next == base.next,
        decreases count,
    {
        if count > 0 {
            Self::lemma_links_only(base, nl, word_bits, words, (count - 1) as nat);
            lemma_with_links(
                Self::inputs_tied(base, nl, word_bits, (count - 1) as nat),
                Self::inputs_of(nl, word_bits, 0),
                Self::inputs_of(nl, word_bits, count),
                PropogationDelay::standard(),
                word_bits,
            );
            lemma_with_links(
                Self::outputs_fed(base, nl, word_bits, words, (count - 1) as nat),
                Self::outputs_of(nl, word_bits, (count - 1) as nat),
                words[count - 1],
                PropogationDelay::standard(),
                word_bits,
            );
        }
    }

    /// Stages a bank of two to the power of `params.log_register_count`
    /// registers of `params.word_bits` bits.
    pub fn new(params: &Params, creator: &mut NodeCreator) -> (bank: RegisterBank)
        requires
            params.word_bits >= 1,
            pow2(params.log_register_count as nat) <= usize::MAX,
            old(creator)@.next + Self::size(
                params.word_bits as nat,
                pow2(params.log_register_count as nat),
            ) <= usize::MAX,
        ensures
            bank@ == Self::at(
                params.word_bits as nat,
                pow2(params.log_register_count as nat),
                old(creator)@,
            ),
            final(creator)@ == Self::staged(
                params.word_bits as nat,
                pow2(params.log_register_count as nat),
                old(creator)@,
            ),
            final(creator)@.next == old(creator)@.next + Self::size(
                params.word_bits as nat,
                pow2(params.log_register_count as nat),
            ),
    {
        let word_bits = params.word_bits;
        let register_count = two_to(params.log_register_count);
        let ghost wb = word_bits as nat;
        let ghost count = register_count as nat;
        let ghost start = creator@;
        let ghost d = PropogationDelay::standard();
        proof {
            lemma_pow2_pos(params.log_register_count as nat);
        }

        let mut registers: Vec<Register> = Vec::new();
        let mut i: usize = 0;
        while i < register_count
            invariant
                i <= register_count,
                word_bits >= 1,
                wb == word_bits,
                start.next + register_count * Register::size(wb) <= usize::MAX,
                registers@.len() == i,
                forall|k: int|
                    0 <= k < i ==> (#[trigger] registers@[k]).bits@ == row::<DFlipFlop>(
                        Self::registers(start, wb, k as nat),
                        wb,
                    ) && registers@[k].clock == Self::clock_of(start, wb, k as nat),
                creator@ == Self::registers(start, wb, i as nat),
                creator@.next == start.next + i * Register::size(wb),
            decreases register_count - i,
        {
            proof {
                assert((i + 1) * Register::size(wb) == i * Register::size(wb) + Register::size(wb))
                    by (nonlinear_arith);
                assert((i + 1) * Register::size(wb) <= register_count * Register::size(wb))
                    by (nonlinear_arith)
                    requires
                        i + 1 <= register_count,
                ;
            }
            let register = Register::new(creator, word_bits);
            registers.push(register);
            i = i + 1;
        }
        let ghost n1 = creator@;

        // Wire all inputs together.
        let first_inputs = registers[0].inputs();
        proof {
            assert(first_inputs@ =~= Self::inputs_of(start, wb, 0));
        }
        let mut k: usize = 1;
        while k < register_count
            invariant
                1 <= k <= register_count,
                registers@.len() == register_count,
                first_inputs@ == Self::inputs_of(start, wb, 0),
                forall|k: int|
                    0 <= k < register_count ==> (#[trigger] registers@[k]).bits@ == row::<DFlipFlop>(
                        Self::registers(start, wb, k as nat),
                        wb,
                    ),
                creator@ == Self::inputs_tied(n1, start, wb, (k - 1) as nat),
            decreases register_count - k,
        {
            let inputs = registers[k].inputs();
            proof {
                assert(inputs@ =~= Self::inputs_of(start, wb, k as nat));
            }
            creator.multilink(first_inputs.as_slice(), inputs.as_slice(), PropogationDelay::standard());
            k = k + 1;
        }
        let ghost l1 = creator@;
        proof {
            Self::lemma_links_only(n1, start, wb, Seq::empty(), (count - 1) as nat);
            MuxN::lemma_shape(wb, count, l1);
        }

        let output_chooser = MuxN::new(word_bits, register_count, creator);
        let ghost n2 = creator@;
        let ghost words = output_chooser@.inputs;
        let mut k: usize = 0;
        while k < register_count
            invariant
                k <= register_count,
                registers@.len() == register_count,
                output_chooser.inputs@.len() == register_count,
                words == output_chooser@.inputs,
                forall|i: int| 0 <= i < register_count ==> (#[trigger] words[i]).len() == wb,
                forall|k: int|
                    0 <= k < register_count ==> (#[trigger] registers@[k]).bits@ == row::<DFlipFlop>(
                        Self::registers(start, wb, k as nat),
                        wb,
                    ),
                creator@ == Self::outputs_fed(n2, start, wb, words, k as nat),
            decreases register_count - k,
        {
            let outputs = registers[k].outputs();
            proof {
                assert(outputs@ =~= Self::outputs_of(start, wb, k as nat));
                assert(output_chooser.inputs@[k as int]@ == words[k as int]);
            }
            creator.multilink(
                outputs.as_slice(),
                output_chooser.inputs[k].as_slice(),
                PropogationDelay::standard(),
            );
            k = k + 1;
        }
        let ghost l2 = creator@;
        proof {
            Self::lemma_links_only(n2, start, wb, words, count);
            DemuxN::lemma_shape(1, count, l2);
        }

        let demux = DemuxN::new(1, register_count, creator);
        let ghost n3 = creator@;
        let ghost lines = demux@.outputs;
        let mut k: usize = 0;
        while k < register_count
            invariant
                k <= register_count,
                registers@.len() == register_count,
                demux.outputs@.len() == register_count,
                lines == demux@.outputs,
                forall|i: int| 0 <= i < register_count ==> (#[trigger] lines[i]).len() == 1,
                forall|k: int|
                    0 <= k < register_count ==> (#[trigger] registers@[k]).clock == Self::clock_of(
                        start,
                        wb,
                        k as nat,
                    ),
                creator@ == Self::clocks_fed(n3, start, wb, lines, k as nat),
            decreases register_count - k,
        {
            proof {
                assert(demux.outputs@[k as int]@ == lines[k as int]);
            }
            creator.link(demux.outputs[k][0], registers[k].clock, PropogationDelay::standard());
            k = k + 1;
        }
        proof {
            Self::lemma_links_only(n3, start, wb, lines, count);
        }

        RegisterBank {
            input: first_inputs,
            write_selector: demux.select,
            read_selector: output_chooser.select,
            write_clock: demux.input[0],
            output: output_chooser.output,
        }
    }
}

} // verus!
