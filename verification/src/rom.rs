//! Constant bits and read-only memory.

use vstd::prelude::*;
use crate::circuit::Circuit;
use crate::collection::NodeCollection;
use crate::creator::NodeCreator;
use crate::element::{Demand, Element, Primitive};
use crate::mux::{BitMux, Mux};
use crate::netlist::{lemma_with_links, lemma_with_links_prefix, Netlist};
use crate::part::{counts, plus, lemma_row_next, repeated, run_of};
use crate::split::{depth, lemma_lower_half, lemma_upper_is_shallower, lower_half, lower_size};
use crate::sim::PropogationDelay;
use crate::word::{bits_of, test_bit};
use crate::sim::{LineState, NodeIndex};

verus! {

/// The element behind a constant bit: it keeps driving its node to one value.
#[derive(Debug, Clone, Copy, PartialEq, Eq, Structural)]
pub struct ConstantBitElem {
    pub node: NodeIndex,
    pub on: bool,
}

impl ConstantBitElem {
    /// The constant bit whose node is the next that the session `nl` issues.
    pub open spec fn at(on: bool, nl: Netlist) -> ConstantBitElem {
        ConstantBitElem { node: nl.ahead(0), on }
    }

    /// A constant bit on a new node.
    pub fn new(on: bool, c: &mut NodeCreator) -> (e: ConstantBitElem)
        requires
            old(c)@.next + 1 <= usize::MAX,
        ensures
            e == ConstantBitElem::at(on, old(c)@),
            final(c)@ == old(c)@.with_nodes(1),
    {
        ConstantBitElem { node: c.new_node(), on }
    }

    /// The node a constant bit owns.
    pub open spec fn claims(self) -> Seq<NodeIndex> {
        seq![self.node]
    }

    /// The signal of a constant bit: High when on, Low when off.
    pub open spec fn level(self) -> LineState {
        if self.on {
            LineState::High
        } else {
            LineState::Low
        }
    }

    /// A constant bit drives its node to its level.
    pub open spec fn wants(self) -> Demand {
        Demand { node: self.node, state: self.level() }
    }
}

impl Element for ConstantBitElem {
    open spec fn owned(&self) -> Seq<NodeIndex> {
        self.claims()
    }

    open spec fn demand(&self, c: Circuit) -> Option<Demand> {
        Some(self.wants())
    }

    fn step(&self, c: &mut NodeCollection) {
        let state = if self.on {
            LineState::High
        } else {
            LineState::Low
        };
        self.node.write(state, c);
    }

    fn get_nodes(&self) -> (nodes: Vec<NodeIndex>) {
        let mut v = Vec::new();
        v.push(self.node);
        assert(v@ =~= self.claims());
        v
    }
}

/// A constant bit as its user sees it: the node that it drives.
#[derive(Debug, Clone, Copy, PartialEq, Eq, Structural)]
pub struct ConstantBit {
    pub node: NodeIndex,
}

impl ConstantBit {
    /// The handle of the constant bit built on the session `nl`.
    pub open spec fn at(nl: Netlist) -> ConstantBit {
        ConstantBit { node: nl.ahead(0) }
    }

    /// The session `nl` after a constant bit was built on it.
    pub open spec fn staged(on: bool, nl: Netlist) -> Netlist {
        nl.with_nodes(1).with_element(Primitive::Constant(ConstantBitElem::at(on, nl)))
    }

    /// Stages a constant bit: a new node and the element that drives it.
    pub fn new(on: bool, creator: &mut NodeCreator) -> (bit: ConstantBit)
        requires
            old(creator)@.next + 1 <= usize::MAX,
        ensures
            bit == Self::at(old(creator)@),
            final(creator)@ == Self::staged(on, old(creator)@),
            final(creator)@.next == old(creator)@.next + 1,
    {
        let elem = ConstantBitElem::new(on, creator);
        creator.add_element(Primitive::Constant(elem));
        ConstantBit { node: elem.node }
    }
}

/// A constant word: one constant bit for each bit.
pub struct ConstantBits {
    pub bits: Vec<NodeIndex>,
}

impl ConstantBits {
    /// The `bit_count` lowest bits of `value`, lowest first.
    pub fn make_bits(value: u64, bit_count: usize) -> (bits: Vec<bool>)
        requires
            bit_count <= 64,
        ensures
            bits@ == bits_of(value, bit_count as nat),
    {
        let mut bits: Vec<bool> = Vec::new();
        let mut bit_index: usize = 0;
        while bit_index < bit_count
            invariant
                bit_index <= bit_count <= 64,
                bits@ == bits_of(value, bit_index as nat),
            decreases bit_count - bit_index,
        {
            bits.push(test_bit(value, bit_index));
            proof {
                assert(bits@ =~= bits_of(value, (bit_index + 1) as nat));
            }
            bit_index = bit_index + 1;
        }
        bits
    }

    /// The session `nl` after a constant bit was built on it for each of
    /// the first `count` bits of `bits`, in order.
    pub open spec fn staged(bits: Seq<bool>, count: nat, nl: Netlist) -> Netlist
        decreases count,
    {
        if count == 0 {
            nl
        } else {
            ConstantBit::staged(bits[count - 1], Self::staged(bits, (count - 1) as nat, nl))
        }
    }

    /// A constant word takes one node index for each bit.
    pub proof fn lemma_staged(bits: Seq<bool>, count: nat, nl: Netlist)
        ensures
            Self::staged(bits, count, nl).next == nl.next + count,
        decreases count,
    {
        if count > 0 {
            Self::lemma_staged(bits, (count - 1) as nat, nl);
        }
    }

    /// Stages a constant word that holds `bits`. Its nodes are the next
    /// that the session issues, one for each bit, in order.
    pub fn new(bits: &[bool], creator: &mut NodeCreator) -> (word: ConstantBits)
        requires
            old(creator)@.next + bits@.len() <= usize::MAX,
        ensures
            word.bits@ == run_of(old(creator)@.next, bits@.len()),
            final(creator)@ == Self::staged(bits@, bits@.len(), old(creator)@),
            final(creator)@.next == old(creator)@.next + bits@.len(),
    {
        let mut nodes: Vec<NodeIndex> = Vec::new();
        let mut i: usize = 0;
        while i < bits.len()
            invariant
                i <= bits@.len(),
                old(creator)@.next + bits@.len() <= usize::MAX,
                nodes@ == run_of(old(creator)@.next, i as nat),
                creator@ == Self::staged(bits@, i as nat, old(creator)@),
                creator@.next == old(creator)@.next + i,
            decreases bits@.len() - i,
        {
            let bit = ConstantBit::new(bits[i], creator);
            nodes.push(bit.node);
            proof {
                assert(nodes@ =~= run_of(old(creator)@.next, (i + 1) as nat));
            }
            i = i + 1;
        }
        ConstantBits { bits: nodes }
    }
}

/// The handles of a read-only memory, as sequences.
pub struct RomView {
    /// The address lines, lowest bit first.
    pub address: Seq<NodeIndex>,
    /// The outputs for the addressed row.
    pub output: Seq<NodeIndex>,
}

/// A read-only memory: constant rows, and a tree of multiplexers that
/// passes on the row that the address names.
pub struct Rom {
    pub address: Vec<NodeIndex>,
    pub output: Vec<NodeIndex>,
}

impl View for Rom {
    type V = RomView;

    open spec fn view(&self) -> RomView {
        RomView { address: self.address@, output: self.output@ }
    }
}

/// The rows of `content`, each as a sequence of bits.
pub open spec fn rows_of(content: Seq<Vec<bool>>) -> Seq<Seq<bool>> {
    Seq::new(content.len(), |i: int| content[i]@)
}

/// Whether `rows` can fill a read-only memory: there is a row, and every
/// row is as wide as the first.
pub open spec fn rectangular(rows: Seq<Seq<bool>>) -> bool {
    &&& rows.len() >= 1
    &&& forall|i: int| 0 <= i < rows.len() ==> (#[trigger] rows[i]).len() == rows[0].len()
}

impl Rom {
    /// The number of node indices that a memory of `rows` rows of `width` bits takes, if it can be counted.
    pub fn node_count(width: usize, rows: usize) -> (n: Option<usize>)
        requires
            rows >= 1,
        ensures
            counts(n, Self::size(width as nat, rows as nat) as int),
        decreases rows,
    {
        if rows == 1 {
            Some(width)
        } else {
            let lower = lower_size(rows);
            proof {
                lemma_lower_half(rows as nat);
            }
            let below = Self::node_count(width, lower);
            let above = Self::node_count(width, rows - lower);
            plus(plus(below, above), Mux::node_count(width))
        }
    }

    /// The number of node indices that a memory of `rows` rows of `width`
    /// bits takes.
    pub open spec fn size(width: nat, rows: nat) -> nat
        decreases rows,
    {
        if rows <= 1 {
            width
        } else {
            proof {
                lemma_lower_half(rows);
            }
            let lo = lower_half(rows);
            Self::size(width, lo) + Self::size(width, (rows - lo) as nat) + Mux::size(width)
        }
    }

    /// What building a read-only memory that holds `rows` on the session
    /// `nl` leaves: the session afterwards, and the handles. One row is a
    /// constant word. More rows are split into a lower and an upper part,
    /// each a memory of its own, and a multiplexer of two words that
    /// chooses between their outputs by the highest address line; the
    /// address lines of the upper part are linked to the lowest of the
    /// lower part.
    pub open spec fn plan(rows: Seq<Seq<bool>>, nl: Netlist) -> (Netlist, RomView)
        decreases rows.len(),
    {
        let width = rows[0].len();
        if rows.len() <= 1 {
            (
                ConstantBits::staged(rows[0], width, nl),
                RomView { address: Seq::empty(), output: run_of(nl.next, width) },
            )
        } else {
            proof {
                lemma_lower_half(rows.len());
            }
            let lo = lower_half(rows.len());
            let (n1, lower) = Self::plan(rows.subrange(0, lo as int), nl);
            let (n2, upper) = Self::plan(rows.subrange(lo as int, rows.len() as int), n1);
            let n3 = Mux::staged(n2, width);
            let d = PropogationDelay::standard();
            (
                n3.with_links(lower.address, upper.address, d, upper.address.len()).with_links(
                    Mux::a_of(n2, width),
                    lower.output,
                    d,
                    width,
                ).with_links(Mux::b_of(n2, width), upper.output, d, width),
                RomView {
                    address: lower.address.push(Mux::select_of(n2)),
                    output: Mux::output_of(n2, width),
                },
            )
        }
    }

    /// The session `nl` after the memory was built on it.
    pub open spec fn staged(rows: Seq<Seq<bool>>, nl: Netlist) -> Netlist {
        Self::plan(rows, nl).0
    }

    /// The handles of the memory built on the session `nl`.
    pub open spec fn at(rows: Seq<Seq<bool>>, nl: Netlist) -> RomView {
        Self::plan(rows, nl).1
    }

    /// The shape of a read-only memory: its output is as wide as its rows,
    /// and it has as many address lines as its tree is deep.
    pub proof fn lemma_shape(rows: Seq<Seq<bool>>, nl: Netlist)
        requires
            rectangular(rows),
        ensures
            Self::at(rows, nl).output.len() == rows[0].len(),
            Self::at(rows, nl).address.len() == depth(rows.len()),
            Self::staged(rows, nl).next == nl.next + Self::size(rows[0].len(), rows.len()),
        decreases rows.len(),
    {
        let width = rows[0].len();
        if rows.len() > 1 {
            lemma_lower_half(rows.len());
            lemma_upper_is_shallower(rows.len());
            let lo = lower_half(rows.len());
            let low_rows = rows.subrange(0, lo as int);
            let high_rows = rows.subrange(lo as int, rows.len() as int);
            assert(rectangular(low_rows)) by {
                assert forall|i: int| 0 <= i < low_rows.len() implies (#[trigger] low_rows[i]).len()
                    == low_rows[0].len() by {
                    assert(low_rows[i] == rows[i]);
                    assert(low_rows[0] == rows[0]);
                }
            }
            assert(rectangular(high_rows)) by {
                assert forall|i: int| 0 <= i < high_rows.len() implies (#[trigger] high_rows[i]).len()
                    == high_rows[0].len() by {
                    assert(high_rows[i] == rows[lo + i]);
                    assert(high_rows[0] == rows[lo as int]);
                }
            }
            assert(low_rows[0] == rows[0]);
            assert(high_rows[0] == rows[lo as int]);
            let (n1, lower) = Self::plan(low_rows, nl);
            let (n2, upper) = Self::plan(high_rows, n1);
            Self::lemma_shape(low_rows, nl);
            Self::lemma_shape(high_rows, n1);
            let n3 = Mux::staged(n2, width);
            let d = PropogationDelay::standard();
            Mux::lemma_tied(repeated::<BitMux>(n2, width), n2, (width - 1) as nat);
            lemma_row_next::<BitMux>(n2, width);
            let l1 = n3.with_links(lower.address, upper.address, d, upper.address.len());
            lemma_with_links(n3, lower.address, upper.address, d, upper.address.len());
            let l2 = l1.with_links(Mux::a_of(n2, width), lower.output, d, width);
            lemma_with_links(l1, Mux::a_of(n2, width), lower.output, d, width);
            lemma_with_links(l2, Mux::b_of(n2, width), upper.output, d, width);
        } else {
            ConstantBits::lemma_staged(rows[0], width, nl);
        }
    }

    /// Stages a read-only memory that holds the rows of `content`.
    pub fn new(content: &[Vec<bool>], creator: &mut NodeCreator) -> (rom: Rom)
        requires
            rectangular(rows_of(content@)),
            content@.len() >= 2 ==> content@[0]@.len() >= 1,
            old(creator)@.next + Self::size(content@[0]@.len(), content@.len()) <= usize::MAX,
        ensures
            rom@ == Self::at(rows_of(content@), old(creator)@),
            final(creator)@ == Self::staged(rows_of(content@), old(creator)@),
            final(creator)@.next == old(creator)@.next + Self::size(content@[0]@.len(), content@.len()),
        decreases content@.len(),
    {
        let ghost rows = rows_of(content@);
        proof {
            assert(rows[0] == content@[0]@);
        }
        if content.len() == 1 {
            let word = ConstantBits::new(content[0].as_slice(), creator);
            Rom { address: Vec::new(), output: word.bits }
        } else {
            let lower_size = lower_size(content.len());
            let low = vstd::slice::slice_subrange(content, 0, lower_size);
            let high = vstd::slice::slice_subrange(content, lower_size, content.len());
            let ghost low_rows = rows.subrange(0, lower_size as int);
            let ghost high_rows = rows.subrange(lower_size as int, rows.len() as int);
            proof {
                lemma_lower_half(content@.len());
                lemma_upper_is_shallower(content@.len());
                assert(rows_of(low@) =~= low_rows);
                assert(rows_of(high@) =~= high_rows);
                assert(low_rows[0] == rows[0]);
                assert(high_rows[0] == rows[lower_size as int]);
                assert forall|i: int| 0 <= i < low_rows.len() implies (#[trigger] low_rows[i]).len()
                    == low_rows[0].len() by {
                    assert(low_rows[i] == rows[i]);
                }
                assert forall|i: int| 0 <= i < high_rows.len() implies (#[trigger] high_rows[i]).len()
                    == high_rows[0].len() by {
                    assert(high_rows[i] == rows[lower_size + i]);
                }
                assert(low@[0]@ == low_rows[0]);
                assert(high@[0]@ == high_rows[0]);
                Self::lemma_shape(low_rows, old(creator)@);
            }
            let lower = Rom::new(low, creator);
            let ghost n1 = creator@;
            proof {
                Self::lemma_shape(high_rows, n1);
            }
            let upper = Rom::new(high, creator);
            let ghost n2 = creator@;

            let mux = Mux::new(content[0].len(), creator);
            let ghost n3 = creator@;
            let shared = vstd::slice::slice_subrange(lower.address.as_slice(), 0, upper.address.len());
            creator.multilink(shared, upper.address.as_slice(), PropogationDelay::standard());
            let ghost l1 = creator@;
            creator.multilink(mux.a.as_slice(), lower.output.as_slice(), PropogationDelay::standard());
            let ghost l2 = creator@;
            creator.multilink(mux.b.as_slice(), upper.output.as_slice(), PropogationDelay::standard());
            proof {
                let d = PropogationDelay::standard();
                lemma_with_links_prefix(
                    n3,
                    shared@,
                    upper.address@,
                    lower.address@,
                    upper.address@,
                    d,
                    upper.address@.len(),
                );
                lemma_with_links(n3, lower.address@, upper.address@, d, upper.address@.len());
                lemma_with_links(l1, mux.a@, lower.output@, d, mux.a@.len());
                lemma_with_links(l2, mux.b@, upper.output@, d, mux.b@.len());
            }

            let mut address = lower.address;
            address.push(mux.select);
            Rom { address, output: mux.output }
        }
    }
}

} // verus!
