//! The helpers that the circuits are built with, and the shape of what the
//! larger circuits stage.

use gatesim::adder::{Adder, HalfAdder, RippleCarryAdder};
use gatesim::collection::NodeCollection;
use gatesim::cpu0::alu::Alu;
use gatesim::cpu0::params::Params;
use gatesim::cpu0::register_bank::RegisterBank;
use gatesim::creator::NodeCreator;
use gatesim::demux::{BitDemux, Demux, DemuxN};
use gatesim::element::Primitive;
use gatesim::logic_gates::{
    AndGate, AndGateVec, NWayAnd, NandGate, NotGate, OrGate, XorGate, XorGateVec,
};
use gatesim::mux::{BitMux, Mux, MuxN};
use gatesim::nand::NandElem;
use gatesim::part::{new_nodes, plus, replicate, row_node_count, Part};
use gatesim::pin::Pin;
use gatesim::rom::Rom;
use gatesim::sim::{LineState, NodeIndex, PropogationDelay, STANDARD_DELAY};
use gatesim::split::lower_size;
use gatesim::storage::{DFlipFlop, NotSRLatch, Register};
use gatesim::word::{test_bit, with_bit};

fn settle(c: &mut NodeCollection) {
    let mut turns = 0;
    while c.play() {
        turns += 1;
        assert!(turns < 1_000_000, "the circuit does not settle");
    }
}

#[test]
fn the_lower_part_is_the_largest_power_of_two_below_the_whole() {
    let expected = [(2, 1), (3, 2), (4, 2), (5, 4), (7, 4), (8, 4), (9, 8), (16, 8), (17, 16)];
    for (n, lower) in expected.iter() {
        assert_eq!(lower_size(*n), *lower, "lower_size({})", n);
    }
    assert_eq!(lower_size(usize::MAX), 1 << (usize::BITS - 1));
}

#[test]
fn bits_are_tested_and_set_by_position() {
    assert!(test_bit(0b1010, 1));
    assert!(!test_bit(0b1010, 0));
    assert!(test_bit(u64::MAX, 63));
    assert!(!test_bit(u64::MAX >> 1, 63));
    assert_eq!(with_bit(0, 0), 1);
    assert_eq!(with_bit(0b0101, 3), 0b1101);
    assert_eq!(with_bit(u64::MAX >> 1, 63), u64::MAX);
}

#[test]
fn new_nodes_are_issued_in_a_row() {
    let c = NodeCollection::new();
    let mut creator = NodeCreator::new(&c);
    creator.new_node();
    assert_eq!(new_nodes(&mut creator, 3), vec![NodeIndex(1), NodeIndex(2), NodeIndex(3)]);
    assert_eq!(new_nodes(&mut creator, 0), Vec::<NodeIndex>::new());
    assert_eq!(creator.next_index(), 4);
}

#[test]
fn a_row_of_parts_is_built_one_after_the_other() {
    let c = NodeCollection::new();
    let mut creator = NodeCreator::new(&c);
    let row: Vec<NandGate> = replicate(&mut creator, 3);
    assert_eq!(row.len(), 3);
    for (i, gate) in row.iter().enumerate() {
        assert_eq!(gate.a, NodeIndex(3 * i));
        assert_eq!(gate.b, NodeIndex(3 * i + 1));
        assert_eq!(gate.output, NodeIndex(3 * i + 2));
    }
    assert_eq!(creator.element_count(), 3);
    assert_eq!(
        creator.element(2),
        Primitive::Nand(NandElem { a: NodeIndex(6), b: NodeIndex(7), output: NodeIndex(8) })
    );
    assert_eq!(creator.link_count(), 0);
    let none: Vec<NandGate> = replicate(&mut creator, 0);
    assert!(none.is_empty());
    assert_eq!(creator.next_index(), 9);
}

#[test]
fn building_a_part_is_calling_its_constructor() {
    let c = NodeCollection::new();
    let mut one = NodeCreator::new(&c);
    let mut other = NodeCreator::new(&c);
    assert_eq!(<XorGate as Part>::build(&mut one), XorGate::new(&mut other));
    assert_eq!(one.into_parts(), other.into_parts());
}

#[test]
fn an_and_gate_is_a_nand_and_an_inverter() {
    let c = NodeCollection::new();
    let mut creator = NodeCreator::new(&c);
    creator.new_node();
    let gate = AndGate::new(&mut creator);
    assert_eq!(gate, AndGate { a: NodeIndex(1), b: NodeIndex(2), output: NodeIndex(6) });
    let (next, elements, links) = creator.into_parts();
    assert_eq!(next, 7);
    assert_eq!(
        elements,
        vec![
            Primitive::Nand(NandElem { a: NodeIndex(1), b: NodeIndex(2), output: NodeIndex(3) }),
            Primitive::Nand(NandElem { a: NodeIndex(4), b: NodeIndex(5), output: NodeIndex(6) }),
        ]
    );
    let d = PropogationDelay(STANDARD_DELAY);
    assert_eq!(links, vec![(NodeIndex(3), NodeIndex(4), d), (NodeIndex(3), NodeIndex(5), d)]);
}

#[test]
fn the_fixed_parts_take_the_nodes_they_say() {
    let sizes: Vec<(usize, fn(&mut NodeCreator))> = vec![
        (3, |c| {
            NandGate::new(c);
        }),
        (3, |c| {
            NotGate::new(c);
        }),
        (6, |c| {
            AndGate::new(c);
        }),
        (9, |c| {
            OrGate::new(c);
        }),
        (12, |c| {
            XorGate::new(c);
        }),
        (45, |c| {
            Adder::new(c);
        }),
        (6, |c| {
            NotSRLatch::new(c);
        }),
        (24, |c| {
            DFlipFlop::new(c);
        }),
        (1, |c| {
            Pin::new(c);
        }),
    ];
    let collection = NodeCollection::new();
    for (size, build) in sizes.iter() {
        let mut creator = NodeCreator::new(&collection);
        build(&mut creator);
        assert_eq!(creator.next_index(), *size);
    }
}

#[test]
fn a_not_gate_ties_the_inputs_of_a_nand() {
    let c = NodeCollection::new();
    let mut creator = NodeCreator::new(&c);
    let gate = NotGate::new(&mut creator);
    assert_eq!(gate, NotGate { input: NodeIndex(0), output: NodeIndex(2) });
    let (_, _, links) = creator.into_parts();
    assert_eq!(links, vec![(NodeIndex(0), NodeIndex(1), PropogationDelay(100))]);
}

#[test]
fn a_flip_flop_takes_its_data_on_the_rising_clock() {
    let mut c = NodeCollection::new();
    let mut creator = NodeCreator::new(&c);
    let ff = DFlipFlop::new(&mut creator);
    let clock = Pin::new(&mut creator);
    let data = Pin::new(&mut creator);
    creator.link(clock.node, ff.clock, PropogationDelay(STANDARD_DELAY));
    creator.link(data.node, ff.data, PropogationDelay(STANDARD_DELAY));
    c.absorb(creator).unwrap();

    data.node.write(LineState::High, &mut c);
    clock.node.write(LineState::Low, &mut c);
    clock.node.write_later(LineState::High, PropogationDelay(1000), &mut c);
    clock.node.write_later(LineState::Low, PropogationDelay(2000), &mut c);
    settle(&mut c);
    assert_eq!(ff.q.read(&c), LineState::High);
    assert_eq!(ff.not_q.read(&c), LineState::Low);

    // the data changes while the clock rests: the flip-flop keeps its bit
    data.node.write(LineState::Low, &mut c);
    settle(&mut c);
    assert_eq!(ff.q.read(&c), LineState::High);

    clock.node.write(LineState::High, &mut c);
    settle(&mut c);
    clock.node.write(LineState::Low, &mut c);
    settle(&mut c);
    assert_eq!(ff.q.read(&c), LineState::Low);
    assert_eq!(ff.not_q.read(&c), LineState::High);
}

#[test]
fn a_register_ties_the_clocks_of_its_bits() {
    let c = NodeCollection::new();
    let mut creator = NodeCreator::new(&c);
    let r = Register::new(&mut creator, 3);
    assert_eq!(r.bits.len(), 3);
    assert_eq!(r.clock, r.bits[0].clock);
    assert_eq!(r.inputs(), vec![r.bits[0].data, r.bits[1].data, r.bits[2].data]);
    assert_eq!(r.outputs(), vec![r.bits[0].q, r.bits[1].q, r.bits[2].q]);
    assert_eq!(creator.next_index(), 72);
    let count = creator.link_count();
    assert_eq!(creator.link_at(count - 2), (r.clock, r.bits[1].clock, PropogationDelay(100)));
    assert_eq!(creator.link_at(count - 1), (r.clock, r.bits[2].clock, PropogationDelay(100)));
}

#[test]
fn a_demux_onto_one_word_gates_it_by_enable() {
    let mut c = NodeCollection::new();
    let mut creator = NodeCreator::new(&c);
    let demux = DemuxN::new(2, 1, &mut creator);
    assert!(demux.select.is_empty());
    assert_eq!(demux.outputs.len(), 1);
    let enable = Pin::new(&mut creator);
    let low = Pin::new(&mut creator);
    let high = Pin::new(&mut creator);
    creator.link(enable.node, demux.enable, PropogationDelay(STANDARD_DELAY));
    creator.link(low.node, demux.input[0], PropogationDelay(STANDARD_DELAY));
    creator.link(high.node, demux.input[1], PropogationDelay(STANDARD_DELAY));
    c.absorb(creator).unwrap();
    low.node.write(LineState::Low, &mut c);
    high.node.write(LineState::High, &mut c);
    enable.node.write(LineState::High, &mut c);
    settle(&mut c);
    assert_eq!(demux.outputs[0][0].read(&c), LineState::Low);
    assert_eq!(demux.outputs[0][1].read(&c), LineState::High);
    enable.node.write(LineState::Low, &mut c);
    settle(&mut c);
    assert_eq!(demux.outputs[0][1].read(&c), LineState::Low);
}

#[test]
fn a_register_bank_has_a_select_line_for_each_doubling() {
    let c = NodeCollection::new();
    let mut creator = NodeCreator::new(&c);
    let params = Params { word_bits: 2, log_register_count: 2 };
    let bank = RegisterBank::new(&params, &mut creator);
    assert_eq!(bank.input.len(), 2);
    assert_eq!(bank.output.len(), 2);
    assert_eq!(bank.read_selector.len(), 2);
    assert_eq!(bank.write_selector.len(), 2);
    // the inputs are those of the first register
    assert_eq!(bank.input, vec![NodeIndex(10), NodeIndex(34)]);
    // four registers; a multiplexer of four words: the words and three
    // multiplexers of two words; a demultiplexer of one bit onto four
    // words: four AND gates, and three times two AND gates and a NOT gate
    let registers = 4 * 2 * 24;
    let mux = 4 * 2 + 3 * 2 * 24;
    let demux = 4 * 6 + 3 * 15;
    assert_eq!(creator.next_index(), registers + mux + demux);
    let mut can = NodeCollection::new();
    assert!(can.can_absorb(&creator));
    assert_eq!(can.absorb(creator), Ok(()));
    assert_eq!(can.node_count(), registers + mux + demux);
}

#[test]
fn the_limits_of_a_session_are_found_before_it_is_absorbed() {
    let c = NodeCollection::new();
    let mut creator = NodeCreator::new(&c);
    Pin::new(&mut creator);
    assert!(c.can_absorb(&creator));
    creator.link(NodeIndex(0), NodeIndex(usize::MAX), PropogationDelay(1));
    assert!(!c.can_absorb(&creator));

    let mut creator = NodeCreator::new(&c);
    creator.add_element(Primitive::Nand(NandElem {
        a: NodeIndex(0),
        b: NodeIndex(1),
        output: NodeIndex(usize::MAX),
    }));
    assert!(!c.can_absorb(&creator));
}

#[test]
fn a_node_can_be_written_once_it_exists() {
    let mut c = NodeCollection::new();
    let mut creator = NodeCreator::new(&c);
    let pin = Pin::new(&mut creator);
    assert!(!c.can_write(pin.node, LineState::High));
    assert!(!c.can_write_later(pin.node, LineState::High, PropogationDelay(1)));
    c.absorb(creator).unwrap();
    assert!(c.can_write(pin.node, LineState::High));
    assert!(c.can_write(pin.node, LineState::Floating));
    assert!(c.can_write_later(pin.node, LineState::High, PropogationDelay(u32::MAX)));
    assert!(!c.can_write(NodeIndex(1), LineState::High));
}

#[test]
fn the_parts_count_the_nodes_they_take() {
    assert_eq!(NandGate::node_count(), 3);
    assert_eq!(NotGate::node_count(), 3);
    assert_eq!(AndGate::node_count(), 6);
    assert_eq!(OrGate::node_count(), 9);
    assert_eq!(XorGate::node_count(), 12);
    assert_eq!(HalfAdder::node_count(), 18);
    assert_eq!(Adder::node_count(), 45);
    assert_eq!(NotSRLatch::node_count(), 6);
    assert_eq!(DFlipFlop::node_count(), 24);
    assert_eq!(BitMux::node_count(), 24);
    assert_eq!(BitDemux::node_count(), 27);
    assert_eq!(Pin::node_count(), 1);
    assert_eq!(row_node_count::<Adder>(4), Some(180));
    assert_eq!(row_node_count::<Adder>(usize::MAX), None);
    assert_eq!(plus(Some(3), Some(4)), Some(7));
    assert_eq!(plus(Some(usize::MAX), Some(1)), None);
    assert_eq!(plus(None, Some(1)), None);
}

#[test]
fn the_circuits_count_the_nodes_they_take() {
    let built: Vec<(Option<usize>, fn(&mut NodeCreator))> = vec![
        (AndGateVec::node_count(3), |c| {
            AndGateVec::new(3, c);
        }),
        (XorGateVec::node_count(2), |c| {
            XorGateVec::new(2, c);
        }),
        (NWayAnd::node_count(5), |c| {
            NWayAnd::new(c, 5);
        }),
        (NWayAnd::node_count_logtime(5), |c| {
            NWayAnd::new_logtime(c, 5);
        }),
        (RippleCarryAdder::node_count(4), |c| {
            RippleCarryAdder::new(c, 4);
        }),
        (Mux::node_count(3), |c| {
            Mux::new(3, c);
        }),
        (MuxN::node_count(4, 5), |c| {
            MuxN::new(4, 5, c);
        }),
        (Demux::node_count(3), |c| {
            Demux::new(3, c);
        }),
        (DemuxN::node_count(4, 3), |c| {
            DemuxN::new(4, 3, c);
        }),
        (Register::node_count(8), |c| {
            Register::new(c, 8);
        }),
        (Rom::node_count(8, 3), |c| {
            Rom::new(&[vec![true; 8], vec![false; 8], vec![true; 8]], c);
        }),
        (Alu::node_count(4), |c| {
            Alu::new(&Params { word_bits: 4, log_register_count: 0 }, c);
        }),
        (RegisterBank::node_count(2, 4), |c| {
            RegisterBank::new(&Params { word_bits: 2, log_register_count: 2 }, c);
        }),
    ];
    let collection = NodeCollection::new();
    for (count, build) in built.iter() {
        let mut creator = NodeCreator::new(&collection);
        assert!(creator.has_room(*count));
        build(&mut creator);
        assert_eq!(Some(creator.next_index()), *count);
    }
    assert_eq!(Register::node_count(usize::MAX), None);
    assert_eq!(MuxN::node_count(usize::MAX, 3), None);
    let mut creator = NodeCreator::new(&collection);
    creator.new_node();
    assert!(creator.has_room(Some(usize::MAX - 1)));
    assert!(!creator.has_room(Some(usize::MAX)));
    assert!(!creator.has_room(None));
}

#[test]
fn a_bank_counts_its_registers() {
    assert_eq!(RegisterBank::register_count(0), Some(1));
    assert_eq!(RegisterBank::register_count(1), Some(2));
    assert_eq!(RegisterBank::register_count(5), Some(32));
    assert_eq!(RegisterBank::register_count(usize::BITS as usize - 1), Some(1 << (usize::BITS - 1)));
    assert_eq!(RegisterBank::register_count(usize::BITS as usize), None);
    assert_eq!(RegisterBank::register_count(usize::MAX), None);
}
