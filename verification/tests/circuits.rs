//! Truth tables of the circuits of the library.

use gatesim::adder::{Adder, HalfAdder, RippleCarryAdder};
use gatesim::collection::NodeCollection;
use gatesim::cpu0::alu::Alu;
use gatesim::cpu0::params::Params;
use gatesim::creator::NodeCreator;
use gatesim::demux::{BitDemux, Demux, DemuxN};
use gatesim::logic_gates::{
    AndGate, AndGateVec, NWayAnd, NandGate, NotGate, OrGate, XorGate, XorGateVec,
};
use gatesim::mux::{BitMux, Mux, MuxN};
use gatesim::pin::Pin;
use gatesim::rom::{ConstantBits, Rom};
use gatesim::sim::{LineState, NodeIndex, PropogationDelay, STANDARD_DELAY};

fn check_truth_table<F>(f: F, cases: &[(&[u8], &[u8])])
where
    F: FnOnce(&mut NodeCreator) -> (Vec<NodeIndex>, Vec<NodeIndex>),
{
    let mut c = NodeCollection::new();
    let mut creator = NodeCreator::new(&c);

    let (inputs, outputs) = f(&mut creator);
    let input_pins: Vec<Pin> = inputs
        .iter()
        .map(|input| {
            let p = Pin::new(&mut creator);
            creator.link(*input, p.node, PropogationDelay(STANDARD_DELAY));
            p
        })
        .collect();

    c.absorb(creator).unwrap();
    c.power_on();

    for (case_number, &(input_values, output_values)) in cases.iter().enumerate() {
        assert!(input_values.len() == input_pins.len());
        assert!(output_values.len() == outputs.len());
        for (input_pin, input_value) in input_pins.iter().zip(input_values.iter()) {
            assert!(*input_value == 0 || *input_value == 1);
            input_pin.node.write(
                if *input_value == 1 { LineState::High } else { LineState::Low },
                &mut c,
            );
        }

        loop {
            let more = c.play();
            if !more {
                break;
            }
        }

        let actual: Vec<u8> = outputs
            .iter()
            .map(|output_node| match output_node.read(&c) {
                LineState::Low => 0,
                LineState::High => 1,
                _ => 2,
            })
            .collect();

        let expected = output_values.to_vec();
        assert!(
            actual == expected,
            "Case #{}. For inputs {:?}, expected and actual:\n{:?}\n{:?}",
            case_number + 1,
            input_values.to_vec(),
            expected,
            actual
        );
    }
}

#[test]
fn test_half_adder() {
    check_truth_table(
        |creator: &mut NodeCreator| {
            let h = HalfAdder::new(creator);

            ([h.a, h.b].to_vec(), [h.sum, h.carry].to_vec())
        },
        &[
            (&[0, 0], &[0, 0]),
            (&[1, 0], &[1, 0]),
            (&[0, 1], &[1, 0]),
            (&[1, 1], &[0, 1]),
        ],
    );
}

#[test]
fn test_add() {
    check_truth_table(
        |creator: &mut NodeCreator| {
            let h = Adder::new(creator);

            ([h.a, h.b, h.carry_in].to_vec(), [h.sum, h.carry_out].to_vec())
        },
        &[
            (&[0, 0, 0], &[0, 0]),
            (&[1, 0, 0], &[1, 0]),
            (&[0, 1, 0], &[1, 0]),
            (&[1, 1, 0], &[0, 1]),
            (&[0, 0, 1], &[1, 0]),
            (&[1, 0, 1], &[0, 1]),
            (&[0, 1, 1], &[0, 1]),
            (&[1, 1, 1], &[1, 1]),
        ],
    );
}

#[test]
fn test_4_bit_add() {
    check_truth_table(
        |creator: &mut NodeCreator| {
            let h = RippleCarryAdder::new(creator, 4);

            let mut inputs = Vec::new();
            inputs.push(h.carry_in);
            inputs.append(&mut h.a.clone());
            inputs.append(&mut h.b.clone());

            let mut outputs = h.sum.clone();
            outputs.push(h.carry_out);

            (inputs, outputs)
        },
        &[
            (&[0, 0, 0, 0, 0, 0, 0, 0, 0], &[0, 0, 0, 0, 0]),
            (&[0, 1, 0, 0, 0, 0, 0, 0, 0], &[1, 0, 0, 0, 0]),
            (&[0, 1, 1, 1, 0, 1, 0, 0, 0], &[0, 0, 0, 1, 0]),
            (&[0, 1, 1, 1, 1, 1, 1, 1, 1], &[0, 1, 1, 1, 1]),
            (&[1, 1, 1, 1, 1, 1, 1, 1, 1], &[1, 1, 1, 1, 1]),
        ],
    );
}

#[test]
fn alu_ops() {
    check_truth_table(
        |creator: &mut NodeCreator| {
            let params = Params { word_bits: 4, log_register_count: 8 };
            let alu = Alu::new(&params, creator);

            let mut inputs = Vec::new();
            inputs.append(&mut alu.mode.clone());
            inputs.append(&mut alu.a.clone());
            inputs.append(&mut alu.b.clone());

            (inputs, alu.output.clone())
        },
        &[
            (&[0, 0, 0, 1, 1, 1, 1, 0, 0, 1, 0], &[0, 0, 0, 0]), // zero
            (&[1, 0, 0, 1, 1, 1, 0, 0, 0, 1, 0], &[1, 1, 1, 0]), // identity
            (&[0, 1, 0, 1, 0, 1, 1, 0, 0, 1, 0], &[0, 1, 1, 1]), // increment
            (&[1, 1, 0, 1, 0, 1, 1, 0, 0, 1, 0], &[0, 0, 1, 1]), // decrement
            (&[0, 0, 1, 1, 0, 1, 0, 0, 0, 1, 0], &[1, 0, 0, 1]), // add
            (&[1, 0, 1, 1, 0, 1, 0, 0, 0, 1, 0], &[1, 0, 0, 0]), // subtract
            (&[0, 1, 1, 1, 0, 1, 0, 0, 0, 1, 0], &[0, 0, 1, 0]), // and
        ],
    );
}

#[test]
fn test_bit_demux() {
    check_truth_table(
        |creator: &mut NodeCreator| {
            let demux = BitDemux::new(creator);

            (
                [demux.enable, demux.select, demux.input].to_vec(),
                [demux.output_a, demux.output_b].to_vec(),
            )
        },
        &[
            (&[1, 0, 1], &[1, 0]),
            (&[1, 0, 0], &[0, 0]),
            (&[0, 0, 1], &[0, 0]),
            (&[0, 1, 1], &[0, 0]),
            (&[1, 1, 1], &[0, 1]),
        ],
    );
}

#[test]
fn test_word_demux() {
    check_truth_table(
        |creator: &mut NodeCreator| {
            let demux = Demux::new(4, creator);

            let mut all_outputs = Vec::new();
            all_outputs.append(&mut demux.output_a.clone());
            all_outputs.append(&mut demux.output_b.clone());

            let mut all_inputs = Vec::new();
            all_inputs.push(demux.enable);
            all_inputs.push(demux.select);
            all_inputs.append(&mut demux.input.clone());

            (all_inputs, all_outputs)
        },
        &[
            (&[1, 0, 1, 0, 0, 1], &[1, 0, 0, 1, 0, 0, 0, 0]),
            (&[1, 1, 1, 0, 0, 1], &[0, 0, 0, 0, 1, 0, 0, 1]),
            (&[0, 1, 1, 0, 0, 1], &[0, 0, 0, 0, 0, 0, 0, 0]),
        ],
    );
}

#[test]
fn test_demuxn() {
    check_truth_table(
        |creator: &mut NodeCreator| {
            let demux = DemuxN::new(4, 3, creator);

            let mut all_outputs = Vec::new();
            for output in demux.outputs.iter() {
                all_outputs.append(&mut output.clone());
            }

            let mut all_inputs = Vec::new();
            all_inputs.push(demux.enable);
            all_inputs.append(&mut demux.select.clone());
            all_inputs.append(&mut demux.input.clone());

            (all_inputs, all_outputs)
        },
        &[
            (&[1, 0, 0, 1, 0, 0, 1], &[1, 0, 0, 1, 0, 0, 0, 0, 0, 0, 0, 0]),
            (&[1, 0, 1, 1, 0, 0, 1], &[0, 0, 0, 0, 0, 0, 0, 0, 1, 0, 0, 1]),
            (&[0, 0, 1, 1, 0, 0, 1], &[0, 0, 0, 0, 0, 0, 0, 0, 0, 0, 0, 0]),
        ],
    );
}

#[test]
fn test_muxn() {
    check_truth_table(
        |creator: &mut NodeCreator| {
            let mux = MuxN::new(4, 3, creator);

            let mut all_inputs = Vec::new();
            all_inputs.append(&mut mux.select.clone());
            for input in mux.inputs.iter() {
                all_inputs.append(&mut input.clone());
            }

            (all_inputs, mux.output.clone())
        },
        &[
            (&[0, 0, 1, 1, 1, 1, 1, 0, 0, 0, 0, 1, 0, 1], &[1, 1, 1, 1]),
            (&[1, 0, 1, 1, 1, 1, 1, 0, 0, 0, 0, 1, 0, 1], &[1, 0, 0, 0]),
            (&[0, 1, 1, 1, 1, 1, 1, 0, 0, 0, 0, 1, 0, 1], &[0, 1, 0, 1]),
        ],
    );
}

#[test]
fn test_rom() {
    check_truth_table(
        |creator: &mut NodeCreator| {
            let rom = Rom::new(
                &[
                    ConstantBits::make_bits(5, 8),
                    ConstantBits::make_bits(128, 8),
                    ConstantBits::make_bits(255, 8),
                ],
                creator,
            );

            (rom.address.clone(), rom.output.clone())
        },
        &[
            (&[0, 0], &[1, 0, 1, 0, 0, 0, 0, 0]),
            (&[1, 0], &[0, 0, 0, 0, 0, 0, 0, 1]),
            (&[0, 1], &[1, 1, 1, 1, 1, 1, 1, 1]),
        ],
    );
}

#[test]
fn nand_gate_truth_table() {
    check_truth_table(
        |creator: &mut NodeCreator| {
            let g = NandGate::new(creator);
            (vec![g.a, g.b], vec![g.output])
        },
        &[(&[0, 0], &[1]), (&[1, 0], &[1]), (&[0, 1], &[1]), (&[1, 1], &[0])],
    );
}

#[test]
fn not_gate_truth_table() {
    check_truth_table(
        |creator: &mut NodeCreator| {
            let g = NotGate::new(creator);
            (vec![g.input], vec![g.output])
        },
        &[(&[0], &[1]), (&[1], &[0]), (&[0], &[1])],
    );
}

#[test]
fn and_gate_truth_table() {
    check_truth_table(
        |creator: &mut NodeCreator| {
            let g = AndGate::new(creator);
            (vec![g.a, g.b], vec![g.output])
        },
        &[(&[0, 0], &[0]), (&[1, 0], &[0]), (&[0, 1], &[0]), (&[1, 1], &[1])],
    );
}

#[test]
fn or_gate_truth_table() {
    check_truth_table(
        |creator: &mut NodeCreator| {
            let g = OrGate::new(creator);
            (vec![g.a, g.b], vec![g.output])
        },
        &[(&[0, 0], &[0]), (&[1, 0], &[1]), (&[0, 1], &[1]), (&[1, 1], &[1])],
    );
}

#[test]
fn xor_gate_truth_table() {
    check_truth_table(
        |creator: &mut NodeCreator| {
            let g = XorGate::new(creator);
            (vec![g.a, g.b], vec![g.output])
        },
        &[(&[0, 0], &[0]), (&[1, 0], &[1]), (&[0, 1], &[1]), (&[1, 1], &[0])],
    );
}

#[test]
fn gate_rows_work_bit_by_bit() {
    check_truth_table(
        |creator: &mut NodeCreator| {
            let ands = AndGateVec::new(2, creator);
            let xors = XorGateVec::new(2, creator);
            assert_eq!(ands.a.len(), 2);
            assert_eq!(xors.output.len(), 2);
            let mut inputs = ands.a.clone();
            inputs.append(&mut ands.b.clone());
            inputs.append(&mut xors.a.clone());
            inputs.append(&mut xors.b.clone());
            let mut outputs = ands.output.clone();
            outputs.append(&mut xors.output.clone());
            (inputs, outputs)
        },
        &[
            (&[1, 0, 1, 1, 1, 0, 1, 1], &[1, 0, 0, 1]),
            (&[1, 1, 0, 1, 0, 0, 0, 1], &[0, 1, 0, 1]),
        ],
    );
}

#[test]
fn n_way_and_chain_truth_table() {
    check_truth_table(
        |creator: &mut NodeCreator| {
            let g = NWayAnd::new(creator, 4);
            assert_eq!(g.inputs.len(), 4);
            (g.inputs.clone(), vec![g.output])
        },
        &[
            (&[1, 1, 1, 1], &[1]),
            (&[1, 1, 0, 1], &[0]),
            (&[0, 1, 1, 1], &[0]),
            (&[1, 1, 1, 0], &[0]),
            (&[1, 1, 1, 1], &[1]),
        ],
    );
}

#[test]
fn n_way_and_of_two_is_one_gate() {
    let c = NodeCollection::new();
    let mut creator = NodeCreator::new(&c);
    let g = NWayAnd::new(&mut creator, 2);
    assert_eq!(g.inputs, vec![NodeIndex(0), NodeIndex(1)]);
    assert_eq!(g.output, NodeIndex(5));
    assert_eq!(creator.next_index(), 6);
}

#[test]
fn n_way_and_tree_truth_table() {
    check_truth_table(
        |creator: &mut NodeCreator| {
            let g = NWayAnd::new_logtime(creator, 5);
            assert_eq!(g.inputs.len(), 5);
            (g.inputs.clone(), vec![g.output])
        },
        &[
            (&[1, 1, 1, 1, 1], &[1]),
            (&[1, 1, 0, 1, 1], &[0]),
            (&[1, 1, 1, 1, 0], &[0]),
            (&[1, 1, 1, 1, 1], &[1]),
        ],
    );
}

#[test]
fn n_way_and_tree_of_two_is_one_gate_behind_two_new_nodes() {
    let c = NodeCollection::new();
    let mut creator = NodeCreator::new(&c);
    let g = NWayAnd::new_logtime(&mut creator, 2);
    assert_eq!(g.inputs, vec![NodeIndex(0), NodeIndex(1)]);
    // the AND gate takes the nodes 2 to 7; its output is the last
    assert_eq!(g.output, NodeIndex(7));
    assert_eq!(creator.next_index(), 8);
    let (_, elements, links) = creator.into_parts();
    assert_eq!(elements.len(), 2);
    assert_eq!(links.len(), 4);
    // the inputs are linked on without delay
    assert!(links.contains(&(NodeIndex(0), NodeIndex(2), PropogationDelay(0))));
    assert!(links.contains(&(NodeIndex(1), NodeIndex(3), PropogationDelay(0))));
}

#[test]
fn n_way_and_tree_of_three_keeps_the_odd_one_for_the_next_round() {
    check_truth_table(
        |creator: &mut NodeCreator| {
            let g = NWayAnd::new_logtime(creator, 3);
            (g.inputs.clone(), vec![g.output])
        },
        &[
            (&[1, 1, 1], &[1]),
            (&[1, 1, 0], &[0]),
            (&[0, 1, 1], &[0]),
            (&[1, 0, 1], &[0]),
            (&[1, 1, 1], &[1]),
        ],
    );
}

#[test]
fn the_ripple_carry_adder_adds_14_and_15() {
    check_truth_table(
        |creator: &mut NodeCreator| {
            let h = RippleCarryAdder::new(creator, 4);
            let mut inputs = vec![h.carry_in];
            inputs.append(&mut h.a.clone());
            inputs.append(&mut h.b.clone());
            let mut outputs = h.sum.clone();
            outputs.push(h.carry_out);
            (inputs, outputs)
        },
        // lowest bit first: 14 is 0111, 15 is 1111; 29 is 1011 and a carry
        &[(&[0, 0, 1, 1, 1, 1, 1, 1, 1], &[1, 0, 1, 1, 1])],
    );
}

#[test]
fn the_full_adder_counts_its_inputs_from_any_state() {
    // each of the eight combinations, reached from each of the others
    for from in 0u8..8 {
        for to in 0u8..8 {
            let bits = |v: u8| [v & 1, (v >> 1) & 1, (v >> 2) & 1];
            let total = |v: u8| (v & 1) + ((v >> 1) & 1) + ((v >> 2) & 1);
            let first = bits(from);
            let second = bits(to);
            let first_out = [total(from) & 1, total(from) >> 1];
            let second_out = [total(to) & 1, total(to) >> 1];
            check_truth_table(
                |creator: &mut NodeCreator| {
                    let h = Adder::new(creator);
                    (vec![h.a, h.b, h.carry_in], vec![h.sum, h.carry_out])
                },
                &[(&first, &first_out), (&second, &second_out)],
            );
        }
    }
}

#[test]
fn the_mux_of_many_words_passes_on_the_word_that_select_names() {
    for word_count in 1usize..=5 {
        let select_lines = [0usize, 0, 1, 2, 2, 3][word_count];
        for chosen in 0..word_count {
            // word w holds the two lowest bits of w + 1
            let mut inputs: Vec<u8> = (0..select_lines).map(|i| ((chosen >> i) & 1) as u8).collect();
            for w in 0..word_count {
                inputs.push(((w + 1) & 1) as u8);
                inputs.push((((w + 1) >> 1) & 1) as u8);
            }
            let expected = [((chosen + 1) & 1) as u8, (((chosen + 1) >> 1) & 1) as u8];
            check_truth_table(
                |creator: &mut NodeCreator| {
                    let mux = MuxN::new(2, word_count, creator);
                    assert_eq!(mux.select.len(), select_lines);
                    let mut all = mux.select.clone();
                    for input in mux.inputs.iter() {
                        all.append(&mut input.clone());
                    }
                    (all, mux.output.clone())
                },
                &[(&inputs, &expected)],
            );
        }
    }
}

#[test]
fn bit_mux_truth_table() {
    check_truth_table(
        |creator: &mut NodeCreator| {
            let m = BitMux::new(creator);
            (vec![m.select, m.a, m.b], vec![m.output])
        },
        &[
            (&[0, 1, 0], &[1]),
            (&[1, 1, 0], &[0]),
            (&[1, 0, 1], &[1]),
            (&[0, 0, 1], &[0]),
        ],
    );
}

#[test]
fn word_mux_truth_table() {
    check_truth_table(
        |creator: &mut NodeCreator| {
            let m = Mux::new(3, creator);
            let mut inputs = vec![m.select];
            inputs.append(&mut m.a.clone());
            inputs.append(&mut m.b.clone());
            (inputs, m.output.clone())
        },
        &[
            (&[0, 1, 0, 1, 0, 1, 1], &[1, 0, 1]),
            (&[1, 1, 0, 1, 0, 1, 1], &[0, 1, 1]),
        ],
    );
}

#[test]
fn mux_of_one_word_passes_it_on() {
    let c = NodeCollection::new();
    let mut creator = NodeCreator::new(&c);
    let m = MuxN::new(3, 1, &mut creator);
    assert_eq!(m.inputs, vec![vec![NodeIndex(0), NodeIndex(1), NodeIndex(2)]]);
    assert_eq!(m.output, vec![NodeIndex(0), NodeIndex(1), NodeIndex(2)]);
    assert!(m.select.is_empty());
    assert_eq!(creator.next_index(), 3);
}

#[test]
fn mux_of_five_words_has_three_select_lines() {
    let c = NodeCollection::new();
    let mut creator = NodeCreator::new(&c);
    let m = MuxN::new(2, 5, &mut creator);
    assert_eq!(m.inputs.len(), 5);
    assert_eq!(m.select.len(), 3);
    assert_eq!(m.output.len(), 2);
    // five words of new nodes, and four multiplexers of two words
    assert_eq!(creator.next_index(), 5 * 2 + 4 * 2 * 24);
}

#[test]
fn rom_of_one_row_is_a_constant_word() {
    let mut c = NodeCollection::new();
    let mut creator = NodeCreator::new(&c);
    let rom = Rom::new(&[vec![true, false, true]], &mut creator);
    assert!(rom.address.is_empty());
    assert_eq!(rom.output, vec![NodeIndex(0), NodeIndex(1), NodeIndex(2)]);
    c.absorb(creator).unwrap();
    // nothing drives before the constant bits are powered on
    assert!(!c.play());
    assert_eq!(rom.output[0].read(&c), LineState::Low);
    c.power_on();
    while c.play() {}
    assert_eq!(rom.output[0].read(&c), LineState::High);
    assert_eq!(rom.output[1].read(&c), LineState::Low);
    assert_eq!(rom.output[2].read(&c), LineState::High);
}

#[test]
fn alu_with_4_bit_words_adds() {
    check_truth_table(
        |creator: &mut NodeCreator| {
            let params = Params { word_bits: 4, log_register_count: 0 };
            let alu = Alu::new(&params, creator);
            assert_eq!(alu.mode.len(), 3);
            let mut inputs = Vec::new();
            inputs.append(&mut alu.mode.clone());
            inputs.append(&mut alu.a.clone());
            inputs.append(&mut alu.b.clone());
            (inputs, alu.output.clone())
        },
        // mode 4 is add: 0101 + 0101 = 1010, written highest bit first
        &[(&[0, 0, 1, 1, 0, 1, 0, 1, 0, 1, 0], &[0, 1, 0, 1])],
    );
}
