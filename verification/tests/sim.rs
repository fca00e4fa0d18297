//! The simulation core: signals, staging, absorption, the event loop.

use gatesim::collection::{NodeCollection, NodeDoubleClaim};
use gatesim::creator::NodeCreator;
use gatesim::element::{Element, Primitive};
use gatesim::logic_gates::{NandGate, NotGate};
use gatesim::nand::NandElem;
use gatesim::node::Node;
use gatesim::pin::{Pin, PinElem};
use gatesim::queue::EventQueue;
use gatesim::rom::{ConstantBit, ConstantBitElem, ConstantBits};
use gatesim::sim::{
    ElementIndex, Influence, LineState, LineStateEvent, Link, NodeIndex, PropogationDelay,
    STANDARD_DELAY,
};
use gatesim::storage::{DFlipFlop, NotSRLatch, Register};

fn settle(c: &mut NodeCollection) -> usize {
    let mut turns = 0;
    while c.play() {
        turns += 1;
        assert!(turns < 1_000_000, "the circuit does not settle");
    }
    turns
}

fn event(node: usize, time: u64, id: u64) -> LineStateEvent {
    LineStateEvent {
        node: NodeIndex(node),
        new_state: LineState::High,
        time,
        id,
        forcer: NodeIndex(node),
        force_id: id,
    }
}

#[test]
fn line_states_fold_to_lows_and_highs() {
    assert_eq!(LineState::Low.lows_highs_count(), (1, 0));
    assert_eq!(LineState::High.lows_highs_count(), (0, 1));
    assert_eq!(LineState::Floating.lows_highs_count(), (0, 0));
    assert_eq!(LineState::Conflict.lows_highs_count(), (1, 1));
}

#[test]
fn indices_and_delays_give_their_number() {
    assert_eq!(NodeIndex(7).get(), 7);
    assert_eq!(ElementIndex(3).get(), 3);
    assert_eq!(PropogationDelay(9).get(), 9);
    assert_eq!(STANDARD_DELAY, 100);
    assert_eq!(PropogationDelay::standard(), PropogationDelay(100));
}

#[test]
fn nand_follows_its_four_valued_table() {
    let (low, high, floating, conflict) =
        (LineState::Low, LineState::High, LineState::Floating, LineState::Conflict);
    let all = [low, high, floating, conflict];
    for a in all.iter() {
        for b in all.iter() {
            let expected = if *a == floating || *b == floating {
                floating
            } else if *a == conflict || *b == conflict {
                conflict
            } else if *a == high && *b == high {
                low
            } else {
                high
            };
            assert_eq!(NandElem::nand(*a, *b), expected, "nand({:?}, {:?})", a, b);
        }
    }
    assert_eq!(NandElem::nand(high, high), low);
    assert_eq!(NandElem::nand(low, high), high);
    assert_eq!(NandElem::nand(floating, conflict), floating);
    assert_eq!(NandElem::nand(conflict, floating), floating);
    assert_eq!(NandElem::nand(conflict, low), conflict);
}

#[test]
fn a_fresh_node_is_undriven_and_reads_low() {
    let node = Node::new();
    assert_eq!(node.output_state(), LineState::Floating);
    assert_eq!(node.get_input_state(), LineState::Low);
    assert_eq!(node.link_count(), 0);
    assert_eq!(node.owner(), None);
}

#[test]
fn a_node_resolves_its_influences() {
    let mut node = Node::new();
    let mut e = event(0, 0, 1);
    e.forcer = NodeIndex(1);
    e.new_state = LineState::Low;
    node.impose(&e);
    assert_eq!(node.get_input_state(), LineState::Low);

    e.forcer = NodeIndex(2);
    e.new_state = LineState::High;
    e.force_id = 2;
    node.impose(&e);
    assert_eq!(node.get_input_state(), LineState::Conflict);

    // the first forcer lets go: only High is left
    e.forcer = NodeIndex(1);
    e.new_state = LineState::Floating;
    e.force_id = 3;
    node.impose(&e);
    assert_eq!(node.get_input_state(), LineState::High);
    assert_eq!(
        node.influence_from(NodeIndex(1)),
        Some(Influence {
            force_generator: NodeIndex(1),
            force_kind: LineState::Floating,
            force_id: 3
        })
    );
    assert_eq!(node.influence_from(NodeIndex(9)), None);
}

#[test]
fn a_node_ignores_a_forcing_it_has_already_seen() {
    let mut node = Node::new();
    let mut e = event(0, 0, 1);
    e.forcer = NodeIndex(4);
    e.force_id = 5;
    e.new_state = LineState::High;
    assert!(!node.has_seen(&e));
    node.impose(&e);
    assert!(node.has_seen(&e));

    // an older forcing from the same forcer changes nothing
    e.force_id = 4;
    e.new_state = LineState::Low;
    assert!(node.has_seen(&e));
    node.impose(&e);
    assert_eq!(node.get_input_state(), LineState::High);
    assert_eq!(node.influence_from(NodeIndex(4)).unwrap().force_id, 5);

    // a newer one replaces it
    e.force_id = 6;
    assert!(!node.has_seen(&e));
    node.impose(&e);
    assert_eq!(node.get_input_state(), LineState::Low);
}

#[test]
fn the_queue_orders_by_time_then_id() {
    let mut q = EventQueue::new();
    q.push(event(0, 50, 1));
    q.push(event(1, 10, 2));
    q.push(event(2, 50, 3));
    q.push(event(3, 10, 4));
    q.push(event(4, 0, 5));
    assert_eq!(q.len(), 5);
    assert_eq!(q.peek(), Some(event(4, 0, 5)));
    assert_eq!(q.get(1), event(1, 10, 2));
    let order: Vec<(u64, u64)> = std::iter::from_fn(|| q.pop()).map(|e| (e.time, e.id)).collect();
    assert_eq!(order, vec![(0, 5), (10, 2), (10, 4), (50, 1), (50, 3)]);
    assert_eq!(q.pop(), None);
    assert_eq!(q.len(), 0);
}

#[test]
fn an_event_is_before_another_by_time_then_id() {
    assert!(event(0, 1, 9).is_before(&event(0, 2, 1)));
    assert!(event(0, 2, 1).is_before(&event(0, 2, 2)));
    assert!(!event(0, 2, 2).is_before(&event(0, 2, 2)));
    assert!(!event(0, 3, 1).is_before(&event(0, 2, 2)));
}

#[test]
fn a_new_collection_is_empty() {
    let c = NodeCollection::new();
    assert_eq!(c.node_count(), 0);
    assert_eq!(c.element_count(), 0);
    assert_eq!(c.pending_count(), 0);
    assert_eq!(c.current_tick(), 0);
    assert!(c.can_play());
}

#[test]
fn staging_issues_indices_in_order() {
    let c = NodeCollection::new();
    let mut creator = NodeCreator::new(&c);
    assert_eq!(creator.next_index(), 0);
    assert_eq!(creator.new_node(), NodeIndex(0));
    assert_eq!(creator.new_node(), NodeIndex(1));
    let nand = NandElem::new(&mut creator);
    assert_eq!(nand, NandElem { a: NodeIndex(2), b: NodeIndex(3), output: NodeIndex(4) });
    let pin = PinElem::new(&mut creator);
    assert_eq!(pin.node, NodeIndex(5));
    let bit = ConstantBitElem::new(true, &mut creator);
    assert_eq!(bit, ConstantBitElem { node: NodeIndex(6), on: true });
    assert_eq!(creator.next_index(), 7);
    creator.add_element(Primitive::Nand(nand));
    creator.link(NodeIndex(0), NodeIndex(2), PropogationDelay(3));
    let (next, elements, links) = creator.into_parts();
    assert_eq!(next, 7);
    assert_eq!(elements, vec![Primitive::Nand(nand)]);
    assert_eq!(links, vec![(NodeIndex(0), NodeIndex(2), PropogationDelay(3))]);
}

#[test]
fn staging_links_rows_of_nodes() {
    let c = NodeCollection::new();
    let mut creator = NodeCreator::new(&c);
    let a = [NodeIndex(0), NodeIndex(1)];
    let b = [NodeIndex(5), NodeIndex(6)];
    creator.multilink(&a, &b, PropogationDelay(7));
    creator.link_one_to_many(NodeIndex(9), &b, PropogationDelay(8));
    let (_, _, links) = creator.into_parts();
    assert_eq!(
        links,
        vec![
            (NodeIndex(0), NodeIndex(5), PropogationDelay(7)),
            (NodeIndex(1), NodeIndex(6), PropogationDelay(7)),
            (NodeIndex(9), NodeIndex(5), PropogationDelay(8)),
            (NodeIndex(9), NodeIndex(6), PropogationDelay(8)),
        ]
    );
}

#[test]
fn elements_name_the_nodes_they_own() {
    let nand = NandElem { a: NodeIndex(4), b: NodeIndex(5), output: NodeIndex(6) };
    assert_eq!(nand.get_nodes(), vec![NodeIndex(4), NodeIndex(5), NodeIndex(6)]);
    assert_eq!(PinElem { node: NodeIndex(2) }.get_nodes(), vec![NodeIndex(2)]);
    assert_eq!(ConstantBitElem { node: NodeIndex(3), on: false }.get_nodes(), vec![NodeIndex(3)]);
    assert_eq!(Primitive::Nand(nand).get_nodes(), nand.get_nodes());
    assert_eq!(Primitive::Nand(nand).standing_demand(), None);
    let d = Primitive::Constant(ConstantBitElem { node: NodeIndex(3), on: true })
        .standing_demand()
        .unwrap();
    assert_eq!((d.node, d.state), (NodeIndex(3), LineState::High));
}

#[test]
fn absorbing_creates_nodes_owners_and_symmetric_links() {
    let mut c = NodeCollection::new();
    let mut creator = NodeCreator::new(&c);
    let gate = NandGate::new(&mut creator);
    let pin = Pin::new(&mut creator);
    let spare = creator.new_node();
    creator.link(pin.node, gate.a, PropogationDelay(5));
    creator.link(pin.node, gate.b, PropogationDelay(7));
    assert_eq!(c.absorb(creator), Ok(()));

    assert_eq!(c.node_count(), 5);
    assert_eq!(c.element_count(), 2);
    assert_eq!(c.owner_of(gate.a), Some(ElementIndex(0)));
    assert_eq!(c.owner_of(gate.output), Some(ElementIndex(0)));
    assert_eq!(c.owner_of(pin.node), Some(ElementIndex(1)));
    assert_eq!(c.owner_of(spare), None);
    assert_eq!(
        c.links_of(pin.node),
        vec![
            Link { linked_to: gate.a, delay: PropogationDelay(5), id: 1 },
            Link { linked_to: gate.b, delay: PropogationDelay(7), id: 2 },
        ]
    );
    assert_eq!(
        c.links_of(gate.a),
        vec![Link { linked_to: pin.node, delay: PropogationDelay(5), id: 1 }]
    );
    assert_eq!(
        c.links_of(gate.b),
        vec![Link { linked_to: pin.node, delay: PropogationDelay(7), id: 2 }]
    );
    assert_eq!(c.output_state_of(gate.output), LineState::Floating);
    assert_eq!(c.pending_count(), 0);
}

#[test]
fn a_link_to_itself_lays_both_ends_on_one_node() {
    let mut c = NodeCollection::new();
    let mut creator = NodeCreator::new(&c);
    let pin = Pin::new(&mut creator);
    creator.link(pin.node, pin.node, PropogationDelay(4));
    c.absorb(creator).unwrap();
    assert_eq!(c.links_of(pin.node).len(), 2);
    pin.node.write(LineState::High, &mut c);
    // the node has seen its own forcing once the event struck: nothing is
    // offered back over the link
    assert_eq!(settle(&mut c), 1);
    assert_eq!(pin.node.read(&c), LineState::High);
}

#[test]
fn sessions_compose_without_collision() {
    let mut c = NodeCollection::new();
    let mut first = NodeCreator::new(&c);
    let a = Pin::new(&mut first);
    let loose = first.new_node();
    c.absorb(first).unwrap();
    assert_eq!(c.node_count(), 2);

    let mut second = NodeCreator::new(&c);
    let b = Pin::new(&mut second);
    assert_eq!(b.node, NodeIndex(2));
    second.link(a.node, b.node, PropogationDelay(1));
    second.link(loose, b.node, PropogationDelay(1));
    c.absorb(second).unwrap();
    assert_eq!(c.node_count(), 3);
    assert_eq!(c.element_count(), 2);
    assert_eq!(c.owner_of(b.node), Some(ElementIndex(1)));

    a.node.write(LineState::High, &mut c);
    settle(&mut c);
    assert_eq!(b.node.read(&c), LineState::High);
    assert_eq!(loose.read(&c), LineState::High);
}

#[test]
fn a_node_claimed_twice_fails_the_build() {
    let mut c = NodeCollection::new();
    let mut creator = NodeCreator::new(&c);
    let pin = Pin::new(&mut creator);
    let other = Pin::new(&mut creator);
    creator.add_element(Primitive::Pin(PinElem { node: pin.node }));
    creator.add_element(Primitive::Pin(PinElem { node: NodeIndex(9) }));
    assert_eq!(c.absorb(creator), Err(NodeDoubleClaim { element: ElementIndex(2) }));
    // what joined before the clash stays
    assert_eq!(c.element_count(), 2);
    assert_eq!(c.owner_of(other.node), Some(ElementIndex(1)));
    assert_eq!(c.node_count(), 2);
}

#[test]
fn an_element_that_names_a_node_twice_fails_the_build() {
    let mut c = NodeCollection::new();
    let mut creator = NodeCreator::new(&c);
    let n = creator.new_node();
    creator.add_element(Primitive::Nand(NandElem { a: n, b: n, output: n }));
    assert_eq!(c.absorb(creator), Err(NodeDoubleClaim { element: ElementIndex(0) }));
    assert_eq!(c.element_count(), 0);
}

#[test]
fn a_claim_on_a_node_of_an_earlier_session_fails_the_build() {
    let mut c = NodeCollection::new();
    let mut first = NodeCreator::new(&c);
    let pin = Pin::new(&mut first);
    c.absorb(first).unwrap();
    let mut second = NodeCreator::new(&c);
    second.add_element(Primitive::Pin(PinElem { node: pin.node }));
    assert_eq!(c.absorb(second), Err(NodeDoubleClaim { element: ElementIndex(1) }));
}

#[test]
fn writing_posts_an_event_in_which_the_node_forces_itself() {
    let mut c = NodeCollection::new();
    let mut creator = NodeCreator::new(&c);
    let pin = Pin::new(&mut creator);
    c.absorb(creator).unwrap();

    pin.node.write(LineState::High, &mut c);
    assert_eq!(c.output_state_of(pin.node), LineState::High);
    assert_eq!(
        c.pending_events(),
        vec![LineStateEvent {
            node: pin.node,
            new_state: LineState::High,
            time: 0,
            id: 1,
            forcer: pin.node,
            force_id: 1,
        }]
    );
    // the write does not act before its event is delivered
    assert_eq!(pin.node.read(&c), LineState::Low);
    assert!(c.play());
    assert_eq!(pin.node.read(&c), LineState::High);
    assert_eq!(
        c.influence_on(pin.node, pin.node),
        Some(Influence { force_generator: pin.node, force_kind: LineState::High, force_id: 1 })
    );
    assert!(!c.play());
}

#[test]
fn writing_the_state_a_node_is_driven_to_creates_no_event() {
    let mut c = NodeCollection::new();
    let mut creator = NodeCreator::new(&c);
    let pin = Pin::new(&mut creator);
    c.absorb(creator).unwrap();

    // a fresh node is driven to Floating
    pin.node.write(LineState::Floating, &mut c);
    assert_eq!(c.pending_count(), 0);

    pin.node.write(LineState::Low, &mut c);
    assert_eq!(c.pending_count(), 1);
    pin.node.write(LineState::Low, &mut c);
    assert_eq!(c.pending_count(), 1);
    settle(&mut c);
    pin.node.write(LineState::Low, &mut c);
    assert_eq!(c.pending_count(), 0);
}

#[test]
fn a_delayed_write_is_due_after_its_delay() {
    let mut c = NodeCollection::new();
    let mut creator = NodeCreator::new(&c);
    let pin = Pin::new(&mut creator);
    c.absorb(creator).unwrap();

    pin.node.write_later(LineState::High, PropogationDelay(1000), &mut c);
    pin.node.write_later(LineState::Low, PropogationDelay(200), &mut c);
    // the node records the state of the latest call at once
    assert_eq!(c.output_state_of(pin.node), LineState::Low);
    let times: Vec<(u64, u64, u64)> =
        c.pending_events().iter().map(|e| (e.time, e.id, e.force_id)).collect();
    assert_eq!(times, vec![(200, 2, 2), (1000, 1, 1)]);

    assert!(c.play());
    assert_eq!(c.current_tick(), 200);
    assert_eq!(pin.node.read(&c), LineState::Low);
    assert!(c.play());
    // the older forcing arrives later and is ignored
    assert_eq!(c.current_tick(), 1000);
    assert_eq!(pin.node.read(&c), LineState::Low);
    assert!(!c.play());
}

#[test]
fn a_delayed_write_of_the_state_a_node_is_driven_to_creates_no_event() {
    let mut c = NodeCollection::new();
    let mut creator = NodeCreator::new(&c);
    let pin = Pin::new(&mut creator);
    c.absorb(creator).unwrap();
    // a fresh node is driven to Floating
    pin.node.write_later(LineState::Floating, PropogationDelay(5), &mut c);
    assert_eq!(c.pending_count(), 0);

    pin.node.write_later(LineState::High, PropogationDelay(0), &mut c);
    assert_eq!(c.pending_count(), 1);
    let before = c.pending_events();
    pin.node.write_later(LineState::High, PropogationDelay(0), &mut c);
    pin.node.write_later(LineState::High, PropogationDelay(70), &mut c);
    pin.node.write(LineState::High, &mut c);
    assert_eq!(c.pending_events(), before);
    // no id was taken: the next write gets the ids that follow the first
    pin.node.write_later(LineState::Low, PropogationDelay(3), &mut c);
    let last = c.pending_events()[1];
    assert_eq!((last.time, last.id, last.force_id), (3, 2, 2));
}

#[test]
fn an_event_crosses_each_link_after_the_link_s_delay() {
    let mut c = NodeCollection::new();
    let mut creator = NodeCreator::new(&c);
    let a = Pin::new(&mut creator);
    let b = Pin::new(&mut creator);
    let far = Pin::new(&mut creator);
    creator.link(a.node, b.node, PropogationDelay(30));
    creator.link(a.node, far.node, PropogationDelay(70));
    c.absorb(creator).unwrap();

    a.node.write_later(LineState::High, PropogationDelay(5), &mut c);
    assert!(c.play());
    assert_eq!(
        c.pending_events(),
        vec![
            LineStateEvent {
                node: b.node,
                new_state: LineState::High,
                time: 35,
                id: 2,
                forcer: a.node,
                force_id: 1,
            },
            LineStateEvent {
                node: far.node,
                new_state: LineState::High,
                time: 75,
                id: 3,
                forcer: a.node,
                force_id: 1,
            },
        ]
    );
    // b passes nothing back to a, which has seen the forcing
    assert!(c.play());
    assert_eq!(c.pending_count(), 1);
    assert_eq!(b.node.read(&c), LineState::High);
    assert_eq!(far.node.read(&c), LineState::Low);
    assert!(c.play());
    assert_eq!(far.node.read(&c), LineState::High);
    assert_eq!(c.current_tick(), 75);
    assert!(!c.play());
}

#[test]
fn a_node_that_has_seen_the_forcing_gets_no_event() {
    let mut c = NodeCollection::new();
    let mut creator = NodeCreator::new(&c);
    let a = Pin::new(&mut creator);
    let b = Pin::new(&mut creator);
    let d = Pin::new(&mut creator);
    // a triangle: the forcing reaches d over a-d and over a-b-d
    creator.link(a.node, b.node, PropogationDelay(10));
    creator.link(a.node, d.node, PropogationDelay(10));
    creator.link(b.node, d.node, PropogationDelay(10));
    c.absorb(creator).unwrap();
    a.node.write(LineState::High, &mut c);
    // a, then b and d at time 10; b offers to d, which has not seen it yet,
    // and d, struck at 10, offers to nobody: b has seen it by then
    assert_eq!(settle(&mut c), 4);
    assert_eq!(c.current_tick(), 20);
    assert_eq!(d.node.read(&c), LineState::High);
}

#[test]
fn an_event_that_comes_again_is_offered_again() {
    let mut c = NodeCollection::new();
    let mut creator = NodeCreator::new(&c);
    let source = Pin::new(&mut creator);
    let middle = Pin::new(&mut creator);
    let far = Pin::new(&mut creator);
    // two links in parallel: the forcing reaches the middle twice
    creator.link(source.node, middle.node, PropogationDelay(10));
    creator.link(source.node, middle.node, PropogationDelay(20));
    creator.link(middle.node, far.node, PropogationDelay(100));
    c.absorb(creator).unwrap();

    source.node.write(LineState::High, &mut c);
    assert!(c.play());
    let due: Vec<u64> = c.pending_events().iter().map(|e| e.time).collect();
    assert_eq!(due, vec![10, 20]);
    // the first arrival is passed on to the far node
    assert!(c.play());
    let due: Vec<u64> = c.pending_events().iter().map(|e| e.time).collect();
    assert_eq!(due, vec![20, 110]);
    // the second arrival changes nothing on the middle, which has seen the
    // forcing, but it is offered to the far node, which has not
    assert!(c.play());
    assert_eq!(c.current_tick(), 20);
    let due: Vec<(u64, u64)> = c.pending_events().iter().map(|e| (e.time, e.id)).collect();
    assert_eq!(due, vec![(110, 4), (120, 5)]);
    assert_eq!(c.influence_on(middle.node, source.node).unwrap().force_id, 1);
    assert!(c.play());
    assert_eq!(far.node.read(&c), LineState::High);
    assert!(c.play());
    assert_eq!(c.current_tick(), 120);
    assert!(!c.play());
}

#[test]
fn the_owner_is_stepped_on_every_arrival() {
    let mut c = NodeCollection::new();
    let mut creator = NodeCreator::new(&c);
    let gate = NandGate::new(&mut creator);
    let pin = Pin::new(&mut creator);
    // two links in parallel: the forcing reaches the input twice
    creator.link(pin.node, gate.a, PropogationDelay(10));
    creator.link(pin.node, gate.a, PropogationDelay(20));
    c.absorb(creator).unwrap();

    pin.node.write(LineState::High, &mut c);
    assert!(c.play());
    // the first arrival steps the NAND, which drives its output High
    assert!(c.play());
    assert_eq!(c.current_tick(), 10);
    assert_eq!(c.output_state_of(gate.output), LineState::High);
    assert!(c.play());
    // somebody drives the output Low, effective much later
    gate.output.write_later(LineState::Low, PropogationDelay(500), &mut c);
    assert_eq!(c.output_state_of(gate.output), LineState::Low);
    // the second arrival finds the input as it is, and steps the NAND
    // again: it drives its output to what it wants
    assert!(c.play());
    assert_eq!(c.current_tick(), 20);
    assert_eq!(c.output_state_of(gate.output), LineState::High);
    assert_eq!(settle(&mut c) > 0, true);
    assert_eq!(gate.output.read(&c), LineState::High);
}

#[test]
fn two_drivers_that_disagree_conflict() {
    let mut c = NodeCollection::new();
    let mut creator = NodeCreator::new(&c);
    let up = Pin::new(&mut creator);
    let down = Pin::new(&mut creator);
    let wire = Pin::new(&mut creator);
    creator.link(up.node, wire.node, PropogationDelay(1));
    creator.link(down.node, wire.node, PropogationDelay(1));
    c.absorb(creator).unwrap();
    up.node.write(LineState::High, &mut c);
    down.node.write(LineState::Low, &mut c);
    settle(&mut c);
    assert_eq!(wire.node.read(&c), LineState::Conflict);
    up.node.write(LineState::Floating, &mut c);
    settle(&mut c);
    assert_eq!(wire.node.read(&c), LineState::Low);
    down.node.write(LineState::Floating, &mut c);
    settle(&mut c);
    // nobody drives: the wire reads Low
    assert_eq!(wire.node.read(&c), LineState::Low);
}

#[test]
fn only_the_owner_of_the_target_is_stepped() {
    let mut c = NodeCollection::new();
    let mut creator = NodeCreator::new(&c);
    let touched = NandGate::new(&mut creator);
    let idle = NandGate::new(&mut creator);
    let loose = creator.new_node();
    c.absorb(creator).unwrap();

    // an event on a node without owner steps nobody
    loose.write(LineState::High, &mut c);
    settle(&mut c);
    assert_eq!(c.output_state_of(touched.output), LineState::Floating);
    assert_eq!(c.output_state_of(idle.output), LineState::Floating);

    touched.a.write(LineState::High, &mut c);
    settle(&mut c);
    assert_eq!(c.output_state_of(touched.output), LineState::High);
    assert_eq!(touched.output.read(&c), LineState::High);
    // the other gate was never stimulated
    assert_eq!(c.output_state_of(idle.output), LineState::Floating);
    assert_eq!(idle.output.read(&c), LineState::Low);
}

#[test]
fn events_are_delivered_in_order_of_time_then_id() {
    let mut c = NodeCollection::new();
    let mut creator = NodeCreator::new(&c);
    let latch = NotSRLatch::new(&mut creator);
    let s = Pin::new(&mut creator);
    let r = Pin::new(&mut creator);
    creator.link(s.node, latch.not_s, PropogationDelay(17));
    creator.link(r.node, latch.not_r, PropogationDelay(STANDARD_DELAY));
    c.absorb(creator).unwrap();
    r.node.write_later(LineState::High, PropogationDelay(40), &mut c);
    s.node.write(LineState::High, &mut c);
    s.node.write_later(LineState::Low, PropogationDelay(40), &mut c);

    let mut delivered: Vec<(u64, u64)> = Vec::new();
    loop {
        let next = c.pending_events().first().map(|e| (e.time, e.id));
        if !c.play() {
            break;
        }
        delivered.push(next.unwrap());
        assert_eq!(c.current_tick(), next.unwrap().0);
        assert!(delivered.len() < 10_000);
    }
    assert!(delivered.len() > 5);
    for pair in delivered.windows(2) {
        assert!(pair[0] < pair[1], "{:?} was delivered before {:?}", pair[0], pair[1]);
    }
    // the crossing to the latch, and the write of the NAND that it steps
    assert_eq!(&delivered[0..3], &[(0, 2), (17, 4), (17, 5)]);
    // events of one instant go by id: the write to r was made first
    let first = delivered.iter().position(|&k| k == (40, 1)).unwrap();
    let second = delivered.iter().position(|&k| k == (40, 3)).unwrap();
    assert!(first < second);
}

fn run_flip_flop() -> (Vec<LineStateEvent>, Vec<LineState>, u64) {
    let mut c = NodeCollection::new();
    let mut creator = NodeCreator::new(&c);
    let ff = DFlipFlop::new(&mut creator);
    let clock = Pin::new(&mut creator);
    let data = Pin::new(&mut creator);
    creator.link(clock.node, ff.clock, PropogationDelay(STANDARD_DELAY));
    creator.link(data.node, ff.data, PropogationDelay(STANDARD_DELAY));
    c.absorb(creator).unwrap();
    data.node.write(LineState::High, &mut c);
    clock.node.write(LineState::Low, &mut c);
    clock.node.write_later(LineState::High, PropogationDelay(1000), &mut c);
    clock.node.write_later(LineState::Low, PropogationDelay(2000), &mut c);
    let mut trace = Vec::new();
    loop {
        let next = c.pending_events().first().copied();
        if !c.play() {
            break;
        }
        trace.push(next.unwrap());
        assert!(trace.len() < 100_000);
    }
    let states = (0..c.node_count()).map(|n| NodeIndex(n).read(&c)).collect();
    (trace, states, c.current_tick())
}

#[test]
fn two_runs_of_one_construction_agree() {
    let first = run_flip_flop();
    let second = run_flip_flop();
    assert!(first.0.len() > 10);
    assert_eq!(first.0, second.0);
    assert_eq!(first.1, second.1);
    assert_eq!(first.2, second.2);
}

#[test]
fn at_rest_both_ends_of_every_link_hold_the_same() {
    let mut c = NodeCollection::new();
    let mut creator = NodeCreator::new(&c);
    let power = ConstantBit::new(true, &mut creator);
    let r = Register::new(&mut creator, 2);
    let clock = Pin::new(&mut creator);
    let data = Pin::new(&mut creator);
    creator.link(clock.node, r.clock, PropogationDelay(STANDARD_DELAY));
    creator.link(data.node, r.bits[0].data, PropogationDelay(STANDARD_DELAY));
    creator.link(power.node, r.bits[1].data, PropogationDelay(7));
    c.absorb(creator).unwrap();
    c.power_on();
    data.node.write(LineState::High, &mut c);
    clock.node.write(LineState::Low, &mut c);
    clock.node.write_later(LineState::High, PropogationDelay(1000), &mut c);
    clock.node.write_later(LineState::Low, PropogationDelay(2000), &mut c);
    settle(&mut c);

    let count = c.node_count();
    let mut links = 0;
    for n in 0..count {
        let here = NodeIndex(n);
        for link in c.links_of(here) {
            links += 1;
            assert_eq!(here.read(&c), link.linked_to.read(&c));
            for f in 0..count {
                let forcer = NodeIndex(f);
                assert_eq!(c.influence_on(here, forcer), c.influence_on(link.linked_to, forcer));
            }
            // what a driven node imposes on itself has crossed the link
            let drive = c.output_state_of(here);
            if drive != LineState::Floating {
                assert_eq!(c.influence_on(here, here).unwrap().force_kind, drive);
                assert_eq!(c.influence_on(link.linked_to, here).unwrap().force_kind, drive);
            }
        }
    }
    assert!(links > 50);
    assert_eq!(r.read_u64(&c), Some(3));
}

#[test]
fn every_nand_that_a_signal_has_reached_has_its_way() {
    let mut c = NodeCollection::new();
    let mut creator = NodeCreator::new(&c);
    let power = ConstantBit::new(true, &mut creator);
    let r = Register::new(&mut creator, 2);
    let idle = NandGate::new(&mut creator);
    let clock = Pin::new(&mut creator);
    let data = Pin::new(&mut creator);
    creator.link(clock.node, r.clock, PropogationDelay(STANDARD_DELAY));
    creator.link(data.node, r.bits[0].data, PropogationDelay(STANDARD_DELAY));
    creator.link(power.node, r.bits[1].data, PropogationDelay(7));
    c.absorb(creator).unwrap();
    c.power_on();
    data.node.write(LineState::High, &mut c);
    clock.node.write(LineState::Low, &mut c);
    clock.node.write_later(LineState::High, PropogationDelay(1000), &mut c);

    // the elements have their way at any time, not only at rest
    let mut turns = 0;
    loop {
        let count = c.node_count();
        let mut reached = 0;
        for i in 0..c.element_count() {
            match c.element(i) {
                Primitive::Nand(g) => {
                    let quiet = g.get_nodes().iter().all(|n| {
                        (0..count).all(|f| c.influence_on(*n, NodeIndex(f)).is_none())
                    });
                    if !quiet {
                        reached += 1;
                        let wanted = NandElem::nand(g.a.read(&c), g.b.read(&c));
                        assert_eq!(c.output_state_of(g.output), wanted);
                    }
                }
                Primitive::Constant(k) => {
                    assert_eq!(k.node, power.node);
                    assert_eq!(c.output_state_of(k.node), LineState::High);
                }
                Primitive::Pin(_) => {}
            }
        }
        if !c.play() {
            assert_eq!(reached, 2 * 8);
            break;
        }
        turns += 1;
        assert!(turns < 100_000);
    }
    // nothing has reached the NAND that stands apart
    assert_eq!(c.output_state_of(idle.output), LineState::Floating);
    // a forcing stays among the nodes that links join to its forcer
    assert_eq!(c.influence_on(r.bits[0].data, power.node), None);
    assert_eq!(c.influence_on(r.bits[1].data, data.node), None);
    assert_eq!(c.influence_on(r.bits[1].data, power.node).unwrap().force_kind, LineState::High);
}

#[test]
fn pumping_a_circuit_at_rest_changes_nothing() {
    let mut c = NodeCollection::new();
    let mut creator = NodeCreator::new(&c);
    let gate = NotGate::new(&mut creator);
    let pin = Pin::new(&mut creator);
    creator.link(pin.node, gate.input, PropogationDelay(STANDARD_DELAY));
    c.absorb(creator).unwrap();
    pin.node.write(LineState::High, &mut c);
    assert!(settle(&mut c) > 0);
    let tick = c.current_tick();
    let states: Vec<LineState> = (0..c.node_count()).map(|n| NodeIndex(n).read(&c)).collect();
    assert_eq!(settle(&mut c), 0);
    assert!(!c.play());
    assert_eq!(c.current_tick(), tick);
    assert_eq!(c.pending_count(), 0);
    let again: Vec<LineState> = (0..c.node_count()).map(|n| NodeIndex(n).read(&c)).collect();
    assert_eq!(states, again);
    assert_eq!(gate.output.read(&c), LineState::Low);
}

#[test]
fn the_event_loop_has_room_far_from_the_limits() {
    let mut c = NodeCollection::new();
    let mut creator = NodeCreator::new(&c);
    let a = Pin::new(&mut creator);
    let b = Pin::new(&mut creator);
    creator.link(a.node, b.node, PropogationDelay(u32::MAX));
    c.absorb(creator).unwrap();
    a.node.write(LineState::High, &mut c);
    assert!(c.can_play());
    assert!(c.play());
    assert_eq!(c.pending_events()[0].time, 4_294_967_295);
    assert!(c.can_play());
    assert!(c.play());
    assert_eq!(c.current_tick(), 4_294_967_295);
    assert!(c.can_play());
    assert!(!c.play());
}

#[test]
fn absorbing_leaves_the_signals_alone() {
    let mut c = NodeCollection::new();
    let mut creator = NodeCreator::new(&c);
    let pin = Pin::new(&mut creator);
    c.absorb(creator).unwrap();
    pin.node.write_later(LineState::High, PropogationDelay(30), &mut c);
    pin.node.write_later(LineState::Low, PropogationDelay(5), &mut c);
    assert!(c.play());
    let queue = c.pending_events();
    let held = c.influence_on(pin.node, pin.node);

    let mut creator = NodeCreator::new(&c);
    let power = ConstantBit::new(true, &mut creator);
    let gate = NandGate::new(&mut creator);
    creator.link(power.node, gate.a, PropogationDelay(1));
    creator.link(pin.node, gate.b, PropogationDelay(1));
    c.absorb(creator).unwrap();
    assert_eq!(c.pending_events(), queue);
    assert_eq!(c.current_tick(), 5);
    assert_eq!(c.influence_on(pin.node, pin.node), held);
    assert_eq!(c.output_state_of(pin.node), LineState::Low);
    assert_eq!(c.output_state_of(power.node), LineState::Floating);
    for n in [power.node, gate.a, gate.b, gate.output] {
        for f in 0..c.node_count() {
            assert_eq!(c.influence_on(n, NodeIndex(f)), None);
        }
    }
    // the next write gets the ids that follow
    pin.node.write(LineState::High, &mut c);
    let last = c.pending_events()[0];
    assert_eq!((last.time, last.id, last.force_id), (5, 3, 3));
}

#[test]
fn constant_bits_drive_once_they_are_powered_on() {
    let mut c = NodeCollection::new();
    let mut creator = NodeCreator::new(&c);
    let power = ConstantBit::new(true, &mut creator);
    let ground = ConstantBit::new(false, &mut creator);
    let probe = Pin::new(&mut creator);
    creator.link(power.node, probe.node, PropogationDelay(STANDARD_DELAY));
    c.absorb(creator).unwrap();
    assert_eq!(c.pending_count(), 0);
    assert_eq!(c.output_state_of(power.node), LineState::Floating);
    assert!(c.can_power_on());
    c.power_on();
    // each constant bit has written its level: one event each
    let ids: Vec<(u64, u64, u64)> =
        c.pending_events().iter().map(|e| (e.time, e.id, e.force_id)).collect();
    assert_eq!(ids, vec![(0, 1, 1), (0, 2, 2)]);
    assert_eq!(c.output_state_of(power.node), LineState::High);
    assert_eq!(c.output_state_of(ground.node), LineState::Low);
    // a second call finds them driving and writes nothing
    c.power_on();
    assert_eq!(c.pending_count(), 2);
    settle(&mut c);
    assert_eq!(power.node.read(&c), LineState::High);
    assert_eq!(ground.node.read(&c), LineState::Low);
    assert_eq!(probe.node.read(&c), LineState::High);
    assert_eq!(c.current_tick(), 100);
}

#[test]
fn a_constant_bit_that_a_signal_reaches_drives_without_power_on() {
    let mut c = NodeCollection::new();
    let mut creator = NodeCreator::new(&c);
    let power = ConstantBit::new(true, &mut creator);
    let pin = Pin::new(&mut creator);
    creator.link(power.node, pin.node, PropogationDelay(3));
    c.absorb(creator).unwrap();
    pin.node.write(LineState::Floating, &mut c);
    assert_eq!(settle(&mut c), 0);
    pin.node.write(LineState::Low, &mut c);
    settle(&mut c);
    // the event on its node stepped the constant bit
    assert_eq!(c.output_state_of(power.node), LineState::High);
    assert_eq!(pin.node.read(&c), LineState::Conflict);
}

#[test]
fn make_bits_gives_the_lowest_bit_first() {
    assert_eq!(
        ConstantBits::make_bits(5, 8),
        vec![true, false, true, false, false, false, false, false]
    );
    assert_eq!(
        ConstantBits::make_bits(128, 8),
        vec![false, false, false, false, false, false, false, true]
    );
    assert_eq!(ConstantBits::make_bits(255, 8), vec![true; 8]);
    assert_eq!(ConstantBits::make_bits(42, 4), vec![false, true, false, true]);
    assert_eq!(ConstantBits::make_bits(7, 0), Vec::<bool>::new());
    let all = ConstantBits::make_bits(1u64 << 63, 64);
    assert_eq!(all.len(), 64);
    assert!(all[63]);
    assert!(!all[62]);
}

#[test]
fn a_constant_word_takes_the_next_nodes() {
    let c = NodeCollection::new();
    let mut creator = NodeCreator::new(&c);
    creator.new_node();
    let word = ConstantBits::new(&[true, false, true], &mut creator);
    assert_eq!(word.bits, vec![NodeIndex(1), NodeIndex(2), NodeIndex(3)]);
    let (next, elements, _) = creator.into_parts();
    assert_eq!(next, 4);
    assert_eq!(
        elements,
        vec![
            Primitive::Constant(ConstantBitElem { node: NodeIndex(1), on: true }),
            Primitive::Constant(ConstantBitElem { node: NodeIndex(2), on: false }),
            Primitive::Constant(ConstantBitElem { node: NodeIndex(3), on: true }),
        ]
    );
}

#[test]
fn a_register_stores_42_on_a_clock_pulse() {
    let mut c = NodeCollection::new();
    let mut creator = NodeCreator::new(&c);
    let power = ConstantBit::new(true, &mut creator);
    let ground = Pin::new(&mut creator);
    let clock = Pin::new(&mut creator);
    let data = Pin::new(&mut creator);

    let forty_two = ConstantBits::new(&ConstantBits::make_bits(42, 8), &mut creator);

    let r = Register::new(&mut creator, 8);
    creator.link(clock.node, r.clock, PropogationDelay(STANDARD_DELAY));
    creator.multilink(&forty_two.bits, &r.inputs(), PropogationDelay(STANDARD_DELAY));

    c.absorb(creator).unwrap();
    c.power_on();

    ground.node.write(LineState::Low, &mut c);
    data.node.write(LineState::Low, &mut c);
    clock.node.write(LineState::Low, &mut c);

    clock.node.write_later(LineState::High, PropogationDelay(1000), &mut c);
    clock.node.write_later(LineState::Low, PropogationDelay(2000), &mut c);

    settle(&mut c);

    assert_eq!(r.read_u64(&c), Some(42));
    assert_eq!(power.node.read(&c), LineState::High);
    assert_eq!(r.outputs().len(), 8);
}

#[test]
fn a_register_with_a_conflicting_bit_has_no_value() {
    let mut c = NodeCollection::new();
    let mut creator = NodeCreator::new(&c);
    let r = Register::new(&mut creator, 2);
    let up = Pin::new(&mut creator);
    let down = Pin::new(&mut creator);
    creator.link(up.node, r.bits[1].q, PropogationDelay(1));
    creator.link(down.node, r.bits[1].q, PropogationDelay(1));
    c.absorb(creator).unwrap();
    assert_eq!(r.read_u64(&c), Some(0));
    up.node.write(LineState::High, &mut c);
    settle(&mut c);
    assert_eq!(r.read_u64(&c), Some(2));
    down.node.write(LineState::Low, &mut c);
    settle(&mut c);
    assert_eq!(r.bits[1].q.read(&c), LineState::Conflict);
    assert_eq!(r.read_u64(&c), None);
}

#[test]
fn a_latch_keeps_what_a_pulse_set() {
    let mut c = NodeCollection::new();
    let mut creator = NodeCreator::new(&c);
    let latch = NotSRLatch::new(&mut creator);
    let not_s = Pin::new(&mut creator);
    let not_r = Pin::new(&mut creator);
    creator.link(not_s.node, latch.not_s, PropogationDelay(STANDARD_DELAY));
    creator.link(not_r.node, latch.not_r, PropogationDelay(STANDARD_DELAY));
    c.absorb(creator).unwrap();

    not_s.node.write(LineState::High, &mut c);
    not_r.node.write(LineState::High, &mut c);
    not_s.node.write_later(LineState::Low, PropogationDelay(1000), &mut c);
    not_s.node.write_later(LineState::High, PropogationDelay(2000), &mut c);
    settle(&mut c);
    assert_eq!(latch.q.read(&c), LineState::High);
    assert_eq!(latch.not_q.read(&c), LineState::Low);

    // the same pulse on the other input flips the latch
    not_r.node.write(LineState::Low, &mut c);
    settle(&mut c);
    not_r.node.write(LineState::High, &mut c);
    settle(&mut c);
    assert_eq!(latch.q.read(&c), LineState::Low);
    assert_eq!(latch.not_q.read(&c), LineState::High);
}

#[test]
fn a_latch_at_rest_agrees_with_its_inputs() {
    let levels = [LineState::Low, LineState::High];
    // every pair of levels on the inputs, reached from every other pair,
    // but for both inputs released at once, which lets the outputs race
    for first in 0..3usize {
        for second in 0..4usize {
            if first == 0 && second == 3 {
                continue;
            }
            let mut c = NodeCollection::new();
            let mut creator = NodeCreator::new(&c);
            let latch = NotSRLatch::new(&mut creator);
            let not_s = Pin::new(&mut creator);
            let not_r = Pin::new(&mut creator);
            creator.link(not_s.node, latch.not_s, PropogationDelay(STANDARD_DELAY));
            creator.link(not_r.node, latch.not_r, PropogationDelay(30));
            c.absorb(creator).unwrap();
            for step in [first, second] {
                not_s.node.write(levels[step % 2], &mut c);
                not_r.node.write(levels[step / 2], &mut c);
                settle(&mut c);
                let s = levels[step % 2];
                let r = levels[step / 2];
                let q = latch.q.read(&c);
                let not_q = latch.not_q.read(&c);
                assert!(q == LineState::Low || q == LineState::High);
                assert!(not_q == LineState::Low || not_q == LineState::High);
                assert_eq!(q, NandElem::nand(s, not_q));
                assert_eq!(not_q, NandElem::nand(r, q));
            }
        }
    }
}

#[test]
fn no_node_of_a_flip_flop_ever_reads_a_conflict() {
    let mut c = NodeCollection::new();
    let mut creator = NodeCreator::new(&c);
    let flip_flop = DFlipFlop::new(&mut creator);
    let clock = Pin::new(&mut creator);
    let data = Pin::new(&mut creator);
    creator.link(clock.node, flip_flop.clock, PropogationDelay(STANDARD_DELAY));
    creator.link(data.node, flip_flop.data, PropogationDelay(STANDARD_DELAY));
    c.absorb(creator).unwrap();
    data.node.write(LineState::High, &mut c);
    clock.node.write(LineState::Low, &mut c);
    clock.node.write_later(LineState::High, PropogationDelay(1000), &mut c);
    clock.node.write_later(LineState::Low, PropogationDelay(2000), &mut c);
    data.node.write_later(LineState::Low, PropogationDelay(2500), &mut c);
    let mut turns = 0;
    while c.play() {
        turns += 1;
        for n in 0..c.node_count() {
            let reading = NodeIndex(n).read(&c);
            assert!(reading == LineState::Low || reading == LineState::High);
        }
    }
    assert!(turns > 0);
    assert_eq!(flip_flop.q.read(&c), LineState::High);
    assert_eq!(flip_flop.not_q.read(&c), LineState::Low);
}
