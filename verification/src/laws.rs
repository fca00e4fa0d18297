//! Laws of the simulation, proved of the model that the simulator's
//! contracts are stated in.

use vstd::prelude::*;
use crate::circuit::{Action, Circuit};
use crate::netlist::Netlist;
use crate::queue::{lemma_scheduled_members, lemma_slot, scheduled, slot};
use crate::sim::{LineState, LineStateEvent, Link, NodeIndex, PropogationDelay};
use crate::wellformed::{
    can_play_event, can_propagate, lemma_can_relay, lemma_delivered_wf, lemma_played_wf, lemma_popped_wf,
    lemma_propagated_wf, lemma_struck_wf, lemma_wants_a_node, lemma_forced_later_wf,
    lemma_written_wf,
};

verus! {

/// Whether `q` holds an event that carries the forcing of `e` to `node`,
/// due at `time`, under an id greater than `minted`.
pub open spec fn carries(q: Seq<LineStateEvent>, e: LineStateEvent, node: NodeIndex, time: int, minted: u64) -> bool {
    exists|x: LineStateEvent|
        {
            &&& #[trigger] q.contains(x)
            &&& x.node == node
            &&& x.new_state == e.new_state
            &&& x.time == time
            &&& x.forcer == e.forcer
            &&& x.force_id == e.force_id
            &&& x.id > minted
        }
}

/// Posting an event keeps every pending event pending.
proof fn lemma_posted_keeps(
    c: Circuit,
    node: NodeIndex,
    state: LineState,
    time: u64,
    forcer: NodeIndex,
    force_id: u64,
    x: LineStateEvent,
)
    requires
        c.pending.contains(x),
    ensures
        c.posted(node, state, time, forcer, force_id).pending.contains(x),
{
    let id = (c.events_minted + 1) as u64;
    let e = LineStateEvent { node, new_state: state, time, id, forcer, force_id };
    lemma_scheduled_members(c.pending, e);
    let k = choose|k: int| 0 <= k < c.pending.len() && c.pending[k] == x;
    assert(scheduled(c.pending, e).contains(c.pending[k]));
}

/// Offering an event over links: for each link, the far end has seen the
/// forcing already or an event that carries it there is pending afterwards.
#[verifier::rlimit(30)]
proof fn lemma_propagated_carries(c: Circuit, e: LineStateEvent, links: Seq<Link>, j: int)
    requires
        c.wf(),
        can_propagate(c, e, links),
        0 <= j < links.len(),
    ensures
        c.wire(links[j].linked_to).has_seen(e) || carries(
            c.propagated(e, links).pending,
            e,
            links[j].linked_to,
            c.tick + links[j].delay.0,
            c.events_minted,
        ),
    decreases links.len(),
{
    let front = links.drop_last();
    let last = links.last();
    assert forall|k: int| 0 <= k < front.len() implies c.admits_link(#[trigger] front[k]) && c.tick
        + front[k].delay.0 <= u64::MAX by {
        assert(front[k] == links[k]);
    }
    lemma_propagated_wf(c, e, front);
    let mid = c.propagated(e, front);
    let after = c.propagated(e, links);
    assert(last == links[links.len() - 1]);
    let id = (mid.events_minted + 1) as u64;
    let fresh = LineStateEvent {
        node: last.linked_to,
        new_state: e.new_state,
        time: (mid.tick + last.delay.0) as u64,
        id,
        forcer: e.forcer,
        force_id: e.force_id,
    };
    if j < front.len() {
        lemma_propagated_carries(c, e, front, j);
        assert(front[j] == links[j]);
        if !c.wire(links[j].linked_to).has_seen(e) {
            let x = choose|x: LineStateEvent|
                {
                    &&& #[trigger] mid.pending.contains(x)
                    &&& x.node == links[j].linked_to
                    &&& x.new_state == e.new_state
                    &&& x.time == c.tick + links[j].delay.0
                    &&& x.forcer == e.forcer
                    &&& x.force_id == e.force_id
                    &&& x.id > c.events_minted
                };
            if !mid.wire(last.linked_to).has_seen(e) {
                lemma_posted_keeps(
                    mid,
                    last.linked_to,
                    e.new_state,
                    (mid.tick + last.delay.0) as u64,
                    e.forcer,
                    e.force_id,
                    x,
                );
            }
            assert(after.pending.contains(x));
        }
    } else {
        if !c.wire(last.linked_to).has_seen(e) {
            lemma_scheduled_members(mid.pending, fresh);
            lemma_slot(mid.pending, fresh);
            assert(after.pending[slot(mid.pending, fresh)] == fresh);
            assert(after.pending.contains(fresh));
        }
    }
}

/// An event that is delivered crosses every link of its target. For each
/// link of the target, with delay d, the node at the far end has seen the
/// event's forcing by the time the event has struck, or an event with the
/// same forcer, force id and state is pending for it after the delivery,
/// due exactly d ticks after the delivered one.
#[verifier::rlimit(30)]
pub proof fn lemma_delivery_crosses_links(c: Circuit, j: int)
    requires
        c.wf(),
        c.can_deliver(),
        !c.quiescent(),
        0 <= j < c.wire(c.next().node).links.len(),
    ensures
        ({
            let e = c.next();
            let link = c.wire(e.node).links[j];
            c.arrived().wire(link.linked_to).has_seen(e) || carries(
                c.delivered().pending,
                e,
                link.linked_to,
                e.time + link.delay.0,
                c.events_minted,
            )
        }),
        ({
            let e = c.next();
            let link = c.wire(e.node).links[j];
            link.linked_to != e.node ==> c.arrived().wire(link.linked_to).has_seen(e) == c.wire(
                link.linked_to,
            ).has_seen(e)
        }),
{
    let e = c.next();
    let d = c.popped();
    lemma_can_relay(c);
    lemma_struck_wf(d, e);
    lemma_played_wf(d, e);
    let a = c.arrived();
    let links = a.wire(e.node).links;
    assert(links == c.wire(e.node).links);
    assert(a.wire_wf(a.nodes[e.node.0 as int]));
    let link = links[j];
    lemma_propagated_carries(a, e, links, j);
    let b = c.relayed();
    assert(c.wire_wf(c.nodes[e.node.0 as int]));
    assert(c.admits_link(link));
    if !a.wire(link.linked_to).has_seen(e) {
        let x = choose|x: LineStateEvent|
            {
                &&& #[trigger] b.pending.contains(x)
                &&& x.node == link.linked_to
                &&& x.new_state == e.new_state
                &&& x.time == e.time + link.delay.0
                &&& x.forcer == e.forcer
                &&& x.force_id == e.force_id
                &&& x.id > a.events_minted
            };
        match c.wire(e.node).owner {
            Some(ei) => {
                assert(c.nodes[e.node.0 as int].owner == Some(ei));
                match b.elements[ei.0 as int].wants(b) {
                    Some(w) => {
                        if b.wire(w.node).output_state != w.state {
                            let force_id = (b.forces_minted + 1) as u64;
                            let mid = Circuit {
                                nodes: b.nodes.update(w.node.0 as int, b.wire(w.node).driven(w.state)),
                                forces_minted: force_id,
                                ..b
                            };
                            lemma_posted_keeps(mid, w.node, w.state, (b.tick + 0) as u64, w.node, force_id, x);
                        }
                    },
                    None => {},
                }
            },
            None => {},
        }
        assert(c.delivered().pending.contains(x));
    }
}

/// What offering an event over links adds to the queue: nothing but
/// crossings. Whatever is pending afterwards and was not before carries
/// the forcing of the event to the far end of one of the links, and that
/// node had not seen the forcing.
proof fn lemma_propagated_posts_crossings(c: Circuit, e: LineStateEvent, links: Seq<Link>, x: LineStateEvent)
    requires
        c.wf(),
        can_propagate(c, e, links),
        c.propagated(e, links).pending.contains(x),
        !c.pending.contains(x),
    ensures
        !c.wire(x.node).has_seen(e),
        x.new_state == e.new_state && x.forcer == e.forcer && x.force_id == e.force_id,
        x.id > c.events_minted,
        exists|j: int| 0 <= j < links.len() && (#[trigger] links[j]).linked_to == x.node && x.time == c.tick
            + links[j].delay.0,
    decreases links.len(),
{
    let front = links.drop_last();
    let last = links.last();
    assert forall|k: int| 0 <= k < front.len() implies c.admits_link(#[trigger] front[k]) && c.tick
        + front[k].delay.0 <= u64::MAX by {
        assert(front[k] == links[k]);
    }
    lemma_propagated_wf(c, e, front);
    let mid = c.propagated(e, front);
    assert(last == links[links.len() - 1]);
    if mid.pending.contains(x) {
        lemma_propagated_posts_crossings(c, e, front, x);
        let j = choose|j: int|
            0 <= j < front.len() && (#[trigger] front[j]).linked_to == x.node && x.time == c.tick
                + front[j].delay.0;
        assert(links[j] == front[j]);
    } else {
        let fresh = LineStateEvent {
            node: last.linked_to,
            new_state: e.new_state,
            time: (mid.tick + last.delay.0) as u64,
            id: (mid.events_minted + 1) as u64,
            forcer: e.forcer,
            force_id: e.force_id,
        };
        lemma_scheduled_members(mid.pending, fresh);
        assert(x == fresh);
    }
}

/// An event that is played reaches no node that has seen its forcing, and
/// touches no node but its target. Whatever is pending after the event was
/// played and was not before is a crossing: it carries the forcing of the
/// event over a link of the target, after the delay of the link, to a node
/// that had not seen the forcing when the event struck. And every node but
/// the target is as it was.
pub proof fn lemma_played_posts_crossings(c: Circuit, e: LineStateEvent, x: LineStateEvent, n: NodeIndex)
    requires
        c.wf(),
        can_play_event(c, e),
    ensures
        c.played(e).pending.contains(x) && !c.pending.contains(x) ==> {
            &&& !c.struck(e).wire(x.node).has_seen(e)
            &&& x.new_state == e.new_state && x.forcer == e.forcer && x.force_id == e.force_id
            &&& x.id > c.events_minted
            &&& exists|j: int|
                0 <= j < c.wire(e.node).links.len() && (#[trigger] c.wire(e.node).links[j]).linked_to
                    == x.node && x.time == e.time + c.wire(e.node).links[j].delay.0
        },
        c.has_node(n) && n != e.node ==> c.played(e).wire(n) == c.wire(n),
        c.stale(e) ==> c.played(e).nodes =~= c.nodes,
{
    let a = c.struck(e);
    lemma_struck_wf(c, e);
    lemma_played_wf(c, e);
    let links = a.wire(e.node).links;
    assert(links == c.wire(e.node).links);
    assert(a.wire_wf(a.nodes[e.node.0 as int]));
    if c.played(e).pending.contains(x) && !c.pending.contains(x) {
        lemma_propagated_posts_crossings(a, e, links, x);
    }
}

/// Only the element that owns the target of an event is stepped when the
/// event is delivered, and it is stepped after the event has struck and
/// was offered over the links. If no element owns the target, the delivery
/// ends with the propagation. And a node whose driven state the delivery
/// changed is owned by the element that owns the target.
pub proof fn lemma_only_the_owner_steps(c: Circuit, n: NodeIndex)
    requires
        c.wf(),
        c.can_deliver(),
        !c.quiescent(),
        c.has_node(n),
    ensures
        c.delivered() == c.relayed().stepped(c.wire(c.next().node).owner),
        c.wire(c.next().node).owner is None ==> c.delivered() == c.relayed(),
        c.delivered().wire(n).output_state != c.wire(n).output_state ==> c.wire(n).owner is Some
            && c.wire(n).owner == c.wire(c.next().node).owner,
{
    let e = c.next();
    lemma_can_relay(c);
    lemma_played_wf(c.popped(), e);
    let b = c.relayed();
    assert(b.nodes[n.0 as int].output_state == c.nodes[n.0 as int].output_state);
    match c.wire(e.node).owner {
        Some(ei) => {
            assert(c.nodes[e.node.0 as int].owner == Some(ei));
            lemma_wants_a_node(b, ei);
            let p = b.elements[ei.0 as int];
            match p.wants(b) {
                Some(w) => {
                    if c.delivered().wire(n).output_state != c.wire(n).output_state {
                        assert(w.node == n);
                        match p {
                            crate::element::Primitive::Nand(g) => {
                                assert(p.claims()[2] == g.output);
                                assert(b.owns(ei.0 as int, b.elements[ei.0 as int].claims()[2]));
                            },
                            crate::element::Primitive::Pin(_) => {},
                            crate::element::Primitive::Constant(k) => {
                                assert(p.claims()[0] == k.node);
                                assert(b.owns(ei.0 as int, b.elements[ei.0 as int].claims()[0]));
                            },
                        }
                        assert(b.wire(n).owner == c.wire(n).owner);
                    }
                },
                None => {},
            }
        },
        None => {},
    }
}

/// Writing to a node the state it is already driven to changes nothing,
/// with a delay or without: no event is created and no id is taken.
pub proof fn lemma_same_write_is_silent(c: Circuit, n: NodeIndex, state: LineState, delta: PropogationDelay)
    requires
        c.wire(n).output_state == state,
    ensures
        c.written(n, state) == c,
        c.written_later(n, state, delta) == c,
{
}

/// A delayed write is a write but for the time at which its event is due:
/// it leaves what a write leaves, with the event of the write due `delta`
/// ticks later.
pub proof fn lemma_delayed_write_is_a_write(c: Circuit, n: NodeIndex, state: LineState, delta: PropogationDelay)
    ensures
        c.written_later(n, state, PropogationDelay(0)) == c.written(n, state),
        c.wire(n).output_state != state ==> c.written_later(n, state, delta) == c.forced_later(
            n,
            state,
            delta,
        ) && c.written(n, state) == c.forced_later(n, state, PropogationDelay(0)),
{
}

/// Writing the same state twice in a row does what writing it once does,
/// with a delay or without. So the two writes together create at most one
/// event.
pub proof fn lemma_second_write_is_silent(
    c: Circuit,
    n: NodeIndex,
    state: LineState,
    first: PropogationDelay,
    second: PropogationDelay,
)
    requires
        c.has_node(n),
    ensures
        c.written(n, state).written(n, state) == c.written(n, state),
        c.written_later(n, state, first).written_later(n, state, second) == c.written_later(
            n,
            state,
            first,
        ),
        c.written(n, state).pending.len() <= c.pending.len() + 1,
        c.written_later(n, state, first).pending.len() <= c.pending.len() + 1,
{
    if c.wire(n).output_state != state {
        let force_id = (c.forces_minted + 1) as u64;
        let id = (c.events_minted + 1) as u64;
        let e = LineStateEvent {
            node: n,
            new_state: state,
            time: (c.tick + 0) as u64,
            id,
            forcer: n,
            force_id,
        };
        lemma_scheduled_members(c.pending, e);
        let later = LineStateEvent { time: (c.tick + first.0) as u64, ..e };
        lemma_scheduled_members(c.pending, later);
    }
}

/// Whether the instant of event `e` lies behind circuit `c`: time has
/// reached it, its id has been minted, and everything pending is due
/// strictly after it.
pub open spec fn behind(c: Circuit, e: LineStateEvent) -> bool {
    &&& e.time <= c.tick
    &&& e.id <= c.events_minted
    &&& forall|i: int| 0 <= i < c.pending.len() ==> e.before(#[trigger] c.pending[i])
}

/// Posting an event that is due no earlier than now keeps behind what was
/// behind.
proof fn lemma_posted_behind(
    c: Circuit,
    e: LineStateEvent,
    node: NodeIndex,
    state: LineState,
    time: u64,
    forcer: NodeIndex,
    force_id: u64,
)
    requires
        behind(c, e),
        time >= c.tick,
        c.events_minted < u64::MAX,
    ensures
        behind(c.posted(node, state, time, forcer, force_id), e),
{
    let id = (c.events_minted + 1) as u64;
    let x = LineStateEvent { node, new_state: state, time, id, forcer, force_id };
    let r = c.posted(node, state, time, forcer, force_id);
    lemma_scheduled_members(c.pending, x);
    assert forall|i: int| 0 <= i < r.pending.len() implies e.before(#[trigger] r.pending[i]) by {
        let y = r.pending[i];
        assert(r.pending.contains(y));
        if y != x {
            let k = choose|k: int| 0 <= k < c.pending.len() && c.pending[k] == y;
            assert(e.before(c.pending[k]));
        }
    }
}

/// A write never schedules anything at or before an instant that lies
/// behind the circuit.
pub proof fn lemma_write_keeps_behind(
    c: Circuit,
    e: LineStateEvent,
    n: NodeIndex,
    state: LineState,
    delta: PropogationDelay,
)
    requires
        behind(c, e),
        c.can_force_later(n, delta),
    ensures
        behind(c.forced_later(n, state, delta), e),
        behind(c.written_later(n, state, delta), e),
        c.can_write(n, state) ==> behind(c.written(n, state), e),
{
    let force_id = (c.forces_minted + 1) as u64;
    let mid = Circuit {
        nodes: c.nodes.update(n.0 as int, c.wire(n).driven(state)),
        forces_minted: force_id,
        ..c
    };
    lemma_posted_behind(mid, e, n, state, (c.tick + delta.0) as u64, n, force_id);
    if c.can_write(n, state) && c.wire(n).output_state != state {
        lemma_posted_behind(mid, e, n, state, (c.tick + 0) as u64, n, force_id);
    }
}

/// Offering an event over links keeps behind what was behind.
proof fn lemma_propagated_behind(c: Circuit, x: LineStateEvent, e: LineStateEvent, links: Seq<Link>)
    requires
        c.wf(),
        can_propagate(c, e, links),
        behind(c, x),
    ensures
        behind(c.propagated(e, links), x),
    decreases links.len(),
{
    if links.len() > 0 {
        let front = links.drop_last();
        let last = links.last();
        assert forall|k: int| 0 <= k < front.len() implies c.admits_link(#[trigger] front[k]) && c.tick
            + front[k].delay.0 <= u64::MAX by {
            assert(front[k] == links[k]);
        }
        lemma_propagated_wf(c, e, front);
        lemma_propagated_behind(c, x, e, front);
        let mid = c.propagated(e, front);
        assert(last == links[links.len() - 1]);
        if !mid.wire(last.linked_to).has_seen(e) {
            lemma_posted_behind(
                mid,
                x,
                last.linked_to,
                e.new_state,
                (mid.tick + last.delay.0) as u64,
                e.forcer,
                e.force_id,
            );
        }
    }
}

/// Once an event is delivered, its instant lies behind the circuit.
pub proof fn lemma_delivered_is_behind(c: Circuit)
    requires
        c.wf(),
        c.can_deliver(),
        !c.quiescent(),
    ensures
        behind(c.delivered(), c.next()),
        c.delivered().events_minted >= c.events_minted,
        c.delivered().tick >= c.tick,
{
    assert(c.admits(c.pending[0]));
    let e = c.next();
    let d = c.popped();
    lemma_popped_wf(c);
    lemma_can_relay(c);
    lemma_struck_wf(d, e);
    lemma_played_wf(d, e);
    let a = c.arrived();
    assert(behind(a, e));
    let links = a.wire(e.node).links;
    assert(links == c.wire(e.node).links);
    assert(a.wire_wf(a.nodes[e.node.0 as int]));
    lemma_propagated_behind(a, e, e, links);
    let b = c.relayed();
    match c.wire(e.node).owner {
        Some(ei) => {
            assert(c.nodes[e.node.0 as int].owner == Some(ei));
            lemma_wants_a_node(b, ei);
            match b.elements[ei.0 as int].wants(b) {
                Some(w) => {
                    lemma_write_keeps_behind(b, e, w.node, w.state, PropogationDelay(0));
                },
                None => {},
            }
        },
        None => {},
    }
}

/// A turn of the event loop keeps behind what was behind.
pub proof fn lemma_delivery_keeps_behind(c: Circuit, x: LineStateEvent)
    requires
        c.wf(),
        c.can_deliver(),
        behind(c, x),
    ensures
        behind(c.delivered(), x),
{
    if !c.quiescent() {
        let e = c.next();
        lemma_delivered_is_behind(c);
        let r = c.delivered();
        assert(x.before(c.pending[0]));
        assert forall|i: int| 0 <= i < r.pending.len() implies x.before(#[trigger] r.pending[i]) by {
            assert(e.before(r.pending[i]));
        }
    }
}

/// Any action keeps the circuit well formed, and keeps behind what was
/// behind.
pub proof fn lemma_action(c: Circuit, x: LineStateEvent, a: Action)
    requires
        c.wf(),
        c.can_take(a),
    ensures
        c.taken(a).wf(),
        behind(c, x) ==> behind(c.taken(a), x),
{
    match a {
        Action::Deliver => {
            lemma_delivered_wf(c);
            if behind(c, x) {
                lemma_delivery_keeps_behind(c, x);
            }
        },
        Action::Write { node, state } => {
            lemma_written_wf(c, node, state);
            if behind(c, x) && c.wire(node).output_state != state {
                lemma_write_keeps_behind(c, x, node, state, PropogationDelay(0));
            }
        },
        Action::WriteLater { node, state, delta } => {
            if c.wire(node).output_state != state {
                lemma_forced_later_wf(c, node, state, delta);
                if behind(c, x) {
                    lemma_write_keeps_behind(c, x, node, state, delta);
                }
            }
        },
    }
}

/// Following a script keeps the circuit well formed.
pub proof fn lemma_followed_wf(c: Circuit, script: Seq<Action>)
    requires
        c.wf(),
        c.can_follow(script),
    ensures
        c.followed(script).wf(),
    decreases script.len(),
{
    if script.len() > 0 {
        let front = script.drop_last();
        lemma_can_follow_prefix(c, script, front.len() as int);
        lemma_followed_wf(c, front);
        assert(script.subrange(0, script.len() - 1) =~= front);
        assert(c.followed(script.subrange(0, script.len() - 1)).can_take(script[script.len() - 1]));
        lemma_action(c.followed(front), c.next(), script.last());
    }
}

/// A script that can be followed can be followed up to any point.
proof fn lemma_can_follow_prefix(c: Circuit, script: Seq<Action>, upto: int)
    requires
        c.can_follow(script),
        0 <= upto <= script.len(),
    ensures
        c.can_follow(script.subrange(0, upto)),
{
    let front = script.subrange(0, upto);
    assert forall|k: int| 0 <= k < front.len() implies (#[trigger] c.followed(front.subrange(0, k))).can_take(
        front[k],
    ) by {
        assert(front.subrange(0, k) =~= script.subrange(0, k));
        assert(c.followed(script.subrange(0, k)).can_take(script[k]));
    }
}

/// What lies behind the circuit after the first `from` actions of a script
/// lies behind it after any more of them.
proof fn lemma_behind_follows(c: Circuit, x: LineStateEvent, script: Seq<Action>, from: int, to: int)
    requires
        c.wf(),
        c.can_follow(script),
        0 <= from <= to <= script.len(),
        behind(c.followed(script.subrange(0, from)), x),
    ensures
        behind(c.followed(script.subrange(0, to)), x),
    decreases to - from,
{
    if from < to {
        lemma_behind_follows(c, x, script, from, to - 1);
        let front = script.subrange(0, to - 1);
        lemma_can_follow_prefix(c, script, to - 1);
        lemma_followed_wf(c, front);
        assert(c.followed(front).can_take(script[to - 1]));
        assert(script.subrange(0, to).drop_last() =~= front);
        assert(script.subrange(0, to).last() == script[to - 1]);
        lemma_action(c.followed(front), x, script[to - 1]);
    }
}

/// Events are delivered in the order of their time, and events of one time
/// in the order of their ids, whatever is written in between. Of two turns
/// of the event loop in a script of turns and writes, the earlier turn
/// delivers the event that is strictly before the other.
pub proof fn lemma_order_of_deliveries(c: Circuit, script: Seq<Action>, i: int, j: int)
    requires
        c.wf(),
        c.can_follow(script),
        0 <= i < j < script.len(),
        script[i] is Deliver,
        script[j] is Deliver,
        !c.followed(script.subrange(0, i)).quiescent(),
        !c.followed(script.subrange(0, j)).quiescent(),
    ensures
        c.followed(script.subrange(0, i)).next().before(c.followed(script.subrange(0, j)).next()),
{
    let at_i = c.followed(script.subrange(0, i));
    let at_j = c.followed(script.subrange(0, j));
    lemma_can_follow_prefix(c, script, i);
    lemma_followed_wf(c, script.subrange(0, i));
    assert(at_i.can_take(script[i]));
    lemma_delivered_is_behind(at_i);
    assert(script.subrange(0, i + 1).drop_last() =~= script.subrange(0, i));
    assert(script.subrange(0, i + 1).last() == script[i]);
    assert(c.followed(script.subrange(0, i + 1)) == at_i.delivered());
    lemma_behind_follows(c, at_i.next(), script, i + 1, j);
    assert(at_i.next().before(at_j.pending[0]));
}

/// Whether each of the first `n` turns of the event loop stays within the
/// range of ids and of time.
pub open spec fn can_run(c: Circuit, n: nat) -> bool {
    forall|k: nat| k < n ==> (#[trigger] c.run(k)).can_deliver()
}

/// Running the event loop keeps the circuit well formed.
pub proof fn lemma_run_wf(c: Circuit, n: nat)
    requires
        c.wf(),
        can_run(c, n),
    ensures
        c.run(n).wf(),
    decreases n,
{
    if n > 0 {
        lemma_run_wf(c, (n - 1) as nat);
        assert(c.run((n - 1) as nat).can_deliver());
        lemma_delivered_wf(c.run((n - 1) as nat));
    }
}

/// Events are delivered in the order of their time, and events of one time
/// in the order of their ids: of two deliveries, the earlier one delivers
/// the event that is strictly before the other.
pub proof fn lemma_delivery_order(c: Circuit, i: nat, j: nat)
    requires
        c.wf(),
        i < j,
        can_run(c, j),
        !c.run(j).quiescent(),
    ensures
        !c.run(i).quiescent(),
        c.delivery(i).before(c.delivery(j)),
{
    lemma_run_quiet_stays(c, i, j);
    lemma_run_wf(c, i);
    assert(c.run(i).can_deliver());
    lemma_delivered_is_behind(c.run(i));
    assert(c.run(i + 1) == c.run(i).delivered());
    lemma_behind_stays(c, c.delivery(i), i + 1, j);
    assert(c.delivery(i).before(c.run(j).pending[0]));
}

/// What lies behind the circuit after `from` turns lies behind it after
/// any later turn.
proof fn lemma_behind_stays(c: Circuit, x: LineStateEvent, from: nat, to: nat)
    requires
        c.wf(),
        from <= to,
        can_run(c, to),
        behind(c.run(from), x),
    ensures
        behind(c.run(to), x),
    decreases to - from,
{
    if from < to {
        lemma_behind_stays(c, x, from, (to - 1) as nat);
        lemma_run_wf(c, (to - 1) as nat);
        assert(c.run((to - 1) as nat).can_deliver());
        lemma_delivery_keeps_behind(c.run((to - 1) as nat), x);
    }
}

/// A circuit at rest after `i` turns is still at rest after any later turn.
proof fn lemma_run_quiet_stays(c: Circuit, i: nat, j: nat)
    requires
        i <= j,
        !c.run(j).quiescent(),
    ensures
        !c.run(i).quiescent(),
    decreases j - i,
{
    if i < j {
        lemma_run_quiet_stays(c, i, (j - 1) as nat);
        if c.run(i).quiescent() {
            lemma_rest_is_stable(c.run(i), (j - i) as nat);
            lemma_run_adds(c, i, (j - i) as nat);
        }
    }
}

/// Running `a` turns and then `b` turns is running `a + b` turns.
pub proof fn lemma_run_adds(c: Circuit, a: nat, b: nat)
    ensures
        c.run(a).run(b) == c.run(a + b),
    decreases b,
{
    if b > 0 {
        lemma_run_adds(c, a, (b - 1) as nat);
        assert(c.run(a + b) == c.run((a + b - 1) as nat).delivered());
    }
}

/// Pumping a circuit that is at rest changes nothing, however often the
/// event loop is turned.
pub proof fn lemma_rest_is_stable(c: Circuit, n: nat)
    requires
        c.quiescent(),
    ensures
        c.delivered() == c,
        c.run(n) == c,
    decreases n,
{
    if n > 0 {
        lemma_rest_is_stable(c, (n - 1) as nat);
    }
}

/// The simulation is deterministic. What a session builds and what the
/// event loop does are functions of the model alone: equal circuits that
/// absorb equal sessions are equal afterwards, equal circuits given equal
/// stimuli stay equal, and they deliver the same events in the same order.
pub proof fn lemma_deterministic(
    a: Circuit,
    b: Circuit,
    staged: Netlist,
    node: NodeIndex,
    state: LineState,
    delta: PropogationDelay,
    turns: nat,
    i: nat,
)
    requires
        a == b,
    ensures
        a.absorbed(staged) == b.absorbed(staged),
        a.written(node, state) == b.written(node, state),
        a.written_later(node, state, delta) == b.written_later(node, state, delta),
        a.run(turns) == b.run(turns),
        a.delivery(i) == b.delivery(i),
        a.quiescent() == b.quiescent(),
        a.delivered() == b.delivered(),
        a.delivered().pending == b.delivered().pending,
        a.delivered().tick == b.delivered().tick,
        a.delivered().reading(node) == b.delivered().reading(node),
{
}

} // verus!
