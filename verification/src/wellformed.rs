//! The simulator's transitions keep a circuit well formed.

use vstd::prelude::*;
use crate::circuit::Circuit;
use crate::element::Demand;
use crate::queue::{lemma_scheduled_strictly, lemma_slot, slot};
use crate::sim::{ElementIndex, LineState, LineStateEvent, Link, NodeIndex, PropogationDelay};

verus! {

/// Adjacency stays symmetric while the links of the nodes stay as they are,
/// whatever new nodes without links are added.
pub proof fn lemma_adjacency_kept(before: Circuit, after: Circuit)
    requires
        before.wf(),
        before.nodes.len() <= after.nodes.len(),
        forall|n: int| 0 <= n < before.nodes.len() ==> (#[trigger] after.nodes[n]).links == before.nodes[n].links,
        forall|n: int| before.nodes.len() <= n < after.nodes.len() ==> (#[trigger] after.nodes[n]).links.len() == 0,
    ensures
        after.adjacency_wf(),
{
    assert forall|n: int, j: int|
        0 <= n < after.nodes.len() && 0 <= j < after.nodes[n].links.len() implies after.wire(
        after.nodes[n].links[j].linked_to,
    ).links.contains(Circuit::partner(n, #[trigger] after.nodes[n].links[j])) by {
        assert(n < before.nodes.len());
        let link = before.nodes[n].links[j];
        assert(before.wire_wf(before.nodes[n]));
        assert(before.admits_link(link));
        assert(before.wire(link.linked_to).links.contains(Circuit::partner(n, before.nodes[n].links[j])));
        assert(after.nodes[link.linked_to.0 as int].links == before.nodes[link.linked_to.0 as int].links);
    }
}

/// Posting an event for a node of the circuit, due no earlier than now and
/// under a minted force id, keeps the circuit well formed.
pub proof fn lemma_posted_wf(
    c: Circuit,
    node: NodeIndex,
    state: LineState,
    time: u64,
    forcer: NodeIndex,
    force_id: u64,
)
    requires
        c.wf(),
        c.has_node(node),
        time >= c.tick,
        force_id <= c.forces_minted,
        c.events_minted < u64::MAX,
    ensures
        c.posted(node, state, time, forcer, force_id).wf(),
{
    let id = (c.events_minted + 1) as u64;
    let e = LineStateEvent { node, new_state: state, time, id, forcer, force_id };
    let after = c.posted(node, state, time, forcer, force_id);
    let q = c.pending;
    let r = after.pending;
    lemma_slot(q, e);
    let p = slot(q, e);
    assert forall|i: int| 0 <= i < q.len() implies (#[trigger] q[i]).id != e.id by {
        assert(c.admits(q[i]));
    }
    lemma_scheduled_strictly(q, e);
    assert forall|i: int| 0 <= i < r.len() implies after.admits(#[trigger] r[i]) by {
        if i < p {
            assert(c.admits(q[i]));
        } else if i > p {
            assert(c.admits(q[i - 1]));
        }
    }
    assert forall|n: int| 0 <= n < after.nodes.len() implies after.wire_wf(
        #[trigger] after.nodes[n],
    ) by {
        assert(c.wire_wf(c.nodes[n]));
    }
    lemma_adjacency_kept(c, after);
    assert(after.ownership_wf()) by {
        assert(c.ownership_wf());
        assert forall|ei: int, k: int|
            0 <= ei < after.elements.len() && 0 <= k < after.elements[ei].claims().len() implies after.owns(
            ei,
            #[trigger] after.elements[ei].claims()[k],
        ) by {
            assert(c.owns(ei, c.elements[ei].claims()[k]));
        }
    }
}

/// A write that takes effect keeps the circuit well formed.
pub proof fn lemma_forced_later_wf(c: Circuit, n: NodeIndex, state: LineState, delta: PropogationDelay)
    requires
        c.wf(),
        c.can_force_later(n, delta),
    ensures
        c.forced_later(n, state, delta).wf(),
{
    let force_id = (c.forces_minted + 1) as u64;
    let mid = Circuit {
        nodes: c.nodes.update(n.0 as int, c.wire(n).driven(state)),
        forces_minted: force_id,
        ..c
    };
    assert(mid.wf()) by {
        lemma_adjacency_kept(c, mid);
        assert forall|k: int| 0 <= k < mid.nodes.len() implies mid.wire_wf(#[trigger] mid.nodes[k]) by {
            assert(c.wire_wf(c.nodes[k]));
            let w = c.nodes[k];
            assert(forall|j: int| 0 <= j < w.links.len() ==> c.admits_link(#[trigger] w.links[j]));
        }
        assert forall|i: int| 0 <= i < mid.pending.len() implies mid.admits(#[trigger] mid.pending[i]) by {
            assert(c.admits(c.pending[i]));
        }
        assert forall|ei: int, k: int|
            0 <= ei < mid.elements.len() && 0 <= k < mid.elements[ei].claims().len() implies mid.owns(
            ei,
            #[trigger] mid.elements[ei].claims()[k],
        ) by {
            assert(c.owns(ei, c.elements[ei].claims()[k]));
        }
        assert forall|k: int| 0 <= k < mid.nodes.len() implies match (#[trigger] mid.nodes[k]).owner {
            Some(ei) => ei.0 < mid.elements.len() && mid.elements[ei.0 as int].claims().contains(
                NodeIndex(k as usize),
            ),
            None => true,
        } by {
            assert(mid.nodes[k].owner == c.nodes[k].owner);
        }
    }
    lemma_posted_wf(mid, n, state, (c.tick + delta.0) as u64, n, force_id);
}

/// A delayed write keeps the circuit well formed.
pub proof fn lemma_written_later_wf(c: Circuit, n: NodeIndex, state: LineState, delta: PropogationDelay)
    requires
        c.wf(),
        c.can_write_later(n, state, delta),
    ensures
        c.written_later(n, state, delta).wf(),
{
    if c.wire(n).output_state != state {
        lemma_forced_later_wf(c, n, state, delta);
    }
}

/// A write keeps the circuit well formed.
pub proof fn lemma_written_wf(c: Circuit, n: NodeIndex, state: LineState)
    requires
        c.wf(),
        c.can_write(n, state),
    ensures
        c.written(n, state).wf(),
{
    lemma_written_later_wf(c, n, state, PropogationDelay(0));
}

/// Meeting the demand of an element keeps the circuit well formed.
pub proof fn lemma_obeyed_wf(c: Circuit, w: Option<Demand>)
    requires
        c.wf(),
        c.can_obey(w),
    ensures
        c.obeyed(w).wf(),
{
    match w {
        Some(d) => lemma_written_wf(c, d.node, d.state),
        None => {},
    }
}

/// Taking the next event off the queue keeps the circuit well formed; the
/// event was admitted, and every event still pending is due strictly later.
pub proof fn lemma_popped_wf(c: Circuit)
    requires
        c.wf(),
        !c.quiescent(),
    ensures
        c.popped().wf(),
        c.admits(c.next()),
        forall|i: int| 0 <= i < c.popped().pending.len() ==> c.next().before(#[trigger] c.popped().pending[i]),
{
    let e = c.next();
    let after = c.popped();
    lemma_adjacency_kept(c, after);
    assert(c.admits(c.pending[0]));
    assert forall|i: int| 0 <= i < after.pending.len() implies after.admits(#[trigger] after.pending[i])
        && e.before(after.pending[i]) by {
        assert(after.pending[i] == c.pending[i + 1]);
        assert(c.admits(c.pending[i + 1]));
        assert(c.pending[0].before(c.pending[i + 1]));
    }
    assert forall|i: int, j: int| 0 <= i < j < after.pending.len() implies after.pending[i].before(
        after.pending[j],
    ) by {
        assert(c.pending[i + 1].before(c.pending[j + 1]));
    }
    assert forall|k: int| 0 <= k < after.nodes.len() implies after.wire_wf(#[trigger] after.nodes[k]) by {
        assert(c.wire_wf(c.nodes[k]));
    }
    assert forall|ei: int, k: int|
        0 <= ei < after.elements.len() && 0 <= k < after.elements[ei].claims().len() implies after.owns(
        ei,
        #[trigger] after.elements[ei].claims()[k],
    ) by {
        assert(c.owns(ei, c.elements[ei].claims()[k]));
    }
}

/// Whether event `e` can strike now: it targets a node of the circuit,
/// carries a minted force id, and nothing pending is due before it.
pub open spec fn can_strike(c: Circuit, e: LineStateEvent) -> bool {
    &&& c.has_node(e.node)
    &&& e.force_id <= c.forces_minted
    &&& forall|i: int| 0 <= i < c.pending.len() ==> (#[trigger] c.pending[i]).time >= e.time
}

/// The arrival of an event at its target keeps the circuit well formed.
pub proof fn lemma_struck_wf(c: Circuit, e: LineStateEvent)
    requires
        c.wf(),
        can_strike(c, e),
    ensures
        c.struck(e).wf(),
{
    let after = c.struck(e);
    lemma_adjacency_kept(c, after);
    assert forall|i: int| 0 <= i < after.pending.len() implies after.admits(#[trigger] after.pending[i]) by {
        assert(c.admits(c.pending[i]));
    }
    assert forall|k: int| 0 <= k < after.nodes.len() implies after.wire_wf(#[trigger] after.nodes[k]) by {
        assert(c.wire_wf(c.nodes[k]));
        let w = c.nodes[k];
        assert(forall|j: int| 0 <= j < w.links.len() ==> c.admits_link(#[trigger] w.links[j]));
    }
    assert forall|ei: int, k: int|
        0 <= ei < after.elements.len() && 0 <= k < after.elements[ei].claims().len() implies after.owns(
        ei,
        #[trigger] after.elements[ei].claims()[k],
    ) by {
        assert(c.owns(ei, c.elements[ei].claims()[k]));
    }
    assert forall|k: int| 0 <= k < after.nodes.len() implies match (#[trigger] after.nodes[k]).owner {
        Some(ei) => ei.0 < after.elements.len() && after.elements[ei.0 as int].claims().contains(
            NodeIndex(k as usize),
        ),
        None => true,
    } by {
        assert(after.nodes[k].owner == c.nodes[k].owner);
    }
}

/// Offering an event over a link keeps the circuit well formed and touches
/// nothing but the queue and the count of events.
pub proof fn lemma_forwarded_wf(c: Circuit, e: LineStateEvent, link: Link)
    requires
        c.wf(),
        c.admits_link(link),
        e.force_id <= c.forces_minted,
        c.events_minted < u64::MAX,
        c.tick + link.delay.0 <= u64::MAX,
    ensures
        c.forwarded(e, link).wf(),
        c.forwarded(e, link).nodes == c.nodes,
        c.forwarded(e, link).tick == c.tick,
        c.forwarded(e, link).elements == c.elements,
        c.forwarded(e, link).links_minted == c.links_minted,
        c.forwarded(e, link).forces_minted == c.forces_minted,
        c.events_minted <= c.forwarded(e, link).events_minted <= c.events_minted + 1,
{
    if !c.wire(link.linked_to).has_seen(e) {
        lemma_posted_wf(
            c,
            link.linked_to,
            e.new_state,
            (c.tick + link.delay.0) as u64,
            e.forcer,
            e.force_id,
        );
    }
}

/// Whether event `e` can be offered over each of `links` within the range
/// of ids and of time.
pub open spec fn can_propagate(c: Circuit, e: LineStateEvent, links: Seq<Link>) -> bool {
    &&& e.force_id <= c.forces_minted
    &&& c.events_minted + links.len() <= u64::MAX
    &&& forall|j: int| 0 <= j < links.len() ==> c.admits_link(#[trigger] links[j])
    &&& forall|j: int| 0 <= j < links.len() ==> c.tick + (#[trigger] links[j]).delay.0 <= u64::MAX
}

/// Offering an event over a sequence of links keeps the circuit well formed
/// and touches nothing but the queue and the count of events.
pub proof fn lemma_propagated_wf(c: Circuit, e: LineStateEvent, links: Seq<Link>)
    requires
        c.wf(),
        can_propagate(c, e, links),
    ensures
        c.propagated(e, links).wf(),
        c.propagated(e, links).nodes == c.nodes,
        c.propagated(e, links).tick == c.tick,
        c.propagated(e, links).elements == c.elements,
        c.propagated(e, links).links_minted == c.links_minted,
        c.propagated(e, links).forces_minted == c.forces_minted,
        c.events_minted <= c.propagated(e, links).events_minted <= c.events_minted + links.len(),
    decreases links.len(),
{
    if links.len() > 0 {
        let front = links.drop_last();
        assert forall|j: int| 0 <= j < front.len() implies c.admits_link(#[trigger] front[j]) && c.tick
            + front[j].delay.0 <= u64::MAX by {
            assert(front[j] == links[j]);
        }
        lemma_propagated_wf(c, e, front);
        let mid = c.propagated(e, front);
        assert(links.last() == links[links.len() - 1]);
        lemma_forwarded_wf(mid, e, links.last());
    }
}

/// Whether event `e` can be played within the range of ids and of time.
pub open spec fn can_play_event(c: Circuit, e: LineStateEvent) -> bool {
    let links = c.wire(e.node).links;
    &&& can_strike(c, e)
    &&& c.events_minted + links.len() <= u64::MAX
    &&& forall|j: int| 0 <= j < links.len() ==> e.time + (#[trigger] links[j]).delay.0 <= u64::MAX
}

/// Playing an event keeps the circuit well formed; it leaves the nodes as
/// the arrival left them, and mints at most one event for each link of the
/// target.
pub proof fn lemma_played_wf(c: Circuit, e: LineStateEvent)
    requires
        c.wf(),
        can_play_event(c, e),
    ensures
        c.played(e).wf(),
        c.played(e).nodes == c.struck(e).nodes,
        c.played(e).tick == e.time,
        c.played(e).elements == c.elements,
        c.played(e).links_minted == c.links_minted,
        c.played(e).forces_minted == c.forces_minted,
        c.events_minted <= c.played(e).events_minted <= c.events_minted + c.wire(e.node).links.len(),
{
    let a = c.struck(e);
    lemma_struck_wf(c, e);
    let links = a.wire(e.node).links;
    assert(links == c.wire(e.node).links);
    assert(a.wire_wf(a.nodes[e.node.0 as int]));
    lemma_propagated_wf(a, e, links);
}

/// A circuit that can deliver can play its next event once that event has
/// left the queue.
pub proof fn lemma_can_relay(c: Circuit)
    requires
        c.wf(),
        c.can_deliver(),
        !c.quiescent(),
    ensures
        c.popped().wf(),
        can_play_event(c.popped(), c.next()),
{
    lemma_popped_wf(c);
    let e = c.next();
    let d = c.popped();
    assert forall|i: int| 0 <= i < d.pending.len() implies (#[trigger] d.pending[i]).time >= e.time by {
        assert(e.before(d.pending[i]));
    }
}

/// An element of a well-formed circuit wants to drive a node of the circuit.
pub proof fn lemma_wants_a_node(c: Circuit, ei: ElementIndex)
    requires
        c.wf(),
        ei.0 < c.elements.len(),
    ensures
        match c.elements[ei.0 as int].wants(c) {
            Some(d) => c.has_node(d.node),
            None => true,
        },
{
    let p = c.elements[ei.0 as int];
    match p {
        crate::element::Primitive::Nand(g) => {
            assert(p.claims()[2] == g.output);
            assert(c.owns(ei.0 as int, c.elements[ei.0 as int].claims()[2]));
        },
        crate::element::Primitive::Pin(_) => {},
        crate::element::Primitive::Constant(k) => {
            assert(p.claims()[0] == k.node);
            assert(c.owns(ei.0 as int, c.elements[ei.0 as int].claims()[0]));
        },
    }
}

/// One turn of the event loop keeps the circuit well formed.
pub proof fn lemma_delivered_wf(c: Circuit)
    requires
        c.wf(),
        c.can_deliver(),
    ensures
        c.delivered().wf(),
{
    if !c.quiescent() {
        lemma_can_relay(c);
        lemma_played_wf(c.popped(), c.next());
        let b = c.relayed();
        let owner = c.wire(c.next().node).owner;
        match owner {
            Some(ei) => {
                assert(c.nodes[c.next().node.0 as int].owner == Some(ei));
                lemma_wants_a_node(b, ei);
                lemma_obeyed_wf(b, b.elements[ei.0 as int].wants(b));
            },
            None => {},
        }
    }
}

} // verus!
