//! The mathematical model of a live simulation, and the transitions that the
//! simulator's operations perform on it.

use vstd::prelude::*;
use crate::element::{Demand, Primitive};
use crate::node::Wire;
use crate::queue::{scheduled, strictly_ordered};
use crate::sim::{ElementIndex, LineState, LineStateEvent, Link, NodeIndex, PropogationDelay};

verus! {

/// One thing that happens to a simulation: a turn of the event loop, or a
/// stimulus from outside.
pub enum Action {
    /// One turn of the event loop.
    Deliver,
    /// A write to a node.
    Write { node: NodeIndex, state: LineState },
    /// A delayed write to a node.
    WriteLater { node: NodeIndex, state: LineState, delta: PropogationDelay },
}

/// The state of a simulation.
pub struct Circuit {
    /// The nodes, by index.
    pub nodes: Seq<Wire>,
    /// The pending events, the next one to deliver first.
    pub pending: Seq<LineStateEvent>,
    /// The time of the latest delivery.
    pub tick: u64,
    /// The elements, by index.
    pub elements: Seq<Primitive>,
    /// The id of the latest event created.
    pub events_minted: u64,
    /// The id of the latest link laid.
    pub links_minted: u64,
    /// The id of the latest forcing started.
    pub forces_minted: u64,
}

impl Circuit {
    /// A simulation with no nodes, at time zero.
    pub open spec fn empty() -> Circuit {
        Circuit {
            nodes: Seq::empty(),
            pending: Seq::empty(),
            tick: 0,
            elements: Seq::empty(),
            events_minted: 0,
            links_minted: 0,
            forces_minted: 0,
        }
    }

    /// Whether `n` names a node of this circuit.
    pub open spec fn has_node(self, n: NodeIndex) -> bool {
        n.0 < self.nodes.len()
    }

    /// The node that `n` names.
    pub open spec fn wire(self, n: NodeIndex) -> Wire {
        self.nodes[n.0 as int]
    }

    /// The state a reader observes on node `n`.
    pub open spec fn reading(self, n: NodeIndex) -> LineState {
        self.wire(n).reading()
    }

    /// Whether the circuit has come to rest: nothing is pending.
    pub open spec fn quiescent(self) -> bool {
        self.pending.len() == 0
    }

    // ------------------------------------------------------------------
    // Well-formedness
    // ------------------------------------------------------------------

    /// A pending event must target a node of the circuit, must not be due in
    /// the past, and must carry ids that have been minted.
    pub open spec fn admits(self, e: LineStateEvent) -> bool {
        &&& self.has_node(e.node)
        &&& e.time >= self.tick
        &&& e.id <= self.events_minted
        &&& e.force_id <= self.forces_minted
    }

    /// The pending events are strictly ordered and each is admitted.
    pub open spec fn queue_wf(self) -> bool {
        &&& strictly_ordered(self.pending)
        &&& forall|i: int| 0 <= i < self.pending.len() ==> self.admits(#[trigger] self.pending[i])
    }

    /// A link end must lead to a node of the circuit and carry a minted id.
    pub open spec fn admits_link(self, link: Link) -> bool {
        self.has_node(link.linked_to) && link.id <= self.links_minted
    }

    /// The node `w` fits this circuit.
    pub open spec fn wire_wf(self, w: Wire) -> bool {
        &&& w.wf()
        &&& forall|j: int| 0 <= j < w.links.len() ==> self.admits_link(#[trigger] w.links[j])
        &&& forall|f: NodeIndex| #[trigger]
            w.influences.contains_key(f) ==> w.influences[f].force_id <= self.forces_minted
    }

    /// Element `ei` owns node `n`.
    pub open spec fn owns(self, ei: int, n: NodeIndex) -> bool {
        self.has_node(n) && self.wire(n).owner == Some(ElementIndex(ei as usize))
    }

    /// Ownership is mutual: every node that an element claims records that
    /// element as its owner, and every owner recorded on a node is an element
    /// that claims it. So no node is claimed by two elements.
    pub open spec fn ownership_wf(self) -> bool {
        &&& forall|ei: int, k: int|
            0 <= ei < self.elements.len() && 0 <= k < self.elements[ei].claims().len()
                ==> self.owns(ei, #[trigger] self.elements[ei].claims()[k])
        &&& forall|n: int|
            0 <= n < self.nodes.len() ==> match (#[trigger] self.nodes[n]).owner {
                Some(ei) => ei.0 < self.elements.len() && self.elements[ei.0 as int].claims().contains(
                    NodeIndex(n as usize),
                ),
                None => true,
            }
    }

    /// The end that pairs with `link` when `link` lies on node `n`: it leads
    /// back to `n`, with the same delay and the same id.
    pub open spec fn partner(n: int, link: Link) -> Link {
        Link { linked_to: NodeIndex(n as usize), delay: link.delay, id: link.id }
    }

    /// Adjacency is symmetric: every link end on a node has its partner on
    /// the node it leads to.
    pub open spec fn adjacency_wf(self) -> bool {
        forall|n: int, j: int|
            0 <= n < self.nodes.len() && 0 <= j < self.nodes[n].links.len() ==> self.wire(
                self.nodes[n].links[j].linked_to,
            ).links.contains(Self::partner(n, #[trigger] self.nodes[n].links[j]))
    }

    /// The invariant of a simulation.
    pub open spec fn wf(self) -> bool {
        &&& self.nodes.len() <= usize::MAX
        &&& self.elements.len() <= usize::MAX
        &&& forall|n: int| 0 <= n < self.nodes.len() ==> self.wire_wf(#[trigger] self.nodes[n])
        &&& self.queue_wf()
        &&& self.ownership_wf()
        &&& self.adjacency_wf()
    }

    // ------------------------------------------------------------------
    // Writing
    // ------------------------------------------------------------------

    /// This circuit with one more pending event, under a fresh event id.
    pub open spec fn posted(
        self,
        node: NodeIndex,
        state: LineState,
        time: u64,
        forcer: NodeIndex,
        force_id: u64,
    ) -> Circuit {
        let id = (self.events_minted + 1) as u64;
        let e = LineStateEvent { node, new_state: state, time, id, forcer, force_id };
        Circuit { pending: scheduled(self.pending, e), events_minted: id, ..self }
    }

    /// Whether node `n` can begin to force itself, effective `delta` ticks
    /// from now, without running out of ids or of time.
    pub open spec fn can_force_later(self, n: NodeIndex, delta: PropogationDelay) -> bool {
        &&& self.has_node(n)
        &&& self.events_minted < u64::MAX
        &&& self.forces_minted < u64::MAX
        &&& self.tick + delta.0 <= u64::MAX
    }

    /// This circuit after node `n` began to force itself to `state`,
    /// effective `delta` ticks from now: the node records the state, and an
    /// event in which the node forces itself, under a fresh force id, is
    /// pending.
    pub open spec fn forced_later(self, n: NodeIndex, state: LineState, delta: PropogationDelay) -> Circuit {
        let force_id = (self.forces_minted + 1) as u64;
        Circuit {
            nodes: self.nodes.update(n.0 as int, self.wire(n).driven(state)),
            forces_minted: force_id,
            ..self
        }.posted(n, state, (self.tick + delta.0) as u64, n, force_id)
    }

    /// Whether node `n` can be written to `state`, effective `delta` ticks
    /// from now: the node exists, and unless it is driven to that state
    /// already, there is room for the ids and the time that the write takes.
    pub open spec fn can_write_later(self, n: NodeIndex, state: LineState, delta: PropogationDelay) -> bool {
        &&& self.has_node(n)
        &&& self.wire(n).output_state != state ==> self.can_force_later(n, delta)
    }

    /// This circuit after node `n` was driven to `state`, effective `delta`
    /// ticks from now: unchanged when the node is already driven to that
    /// state, else the node forces itself to it.
    pub open spec fn written_later(self, n: NodeIndex, state: LineState, delta: PropogationDelay) -> Circuit {
        if self.wire(n).output_state == state {
            self
        } else {
            self.forced_later(n, state, delta)
        }
    }

    /// Whether node `n` can be written to `state` now.
    pub open spec fn can_write(self, n: NodeIndex, state: LineState) -> bool {
        self.can_write_later(n, state, PropogationDelay(0))
    }

    /// This circuit after node `n` was driven to `state`: what a delayed
    /// write with no delay leaves.
    pub open spec fn written(self, n: NodeIndex, state: LineState) -> Circuit {
        self.written_later(n, state, PropogationDelay(0))
    }

    /// Whether the demand `w` of an element can be met.
    pub open spec fn can_obey(self, w: Option<Demand>) -> bool {
        match w {
            Some(d) => self.can_write(d.node, d.state),
            None => true,
        }
    }

    /// This circuit after the demand `w` of an element was met.
    pub open spec fn obeyed(self, w: Option<Demand>) -> Circuit {
        match w {
            Some(d) => self.written(d.node, d.state),
            None => self,
        }
    }

    // ------------------------------------------------------------------
    // Delivering
    // ------------------------------------------------------------------

    /// This circuit after event `e` reached its target: the target has taken
    /// the influence that `e` carries, unless it had already seen it.
    pub open spec fn influenced(self, e: LineStateEvent) -> Circuit {
        Circuit { nodes: self.nodes.update(e.node.0 as int, self.wire(e.node).imposed(e)), ..self }
    }

    /// This circuit after time has advanced to event `e` and `e` has reached
    /// its target.
    pub open spec fn struck(self, e: LineStateEvent) -> Circuit {
        Circuit { tick: e.time, ..self }.influenced(e)
    }

    /// Whether event `e` comes too late to act on its target: the target has
    /// already seen the forcing that it carries, or a newer one from the
    /// same forcer.
    pub open spec fn stale(self, e: LineStateEvent) -> bool {
        self.wire(e.node).has_seen(e)
    }

    /// This circuit after event `e` was played. Time advances to the event,
    /// the event strikes its target, which takes the influence unless it
    /// has seen it, and the event is offered over each link of the target,
    /// in the order the links were laid.
    pub open spec fn played(self, e: LineStateEvent) -> Circuit {
        let a = self.struck(e);
        a.propagated(e, a.wire(e.node).links)
    }

    /// The event that is delivered next. Meaningful when something is pending.
    pub open spec fn next(self) -> LineStateEvent {
        self.pending[0]
    }

    /// This circuit without its next event.
    pub open spec fn popped(self) -> Circuit {
        Circuit { pending: self.pending.drop_first(), ..self }
    }

    /// This circuit after event `e` was offered over `link`: the node at the
    /// far end gets an event with the same forcing, due after the link's
    /// delay, unless it has already seen that forcing.
    pub open spec fn forwarded(self, e: LineStateEvent, link: Link) -> Circuit {
        if self.wire(link.linked_to).has_seen(e) {
            self
        } else {
            self.posted(
                link.linked_to,
                e.new_state,
                (self.tick + link.delay.0) as u64,
                e.forcer,
                e.force_id,
            )
        }
    }

    /// This circuit after event `e` was offered over each of `links`, in order.
    pub open spec fn propagated(self, e: LineStateEvent, links: Seq<Link>) -> Circuit
        decreases links.len(),
    {
        if links.len() == 0 {
            self
        } else {
            self.propagated(e, links.drop_last()).forwarded(e, links.last())
        }
    }

    /// This circuit after the element `owner`, if there is one, was stepped.
    pub open spec fn stepped(self, owner: Option<ElementIndex>) -> Circuit {
        match owner {
            Some(ei) => self.obeyed(self.elements[ei.0 as int].wants(self)),
            None => self,
        }
    }

    /// This circuit after its next event has left the queue and struck its
    /// target, before it is offered over any link.
    pub open spec fn arrived(self) -> Circuit {
        self.popped().struck(self.next())
    }

    /// This circuit after the delivery of its next event, without the step
    /// of the element that owns the target.
    pub open spec fn relayed(self) -> Circuit {
        self.popped().played(self.next())
    }

    /// This circuit after one turn of the event loop. At rest nothing
    /// happens. Else the next event leaves the queue, time advances to it,
    /// it strikes its target, it is offered over each link of the target,
    /// and the element that owns the target is stepped.
    pub open spec fn delivered(self) -> Circuit {
        if self.quiescent() {
            self
        } else {
            self.relayed().stepped(self.wire(self.next().node).owner)
        }
    }

    /// Whether the next delivery stays within the range of ids and of time:
    /// each link of the target may mint an event, due after the link's
    /// delay, and the step may mint one more and a force id.
    pub open spec fn can_deliver(self) -> bool {
        !self.quiescent() ==> {
            let e = self.next();
            let links = self.wire(e.node).links;
            &&& self.events_minted + links.len() < u64::MAX
            &&& self.forces_minted < u64::MAX
            &&& forall|j: int| 0 <= j < links.len() ==> e.time + (#[trigger] links[j]).delay.0 <= u64::MAX
        }
    }

    /// The event that the turn of the event loop after `i` turns delivers.
    /// Meaningful when the circuit is not at rest by then.
    pub open spec fn delivery(self, i: nat) -> LineStateEvent {
        self.run(i).next()
    }

    /// Whether action `a` stays within the range of ids and of time, and
    /// names a node of the circuit.
    pub open spec fn can_take(self, a: Action) -> bool {
        match a {
            Action::Deliver => self.can_deliver(),
            Action::Write { node, state } => self.can_write(node, state),
            Action::WriteLater { node, state, delta } => self.can_write_later(node, state, delta),
        }
    }

    /// This circuit after action `a`.
    pub open spec fn taken(self, a: Action) -> Circuit {
        match a {
            Action::Deliver => self.delivered(),
            Action::Write { node, state } => self.written(node, state),
            Action::WriteLater { node, state, delta } => self.written_later(node, state, delta),
        }
    }

    /// This circuit after the actions of `script`, in order.
    pub open spec fn followed(self, script: Seq<Action>) -> Circuit
        decreases script.len(),
    {
        if script.len() == 0 {
            self
        } else {
            self.followed(script.drop_last()).taken(script.last())
        }
    }

    /// Whether every action of `script` can be taken in its turn.
    pub open spec fn can_follow(self, script: Seq<Action>) -> bool {
        forall|k: int|
            0 <= k < script.len() ==> (#[trigger] self.followed(script.subrange(0, k))).can_take(script[k])
    }

    /// This circuit after `n` turns of the event loop.
    pub open spec fn run(self, n: nat) -> Circuit
        decreases n,
    {
        if n == 0 {
            self
        } else {
            self.run((n - 1) as nat).delivered()
        }
    }
}

} // verus!
