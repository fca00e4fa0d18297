//! The live simulation: it holds the nodes, the elements and the pending
//! events, and runs the event loop.

use vstd::prelude::*;
use crate::assembly::{lemma_adopted_wf, lemma_claimed_all, lemma_grown, lemma_grown_wf, lemma_linked_wf};
use crate::circuit::Circuit;
use crate::creator::NodeCreator;
use crate::element::{Element, Primitive};
use crate::node::{Node, Wire};
use crate::queue::{lemma_strictly_is_in_order, EventQueue};
use crate::sim::{ElementIndex, Influence, LineState, LineStateEvent, Link, NodeIndex, PropogationDelay};
use crate::wellformed::{
    can_play_event, lemma_can_relay, lemma_forwarded_wf, lemma_played_wf,
    lemma_struck_wf, lemma_wants_a_node, lemma_forced_later_wf,
};

verus! {

/// The failure of a build in which a node was claimed twice.
#[derive(Debug, Clone, Copy, PartialEq, Eq, Structural)]
pub struct NodeDoubleClaim {
    /// The index that the element whose claim clashed would have got.
    pub element: ElementIndex,
}

/// A live simulation.
pub struct NodeCollection {
    pub(crate) nodes: Vec<Node>,
    pub(crate) events: EventQueue,
    pub(crate) current_tick: u64,
    pub(crate) elements: Vec<Primitive>,
    pub(crate) event_id_counter: u64,
    pub(crate) link_id_counter: u64,
    pub(crate) force_id_counter: u64,
}

/// The models of the nodes of `nodes`, by index.
pub open spec fn wires_of(nodes: Seq<Node>) -> Seq<Wire> {
    Seq::new(nodes.len(), |i: int| nodes[i]@)
}

/// Every node of `nodes` is well formed.
pub open spec fn nodes_wf(nodes: Seq<Node>) -> bool {
    forall|i: int| 0 <= i < nodes.len() ==> (#[trigger] nodes[i]).wf()
}

impl View for NodeCollection {
    type V = Circuit;

    closed spec fn view(&self) -> Circuit {
        Circuit {
            nodes: wires_of(self.nodes@),
            pending: self.events@,
            tick: self.current_tick,
            elements: self.elements@,
            events_minted: self.event_id_counter,
            links_minted: self.link_id_counter,
            forces_minted: self.force_id_counter,
        }
    }
}

impl NodeCollection {
    /// The invariant of a simulation: its nodes are well formed and so is
    /// the circuit it models.
    pub closed spec fn wf(&self) -> bool {
        nodes_wf(self.nodes@) && self@.wf()
    }

    /// A well-formed simulation models a well-formed circuit.
    pub proof fn lemma_view_wf(&self)
        requires
            self.wf(),
        ensures
            self@.wf(),
    {
    }

    /// A simulation with no nodes, at time zero.
    pub fn new() -> (c: NodeCollection)
        ensures
            c.wf(),
            c@ == Circuit::empty(),
    {
        let c = NodeCollection {
            nodes: Vec::new(),
            events: EventQueue::new(),
            current_tick: 0,
            elements: Vec::new(),
            event_id_counter: 0,
            link_id_counter: 0,
            force_id_counter: 0,
        };
        assert(c@.nodes =~= Seq::<Wire>::empty());
        c
    }

    /// The number of nodes.
    pub fn node_count(&self) -> (n: usize)
        ensures
            n == self@.nodes.len(),
    {
        self.nodes.len()
    }

    /// The time of the latest delivery.
    pub fn current_tick(&self) -> (t: u64)
        ensures
            t == self@.tick,
    {
        self.current_tick
    }

    /// The number of pending events.
    pub fn pending_count(&self) -> (n: usize)
        ensures
            n == self@.pending.len(),
    {
        self.events.len()
    }

    /// The number of elements.
    pub fn element_count(&self) -> (n: usize)
        ensures
            n == self@.elements.len(),
    {
        self.elements.len()
    }

    /// The `i`-th element.
    pub fn element(&self, i: usize) -> (element: Primitive)
        requires
            i < self@.elements.len(),
        ensures
            element == self@.elements[i as int],
    {
        self.elements[i]
    }

    /// The pending events, in the order of their delivery.
    pub fn pending_events(&self) -> (events: Vec<LineStateEvent>)
        ensures
            events@ == self@.pending,
    {
        let mut events: Vec<LineStateEvent> = Vec::new();
        let mut i: usize = 0;
        while i < self.events.len()
            invariant
                i <= self.events@.len(),
                events@ == self.events@.subrange(0, i as int),
            decreases self.events@.len() - i,
        {
            events.push(self.events.get(i));
            proof {
                assert(events@ =~= self.events@.subrange(0, i as int + 1));
            }
            i = i + 1;
        }
        proof {
            assert(self.events@.subrange(0, self.events@.len() as int) =~= self.events@);
        }
        events
    }

    /// The state that node `n` was last driven to.
    pub fn output_state_of(&self, n: NodeIndex) -> (state: LineState)
        requires
            self@.has_node(n),
        ensures
            state == self@.wire(n).output_state,
    {
        self.nodes[n.get()].output_state()
    }

    /// The element that owns node `n`, if any.
    pub fn owner_of(&self, n: NodeIndex) -> (owner: Option<ElementIndex>)
        requires
            self@.has_node(n),
        ensures
            owner == self@.wire(n).owner,
    {
        self.nodes[n.get()].owner()
    }

    /// The link ends on node `n`, in the order they were laid.
    pub fn links_of(&self, n: NodeIndex) -> (links: Vec<Link>)
        requires
            self@.has_node(n),
        ensures
            links@ == self@.wire(n).links,
    {
        let node = &self.nodes[n.get()];
        let mut links: Vec<Link> = Vec::new();
        let mut i: usize = 0;
        while i < node.link_count()
            invariant
                i <= node@.links.len(),
                links@ == node@.links.subrange(0, i as int),
            decreases node@.links.len() - i,
        {
            links.push(node.link(i));
            proof {
                assert(links@ =~= node@.links.subrange(0, i as int + 1));
            }
            i = i + 1;
        }
        proof {
            assert(node@.links.subrange(0, node@.links.len() as int) =~= node@.links);
        }
        links
    }

    /// What `forcer` currently imposes on node `n`, if anything.
    pub fn influence_on(&self, n: NodeIndex, forcer: NodeIndex) -> (held: Option<Influence>)
        requires
            self.wf(),
            self@.has_node(n),
        ensures
            held == self@.wire(n).held(forcer),
    {
        self.nodes[n.get()].influence_from(forcer)
    }

    /// Queues an event under a fresh event id.
    fn post(&mut self, node: NodeIndex, state: LineState, time: u64, forcer: NodeIndex, force_id: u64)
        requires
            old(self).event_id_counter < u64::MAX,
            old(self).events.wf(),
        ensures
            final(self)@ == old(self)@.posted(node, state, time, forcer, force_id),
            final(self).nodes == old(self).nodes,
            final(self).events.wf(),
    {
        self.event_id_counter = self.event_id_counter + 1;
        self.events.push(
            LineStateEvent {
                node,
                new_state: state,
                time,
                id: self.event_id_counter,
                forcer,
                force_id,
            },
        );
    }

    /// Lets event `e` act on its target.
    fn apply_influence(&mut self, e: &LineStateEvent)
        requires
            nodes_wf(old(self).nodes@),
            old(self)@.has_node(e.node),
        ensures
            nodes_wf(final(self).nodes@),
            final(self)@ == old(self)@.influenced(*e),
    {
        let idx = e.node.get();
        self.nodes[idx].impose(e);
        assert(self@.nodes =~= old(self)@.nodes.update(idx as int, old(self)@.wire(e.node).imposed(*e)));
    }

    /// Plays event `e`: advances time to it, lets it act on its target, and
    /// offers it over each link of the target.
    #[verifier::rlimit(30)]
    fn play_event(&mut self, e: LineStateEvent)
        requires
            old(self).wf(),
            can_play_event(old(self)@, e),
        ensures
            final(self).wf(),
            final(self)@ == old(self)@.played(e),
    {
        self.current_tick = e.time;
        let target = e.node.get();
        self.apply_influence(&e);
        let ghost struck = self@;
        let ghost links = struck.wire(e.node).links;
        proof {
            lemma_struck_wf(old(self)@, e);
            assert(struck == old(self)@.struck(e));
            assert(struck.wire_wf(struck.nodes[e.node.0 as int]));
        }
        let count = self.nodes[target].link_count();
        let mut i: usize = 0;
        while i < count
            invariant
                i <= count,
                count == links.len(),
                target == e.node.0,
                target < self.nodes@.len(),
                self.nodes@[target as int]@.links == links,
                nodes_wf(self.nodes@),
                struck.wf(),
                struck.wire_wf(struck.nodes[e.node.0 as int]),
                self@.wf(),
                self@ == struck.propagated(e, links.subrange(0, i as int)),
                self@.nodes == struck.nodes,
                self@.tick == e.time,
                self@.forces_minted == struck.forces_minted,
                self@.links_minted == struck.links_minted,
                e.force_id <= struck.forces_minted,
                self@.events_minted <= struck.events_minted + i,
                struck.events_minted + links.len() <= u64::MAX,
                forall|j: int| 0 <= j < links.len() ==> e.time + (#[trigger] links[j]).delay.0 <= u64::MAX,
            decreases count - i,
        {
            let link = self.nodes[target].link(i);
            let ghost before = self@;
            proof {
                assert(link == links[i as int]);
                assert(struck.admits_link(links[i as int]));
                assert(links.subrange(0, i as int + 1).drop_last() =~= links.subrange(0, i as int));
                assert(links.subrange(0, i as int + 1).last() == link);
                lemma_forwarded_wf(before, e, link);
            }
            let seen = self.nodes[link.linked_to.get()].has_seen(&e);
            proof {
                lemma_strictly_is_in_order(self@.pending);
            }
            if !seen {
                let due: u64 = self.current_tick + link.delay.get() as u64;
                self.post(link.linked_to, e.new_state, due, e.forcer, e.force_id);
            }
            i = i + 1;
        }
        proof {
            assert(links.subrange(0, count as int) =~= links);
        }
    }

    /// Creates fresh nodes until there are at least `count`.
    fn grow(&mut self, count: usize)
        requires
            nodes_wf(old(self).nodes@),
        ensures
            nodes_wf(final(self).nodes@),
            final(self)@ == old(self)@.grown(count as nat),
    {
        while self.nodes.len() < count
            invariant
                nodes_wf(self.nodes@),
                self.nodes@.len() >= old(self).nodes@.len(),
                self.nodes@.len() <= count || self.nodes@.len() == old(self).nodes@.len(),
                forall|i: int| 0 <= i < old(self).nodes@.len() ==> self.nodes@[i] == old(self).nodes@[i],
                forall|i: int|
                    old(self).nodes@.len() <= i < self.nodes@.len() ==> (#[trigger] self.nodes@[i])@
                        == Wire::fresh(),
                self.events == old(self).events,
                self.current_tick == old(self).current_tick,
                self.elements == old(self).elements,
                self.event_id_counter == old(self).event_id_counter,
                self.link_id_counter == old(self).link_id_counter,
                self.force_id_counter == old(self).force_id_counter,
            decreases count - self.nodes@.len(),
        {
            self.nodes.push(Node::new());
        }
        proof {
            assert(self@.nodes =~= old(self)@.grown(count as nat).nodes);
        }
    }

    /// Whether an element that names `nodes` can join without a double
    /// claim: no node is named twice, and each can still be claimed.
    fn can_claim(&self, nodes: &Vec<NodeIndex>) -> (ok: bool)
        ensures
            ok == (nodes@.no_duplicates() && forall|k: int|
                0 <= k < nodes@.len() ==> self@.claimable(#[trigger] nodes@[k])),
    {
        let mut j: usize = 0;
        while j < nodes.len()
            invariant
                j <= nodes@.len(),
                forall|k: int| 0 <= k < j ==> self@.claimable(#[trigger] nodes@[k]),
                forall|a: int, b: int| 0 <= a < b < j ==> nodes@[a] != nodes@[b],
            decreases nodes@.len() - j,
        {
            let n = nodes[j];
            if n.get() < self.nodes.len() && self.nodes[n.get()].owner().is_some() {
                assert(!self@.claimable(nodes@[j as int]));
                return false;
            }
            let mut i: usize = 0;
            while i < j
                invariant
                    i <= j,
                    j < nodes@.len(),
                    n == nodes@[j as int],
                    forall|a: int| 0 <= a < i ==> nodes@[a] != n,
                decreases j - i,
            {
                if nodes[i] == n {
                    assert(nodes@[i as int] == nodes@[j as int]);
                    return false;
                }
                i = i + 1;
            }
            j = j + 1;
        }
        true
    }

    /// Takes in `elem` as the next element and lets it claim its nodes,
    /// unless that would claim a node twice.
    #[verifier::rlimit(30)]
    fn add_element(&mut self, elem: Primitive) -> (r: Result<(), NodeDoubleClaim>)
        requires
            old(self).wf(),
            old(self)@.elements.len() < usize::MAX,
            forall|k: int| 0 <= k < elem.claims().len() ==> (#[trigger] elem.claims()[k]).0 < usize::MAX,
        ensures
            final(self).wf(),
            old(self)@.can_adopt(elem) ==> r is Ok && final(self)@ == old(self)@.adopted(elem),
            !old(self)@.can_adopt(elem) ==> r == Err::<(), NodeDoubleClaim>(
                NodeDoubleClaim { element: old(self)@.next_element() },
            ) && final(self)@ == old(self)@,
    {
        let element_index = ElementIndex(self.elements.len());
        let nodes = elem.get_nodes();
        if !self.can_claim(&nodes) {
            return Err(NodeDoubleClaim { element: element_index });
        }
        let ghost ns = elem.claims();
        let mut j: usize = 0;
        while j < nodes.len()
            invariant
                j <= nodes@.len(),
                nodes@ == ns,
                forall|k: int| 0 <= k < ns.len() ==> (#[trigger] ns[k]).0 < usize::MAX,
                nodes_wf(self.nodes@),
                self@ == old(self)@.claimed_all(ns.subrange(0, j as int), element_index),
            decreases nodes@.len() - j,
        {
            let n = nodes[j].get();
            let ghost before = self@;
            self.grow(n + 1);
            let ghost grown = self@;
            self.nodes[n].claim(element_index);
            proof {
                lemma_grown(before, (n + 1) as nat);
                assert(self@.nodes =~= grown.nodes.update(
                    n as int,
                    grown.wire(nodes@[j as int]).owned_by(element_index),
                ));
                assert(ns.subrange(0, j as int + 1).drop_last() =~= ns.subrange(0, j as int));
                assert(ns.subrange(0, j as int + 1).last() == ns[j as int]);
            }
            j = j + 1;
        }
        proof {
            assert(ns.subrange(0, ns.len() as int) =~= ns);
        }
        self.elements.push(elem);
        proof {
            lemma_claimed_all(old(self)@, ns, element_index);
            lemma_adopted_wf(old(self)@, elem);
        }
        Ok(())
    }

    /// Lays a link between `a` and `b` under a fresh link id.
    fn link(&mut self, a: NodeIndex, b: NodeIndex, delay: PropogationDelay)
        requires
            old(self).wf(),
            a.0 < usize::MAX,
            b.0 < usize::MAX,
            old(self)@.links_minted < u64::MAX,
        ensures
            final(self).wf(),
            final(self)@ == old(self)@.linked(a, b, delay),
    {
        self.link_id_counter = self.link_id_counter + 1;
        let id = self.link_id_counter;
        self.grow(a.get() + 1);
        self.grow(b.get() + 1);
        let ghost grown = self@;
        proof {
            lemma_grown(old(self)@, (a.0 + 1) as nat);
            lemma_grown(old(self)@.grown((a.0 + 1) as nat), (b.0 + 1) as nat);
        }
        self.nodes[a.get()].join(Link { linked_to: b, delay, id });
        let ghost first = self@.nodes;
        self.nodes[b.get()].join(Link { linked_to: a, delay, id });
        proof {
            assert(first =~= grown.nodes.update(
                a.0 as int,
                grown.wire(a).joined(Link { linked_to: b, delay, id }),
            ));
            assert(self@.nodes =~= first.update(
                b.0 as int,
                first[b.0 as int].joined(Link { linked_to: a, delay, id }),
            ));
            lemma_linked_wf(old(self)@, a, b, delay);
        }
    }

    /// Whether the session `creator` can be absorbed within machine limits.
    #[verifier::loop_isolation(false)]
    pub fn can_absorb(&self, creator: &NodeCreator) -> (ok: bool)
        ensures
            ok == self@.can_absorb(creator@),
    {
        let issued = creator.next_index();
        let element_count = creator.element_count();
        let link_count = creator.link_count();
        if element_count > usize::MAX - self.elements.len() {
            return false;
        }
        if link_count as u64 > u64::MAX - self.link_id_counter {
            return false;
        }
        let mut i: usize = 0;
        while i < element_count
            invariant
                i <= element_count,
                element_count == creator@.elements.len(),
                forall|a: int, k: int|
                    0 <= a < i && 0 <= k < creator@.elements[a].claims().len() ==> (
                    #[trigger] creator@.elements[a].claims()[k]).0 < usize::MAX,
            decreases element_count - i,
        {
            let nodes = creator.element(i).get_nodes();
            let mut k: usize = 0;
            while k < nodes.len()
                invariant
                    k <= nodes@.len(),
                    i < element_count,
                    element_count == creator@.elements.len(),
                    nodes@ == creator@.elements[i as int].claims(),
                    forall|j: int| 0 <= j < k ==> (#[trigger] nodes@[j]).0 < usize::MAX,
                decreases nodes@.len() - k,
            {
                if nodes[k].get() == usize::MAX {
                    assert(creator@.elements[i as int].claims()[k as int].0 == usize::MAX);
                    return false;
                }
                k = k + 1;
            }
            i = i + 1;
        }
        let mut i: usize = 0;
        while i < link_count
            invariant
                i <= link_count,
                link_count == creator@.links.len(),
                forall|a: int|
                    0 <= a < i ==> (#[trigger] creator@.links[a]).0.0 < usize::MAX && creator@.links[a].1.0
                        < usize::MAX,
            decreases link_count - i,
        {
            let (a, b, _) = creator.link_at(i);
            if a.get() == usize::MAX || b.get() == usize::MAX {
                assert(creator@.links[i as int].0.0 == usize::MAX || creator@.links[i as int].1.0
                    == usize::MAX);
                return false;
            }
            i = i + 1;
        }
        true
    }

    /// Whether node `n` can be written to `state`, effective `delta` ticks
    /// from now.
    pub fn can_write_later(&self, n: NodeIndex, state: LineState, delta: PropogationDelay) -> (ok: bool)
        ensures
            ok == self@.can_write_later(n, state, delta),
    {
        if n.get() >= self.nodes.len() {
            return false;
        }
        if self.nodes[n.get()].output_state() == state {
            return true;
        }
        self.event_id_counter < u64::MAX && self.force_id_counter < u64::MAX && delta.get() as u64
            <= u64::MAX - self.current_tick
    }

    /// Whether node `n` can be written to `state` now.
    pub fn can_write(&self, n: NodeIndex, state: LineState) -> (ok: bool)
        ensures
            ok == self@.can_write(n, state),
    {
        self.can_write_later(n, state, PropogationDelay(0))
    }

    /// Takes in what the session `creator` has staged. Its elements join in
    /// order and claim their nodes; if a node would be claimed twice, the
    /// build fails there and what joined before stays. Else every node that
    /// the session issued is created and its links are laid, in order. The
    /// queue, the time and what the nodes hold stay as they were.
    #[verifier::rlimit(30)]
    pub fn absorb(&mut self, creator: NodeCreator) -> (r: Result<(), NodeDoubleClaim>)
        requires
            old(self).wf(),
            old(self)@.can_absorb(creator@),
        ensures
            final(self).wf(),
            final(self)@ == old(self)@.absorbed(creator@).0,
            r is Ok <==> old(self)@.absorbed(creator@).1,
            r is Err ==> r == Err::<(), NodeDoubleClaim>(
                NodeDoubleClaim { element: final(self)@.next_element() },
            ),
            final(self)@.pending == old(self)@.pending,
            final(self)@.tick == old(self)@.tick,
            final(self)@.events_minted == old(self)@.events_minted,
            final(self)@.forces_minted == old(self)@.forces_minted,
            final(self)@.nodes.len() >= old(self)@.nodes.len(),
            forall|n: int|
                0 <= n < old(self)@.nodes.len() ==> (#[trigger] final(self)@.nodes[n]).influences == old(
                    self,
                )@.nodes[n].influences && final(self)@.nodes[n].output_state == old(
                    self,
                )@.nodes[n].output_state,
    {
        let ghost staged = creator@;
        proof {
            old(self).lemma_view_wf();
        }
        let ghost ps = creator@.elements;
        let ghost ls = creator@.links;
        let (issued, elements, links) = creator.into_parts();
        proof {
            assert(ps.subrange(0, ps.len() as int) =~= ps);
            assert(old(self)@.elements + ps.subrange(0, 0) =~= old(self)@.elements);
        }
        let mut i: usize = 0;
        while i < elements.len()
            invariant
                i <= ps.len(),
                old(self)@.wf(),
                staged == creator@,
                ps == staged.elements,
                ps == elements@,
                self.wf(),
                old(self)@.can_absorb(staged),
                self@.elements == old(self)@.elements + ps.subrange(0, i as int),
                self@.links_minted == old(self)@.links_minted,
                self@.events_minted == old(self)@.events_minted,
                self@.forces_minted == old(self)@.forces_minted,
                old(self)@.adopted_all(ps) == self@.adopted_all(ps.subrange(i as int, ps.len() as int)),
            decreases ps.len() - i,
        {
            let elem = elements[i];
            proof {
                let rest = ps.subrange(i as int, ps.len() as int);
                assert(rest.first() == elem);
                assert(rest.drop_first() =~= ps.subrange(i as int + 1, ps.len() as int));
                assert forall|k: int| 0 <= k < elem.claims().len() implies (
                #[trigger] elem.claims()[k]).0 < usize::MAX by {
                    assert(staged.elements[i as int].claims()[k].0 < usize::MAX);
                }
                if self@.can_adopt(elem) {
                    lemma_adopted_wf(self@, elem);
                    lemma_claimed_all(self@, elem.claims(), self@.next_element());
                    assert(ps.subrange(0, i as int).push(elem) =~= ps.subrange(0, i as int + 1));
                    assert((old(self)@.elements + ps.subrange(0, i as int)).push(elem) =~= old(
                        self,
                    )@.elements + ps.subrange(0, i as int + 1));
                }
            }
            let ghost before = self@;
            match self.add_element(elem) {
                Ok(()) => {
                    assert(before.can_adopt(elem));
                },
                Err(clash) => {
                    assert(!before.can_adopt(elem));
                    assert(before.adopted_all(ps.subrange(i as int, ps.len() as int)) == (before, false));
                    proof {
                        crate::assembly::lemma_absorbed_signals(old(self)@, staged);
                    }
                    return Err(clash);
                },
            }
            i = i + 1;
        }
        let ghost joined = self@;
        proof {
            assert(ps.subrange(ps.len() as int, ps.len() as int) =~= Seq::<Primitive>::empty());
            self.lemma_view_wf();
            lemma_grown_wf(joined, staged.next);
            lemma_grown(joined, staged.next);
        }
        self.grow(issued);
        let mut k: usize = 0;
        while k < links.len()
            invariant
                k <= ls.len(),
                old(self)@.wf(),
                staged == creator@,
                ls == staged.links,
                ls == links@,
                self.wf(),
                old(self)@.can_absorb(staged),
                self@.links_minted == old(self)@.links_minted + k,
                self@.elements == joined.elements,
                self@.events_minted == joined.events_minted,
                self@.forces_minted == joined.forces_minted,
                self@ == joined.grown(staged.next).linked_all(ls.subrange(0, k as int)),
            decreases ls.len() - k,
        {
            let (a, b, delay) = links[k];
            proof {
                assert(staged.links[k as int].0.0 < usize::MAX);
                assert(ls.subrange(0, k as int + 1).drop_last() =~= ls.subrange(0, k as int));
                assert(ls.subrange(0, k as int + 1).last() == ls[k as int]);
                lemma_linked_wf(self@, a, b, delay);
            }
            self.link(a, b, delay);
            k = k + 1;
        }
        proof {
            assert(ls.subrange(0, ls.len() as int) =~= ls);
        }
        proof {
            crate::assembly::lemma_absorbed_signals(old(self)@, staged);
        }
        Ok(())
    }

    /// Whether the constant bits can start to drive within the range of ids.
    pub fn can_power_on(&self) -> (ok: bool)
        ensures
            ok == self@.can_power_on(),
    {
        let count = self.elements.len() as u64;
        count <= u64::MAX - self.event_id_counter && count <= u64::MAX - self.force_id_counter
    }

    /// Lets the constant bits start to drive: each writes its level to its
    /// node, in the order of the elements. A constant bit that drives its
    /// level already writes nothing.
    pub fn power_on(&mut self)
        requires
            old(self).wf(),
            old(self)@.can_power_on(),
        ensures
            final(self).wf(),
            final(self)@ == old(self)@.powered_on(),
    {
        let ghost ps = self@.elements;
        let count = self.elements.len();
        let mut m: usize = 0;
        while m < count
            invariant
                m <= count,
                count == ps.len(),
                ps == old(self)@.elements,
                self.wf(),
                old(self)@.can_power_on(),
                self@.elements == ps,
                self@.events_minted <= old(self)@.events_minted + m,
                self@.forces_minted <= old(self)@.forces_minted + m,
                self@ == old(self)@.energized(ps.subrange(0, m as int)),
            decreases count - m,
        {
            proof {
                assert(ps.subrange(0, m as int + 1).drop_last() =~= ps.subrange(0, m as int));
                assert(ps.subrange(0, m as int + 1).last() == ps[m as int]);
            }
            let element = self.elements[m];
            match element.standing_demand() {
                Some(d) => {
                    proof {
                        self.lemma_view_wf();
                        assert(self@.owns(m as int, self@.elements[m as int].claims()[0]));
                    }
                    d.node.write(d.state, self);
                },
                None => {},
            }
            m = m + 1;
        }
        proof {
            assert(ps.subrange(0, ps.len() as int) =~= ps);
        }
    }

    /// Processes the next pending event, if there is one, and tells whether
    /// there was one. Time advances to the event, the event acts on its
    /// target, it is offered over each link of the target, and the element
    /// that owns the target is stepped.
    pub fn play(&mut self) -> (more: bool)
        requires
            old(self).wf(),
            old(self)@.can_deliver(),
        ensures
            final(self).wf(),
            more == !old(self)@.quiescent(),
            final(self)@ == old(self)@.delivered(),
            !more ==> final(self)@ == old(self)@,
            more ==> final(self)@.tick == old(self)@.next().time,
            more ==> old(self)@.tick <= final(self)@.tick,
            more ==> forall|i: int|
                0 <= i < old(self)@.pending.len() ==> !(#[trigger] old(self)@.pending[i]).before(
                    old(self)@.next(),
                ),
            more ==> forall|i: int|
                0 <= i < final(self)@.pending.len() ==> old(self)@.next().before(
                    #[trigger] final(self)@.pending[i],
                ),
    {
        proof {
            if !self@.quiescent() {
                crate::laws::lemma_delivered_is_behind(self@);
                assert forall|i: int| 0 <= i < self@.pending.len() implies !(#[trigger] self@.pending[i]).before(
                    self@.next(),
                ) by {
                    if i > 0 {
                        assert(self@.pending[0].before(self@.pending[i]));
                    }
                }
            }
        }
        proof {
            lemma_strictly_is_in_order(self@.pending);
        }
        match self.events.pop() {
            Some(evt) => {
                proof {
                    lemma_can_relay(old(self)@);
                    assert(self@ == old(self)@.popped());
                    lemma_played_wf(self@, evt);
                }
                let maybe_element_index = self.nodes[evt.node.get()].owner();
                self.play_event(evt);
                if let Some(element_index) = maybe_element_index {
                    proof {
                        assert(old(self)@.nodes[evt.node.0 as int].owner == Some(element_index));
                        lemma_wants_a_node(self@, element_index);
                        let p = self@.elements[element_index.0 as int];
                        assert forall|k: int| 0 <= k < p.claims().len() implies self@.has_node(
                            #[trigger] p.claims()[k],
                        ) by {
                            assert(self@.owns(
                                element_index.0 as int,
                                self@.elements[element_index.0 as int].claims()[k],
                            ));
                        }
                    }
                    let element = self.elements[element_index.get()];
                    element.step(self);
                }
                true
            },
            None => false,
        }
    }

    /// Whether the next turn of the event loop stays within the range of
    /// ids and of time.
    pub fn can_play(&self) -> (ok: bool)
        requires
            self.wf(),
        ensures
            ok == self@.can_deliver(),
    {
        proof {
            lemma_strictly_is_in_order(self@.pending);
        }
        match self.events.peek() {
            None => true,
            Some(e) => {
                proof {
                    assert(self@.admits(self@.pending[0]));
                }
                let target = &self.nodes[e.node.get()];
                let count = target.link_count();
                if self.force_id_counter == u64::MAX || self.event_id_counter == u64::MAX {
                    return false;
                }
                if count as u64 >= u64::MAX - self.event_id_counter {
                    return false;
                }
                let ghost links = target@.links;
                let mut i: usize = 0;
                while i < count
                    invariant
                        i <= count,
                        count == links.len(),
                        links == target@.links,
                        !self@.quiescent(),
                        e == self@.next(),
                        links == self@.wire(e.node).links,
                        self@.events_minted + links.len() < u64::MAX,
                        self@.forces_minted < u64::MAX,
                        forall|j: int| 0 <= j < i ==> e.time + (#[trigger] links[j]).delay.0 <= u64::MAX,
                    decreases count - i,
                {
                    if target.link(i).delay.get() as u64 > u64::MAX - e.time {
                        assert(e.time + links[i as int].delay.0 > u64::MAX);
                        return false;
                    }
                    i = i + 1;
                }
                true
            },
        }
    }
}

impl NodeIndex {
    /// Drives this node to `new_state`. Nothing happens when the node is
    /// already driven to that state.
    pub fn write(self, new_state: LineState, c: &mut NodeCollection)
        requires
            old(c).wf(),
            old(c)@.can_write(self, new_state),
        ensures
            final(c).wf(),
            final(c)@ == old(c)@.written(self, new_state),
            old(c)@.wire(self).output_state == new_state ==> final(c)@ == old(c)@,
    {
        self.write_later(new_state, PropogationDelay(0), c)
    }

    /// Drives this node to `new_state`, effective `delta_time` ticks from
    /// now: the same as a write, but for the time at which the event is due.
    /// Nothing happens when the node is already driven to that state.
    pub fn write_later(self, new_state: LineState, delta_time: PropogationDelay, c: &mut NodeCollection)
        requires
            old(c).wf(),
            old(c)@.can_write_later(self, new_state, delta_time),
        ensures
            final(c).wf(),
            final(c)@ == old(c)@.written_later(self, new_state, delta_time),
            old(c)@.wire(self).output_state == new_state ==> final(c)@ == old(c)@,
            old(c)@.wire(self).output_state != new_state ==> final(c)@ == old(c)@.forced_later(
                self,
                new_state,
                delta_time,
            ),
    {
        let idx = self.get();
        if new_state == c.nodes[idx].output_state() {
            return ;
        }
        c.nodes[idx].drive(new_state);
        c.force_id_counter = c.force_id_counter + 1;
        proof {
            assert(c@.nodes =~= old(c)@.nodes.update(idx as int, old(c)@.wire(self).driven(new_state)));
            lemma_forced_later_wf(old(c)@, self, new_state, delta_time);
        }
        let due: u64 = c.current_tick + delta_time.get() as u64;
        let force_id = c.force_id_counter;
        proof {
            lemma_strictly_is_in_order(old(c)@.pending);
        }
        c.post(self, new_state, due, self, force_id);
    }

    /// The state a reader observes on this node.
    pub fn read(self, c: &NodeCollection) -> (state: LineState)
        requires
            c.wf(),
            c@.has_node(self),
        ensures
            state == c@.reading(self),
    {
        c.nodes[self.get()].get_input_state()
    }
}

} // verus!
