//! How a simulation takes in what a building session has staged: the
//! transitions on the model, and the proof that they keep it well formed.

use vstd::prelude::*;
use crate::circuit::Circuit;
use crate::element::Primitive;
use crate::netlist::{Netlist, Wiring};
use crate::node::Wire;
use crate::sim::{ElementIndex, Link, NodeIndex, PropogationDelay};
use crate::wellformed::lemma_adjacency_kept;

verus! {

impl Circuit {
    /// This circuit with fresh nodes added until it has at least `count`.
    pub open spec fn grown(self, count: nat) -> Circuit {
        if count <= self.nodes.len() {
            self
        } else {
            Circuit {
                nodes: self.nodes + Seq::new((count - self.nodes.len()) as nat, |i: int| Wire::fresh()),
                ..self
            }
        }
    }

    /// Whether node `n` can still be claimed: it does not exist yet, or it
    /// has no owner.
    pub open spec fn claimable(self, n: NodeIndex) -> bool {
        !self.has_node(n) || self.wire(n).owner is None
    }

    /// This circuit after `element` claimed node `n`, which is created if it
    /// does not exist yet.
    pub open spec fn claimed(self, n: NodeIndex, element: ElementIndex) -> Circuit {
        let g = self.grown((n.0 + 1) as nat);
        Circuit { nodes: g.nodes.update(n.0 as int, g.wire(n).owned_by(element)), ..g }
    }

    /// This circuit after `element` claimed each node of `ns`, in order.
    pub open spec fn claimed_all(self, ns: Seq<NodeIndex>, element: ElementIndex) -> Circuit
        decreases ns.len(),
    {
        if ns.len() == 0 {
            self
        } else {
            self.claimed_all(ns.drop_last(), element).claimed(ns.last(), element)
        }
    }

    /// Whether `p` can join without a double claim: it names no node twice,
    /// and each node it names can still be claimed.
    pub open spec fn can_adopt(self, p: Primitive) -> bool {
        &&& p.claims().no_duplicates()
        &&& forall|k: int| 0 <= k < p.claims().len() ==> self.claimable(#[trigger] p.claims()[k])
    }

    /// The index that the next element gets.
    pub open spec fn next_element(self) -> ElementIndex {
        ElementIndex(self.elements.len() as usize)
    }

    /// This circuit after `p` joined as its next element and claimed its nodes.
    pub open spec fn adopted(self, p: Primitive) -> Circuit {
        Circuit { elements: self.elements.push(p), ..self.claimed_all(p.claims(), self.next_element()) }
    }

    /// This circuit after the elements of `ps` joined in order, up to the
    /// first that cannot join without a double claim; and whether all joined.
    pub open spec fn adopted_all(self, ps: Seq<Primitive>) -> (Circuit, bool)
        decreases ps.len(),
    {
        if ps.len() == 0 {
            (self, true)
        } else if !self.can_adopt(ps.first()) {
            (self, false)
        } else {
            self.adopted(ps.first()).adopted_all(ps.drop_first())
        }
    }

    /// This circuit after a link between `a` and `b` was laid under a fresh
    /// link id: both nodes are created if they do not exist yet, then `a`
    /// gets the end that leads to `b`, then `b` the end that leads to `a`.
    pub open spec fn linked(self, a: NodeIndex, b: NodeIndex, delay: PropogationDelay) -> Circuit {
        let id = (self.links_minted + 1) as u64;
        let g = self.grown((a.0 + 1) as nat).grown((b.0 + 1) as nat);
        let first = g.nodes.update(a.0 as int, g.wire(a).joined(Link { linked_to: b, delay, id }));
        let both = first.update(b.0 as int, first[b.0 as int].joined(Link { linked_to: a, delay, id }));
        Circuit { nodes: both, links_minted: id, ..g }
    }

    /// This circuit after each link of `links` was laid, in order.
    pub open spec fn linked_all(self, links: Seq<Wiring>) -> Circuit
        decreases links.len(),
    {
        if links.len() == 0 {
            self
        } else {
            let l = links.last();
            self.linked_all(links.drop_last()).linked(l.0, l.1, l.2)
        }
    }

    /// This circuit after each element of `ps` began to drive what it drives
    /// without being asked, in order: each constant bit wrote its level to
    /// its node.
    pub open spec fn energized(self, ps: Seq<Primitive>) -> Circuit
        decreases ps.len(),
    {
        if ps.len() == 0 {
            self
        } else {
            self.energized(ps.drop_last()).obeyed(ps.last().standing())
        }
    }

    /// Whether the constant bits of this circuit can start to drive within
    /// the range of ids: each may take an event id and a force id.
    pub open spec fn can_power_on(self) -> bool {
        &&& self.events_minted + self.elements.len() <= u64::MAX
        &&& self.forces_minted + self.elements.len() <= u64::MAX
    }

    /// This circuit after its constant bits started to drive: each wrote
    /// its level to its node, in the order of the elements.
    pub open spec fn powered_on(self) -> Circuit {
        self.energized(self.elements)
    }

    /// Whether the session `nl` can be absorbed within machine limits: node
    /// and element indices fit, and so do the ids of the links to lay.
    pub open spec fn can_absorb(self, nl: Netlist) -> bool {
        &&& nl.next <= usize::MAX
        &&& self.elements.len() + nl.elements.len() <= usize::MAX
        &&& self.links_minted + nl.links.len() <= u64::MAX
        &&& forall|i: int, k: int|
            0 <= i < nl.elements.len() && 0 <= k < nl.elements[i].claims().len() ==> (
            #[trigger] nl.elements[i].claims()[k]).0 < usize::MAX
        &&& forall|i: int|
            0 <= i < nl.links.len() ==> (#[trigger] nl.links[i]).0.0 < usize::MAX && nl.links[i].1.0
                < usize::MAX
    }

    /// This circuit after it absorbed the session `nl`, and whether it did
    /// so in full. The elements join in order and claim their nodes. If one
    /// of them cannot join without a double claim, absorption stops there.
    /// Else every node that the session issued is created, and the links
    /// are laid in order. Nothing is written and nothing becomes pending.
    pub open spec fn absorbed(self, nl: Netlist) -> (Circuit, bool) {
        let (joined, complete) = self.adopted_all(nl.elements);
        if complete {
            (joined.grown(nl.next).linked_all(nl.links), true)
        } else {
            (joined, false)
        }
    }
}

/// The node at `n` before any claim: the one the circuit has, or a fresh one.
pub open spec fn base_wire(c: Circuit, n: int) -> Wire {
    if n < c.nodes.len() {
        c.nodes[n]
    } else {
        Wire::fresh()
    }
}

/// Growing adds fresh nodes and changes nothing else.
pub proof fn lemma_grown(c: Circuit, count: nat)
    ensures
        c.grown(count).nodes.len() == (if count <= c.nodes.len() {
            c.nodes.len()
        } else {
            count
        }),
        forall|n: int| 0 <= n < c.grown(count).nodes.len() ==> #[trigger] c.grown(count).nodes[n] == base_wire(c, n),
        c.grown(count).pending == c.pending,
        c.grown(count).tick == c.tick,
        c.grown(count).elements == c.elements,
        c.grown(count).events_minted == c.events_minted,
        c.grown(count).links_minted == c.links_minted,
        c.grown(count).forces_minted == c.forces_minted,
{
}

/// Growing keeps the circuit well formed.
pub proof fn lemma_grown_wf(c: Circuit, count: nat)
    requires
        c.wf(),
        count <= usize::MAX,
    ensures
        c.grown(count).wf(),
{
    let g = c.grown(count);
    lemma_grown(c, count);
    lemma_adjacency_kept(c, g);
    assert forall|n: int| 0 <= n < g.nodes.len() implies g.wire_wf(#[trigger] g.nodes[n]) by {
        if n < c.nodes.len() {
            assert(c.wire_wf(c.nodes[n]));
            let w = c.nodes[n];
            assert(forall|j: int| 0 <= j < w.links.len() ==> c.admits_link(#[trigger] w.links[j]));
        }
    }
    assert forall|i: int| 0 <= i < g.pending.len() implies g.admits(#[trigger] g.pending[i]) by {
        assert(c.admits(c.pending[i]));
    }
    assert forall|ei: int, k: int|
        0 <= ei < g.elements.len() && 0 <= k < g.elements[ei].claims().len() implies g.owns(
        ei,
        #[trigger] g.elements[ei].claims()[k],
    ) by {
        assert(c.owns(ei, c.elements[ei].claims()[k]));
    }
    assert forall|n: int| 0 <= n < g.nodes.len() implies match (#[trigger] g.nodes[n]).owner {
        Some(ei) => ei.0 < g.elements.len() && g.elements[ei.0 as int].claims().contains(
            NodeIndex(n as usize),
        ),
        None => true,
    } by {
        if n < c.nodes.len() {
            assert(g.nodes[n].owner == c.nodes[n].owner);
        }
    }
}

/// What claiming a sequence of nodes leaves: each claimed node exists and
/// is owned by the claimant, every other node is as it was, and the circuit
/// has grown just enough to hold the claimed nodes.
#[verifier::rlimit(30)]
pub proof fn lemma_claimed_all(c: Circuit, ns: Seq<NodeIndex>, element: ElementIndex)
    requires
        c.nodes.len() <= usize::MAX,
        forall|k: int| 0 <= k < ns.len() ==> (#[trigger] ns[k]).0 < usize::MAX,
    ensures
        c.claimed_all(ns, element).nodes.len() >= c.nodes.len(),
        forall|k: int| 0 <= k < ns.len() ==> (#[trigger] ns[k]).0 < c.claimed_all(ns, element).nodes.len(),
        c.claimed_all(ns, element).nodes.len() == c.nodes.len() || exists|k: int|
            0 <= k < ns.len() && c.claimed_all(ns, element).nodes.len() == (#[trigger] ns[k]).0 + 1,
        forall|n: int|
            0 <= n < c.claimed_all(ns, element).nodes.len() ==> #[trigger] c.claimed_all(ns, element).nodes[n] == (
            if ns.contains(NodeIndex(n as usize)) {
                base_wire(c, n).owned_by(element)
            } else {
                base_wire(c, n)
            }),
        c.claimed_all(ns, element).pending == c.pending,
        c.claimed_all(ns, element).tick == c.tick,
        c.claimed_all(ns, element).elements == c.elements,
        c.claimed_all(ns, element).events_minted == c.events_minted,
        c.claimed_all(ns, element).links_minted == c.links_minted,
        c.claimed_all(ns, element).forces_minted == c.forces_minted,
    decreases ns.len(),
{
    if ns.len() > 0 {
        let front = ns.drop_last();
        let last = ns.last();
        assert forall|k: int| 0 <= k < front.len() implies (#[trigger] front[k]).0 < usize::MAX by {
            assert(front[k] == ns[k]);
        }
        lemma_claimed_all(c, front, element);
        let mid = c.claimed_all(front, element);
        let g = mid.grown((last.0 + 1) as nat);
        lemma_grown(mid, (last.0 + 1) as nat);
        let r = c.claimed_all(ns, element);
        assert(ns[ns.len() - 1] == last);
        assert forall|k: int| 0 <= k < ns.len() implies (#[trigger] ns[k]).0 < r.nodes.len() by {
            if k < front.len() {
                assert(front[k] == ns[k]);
            }
        }
        if r.nodes.len() != c.nodes.len() {
            if r.nodes.len() == mid.nodes.len() {
                let k = choose|k: int|
                    0 <= k < front.len() && mid.nodes.len() == (#[trigger] front[k]).0 + 1;
                assert(front[k] == ns[k]);
            } else {
                assert(r.nodes.len() == ns[ns.len() - 1].0 + 1);
            }
        }
        assert forall|n: int| 0 <= n < r.nodes.len() implies #[trigger] r.nodes[n] == (if ns.contains(
            NodeIndex(n as usize),
        ) {
            base_wire(c, n).owned_by(element)
        } else {
            base_wire(c, n)
        }) by {
            let me = NodeIndex(n as usize);
            assert(me.0 == n);
            if n == last.0 {
                assert(me == last);
                assert(ns.contains(me));
            }
            if front.contains(me) {
                let k = choose|k: int| 0 <= k < front.len() && front[k] == me;
                assert(ns[k] == me);
            }
            if ns.contains(me) && me != last {
                let k = choose|k: int| 0 <= k < ns.len() && ns[k] == me;
                assert(front[k] == me);
            }
            if n < mid.nodes.len() {
                assert(g.nodes[n] == mid.nodes[n]);
            }
        }
    }
}

/// Joining without a double claim keeps the circuit well formed.
#[verifier::rlimit(30)]
pub proof fn lemma_adopted_wf(c: Circuit, p: Primitive)
    requires
        c.wf(),
        c.can_adopt(p),
        c.elements.len() < usize::MAX,
        forall|k: int| 0 <= k < p.claims().len() ==> (#[trigger] p.claims()[k]).0 < usize::MAX,
    ensures
        c.adopted(p).wf(),
        c.adopted(p).links_minted == c.links_minted,
        c.adopted(p).elements == c.elements.push(p),
{
    let ns = p.claims();
    let me = c.next_element();
    let r = c.adopted(p);
    lemma_claimed_all(c, ns, me);
    lemma_adjacency_kept(c, r);
    assert forall|n: int| 0 <= n < r.nodes.len() implies r.wire_wf(#[trigger] r.nodes[n]) by {
        if n < c.nodes.len() {
            assert(c.wire_wf(c.nodes[n]));
            let w = c.nodes[n];
            assert(forall|j: int| 0 <= j < w.links.len() ==> c.admits_link(#[trigger] w.links[j]));
        }
    }
    assert forall|i: int| 0 <= i < r.pending.len() implies r.admits(#[trigger] r.pending[i]) by {
        assert(c.admits(c.pending[i]));
    }
    assert forall|ei: int, k: int|
        0 <= ei < r.elements.len() && 0 <= k < r.elements[ei].claims().len() implies r.owns(
        ei,
        #[trigger] r.elements[ei].claims()[k],
    ) by {
        let n = r.elements[ei].claims()[k];
        if ei < c.elements.len() {
            assert(c.owns(ei, c.elements[ei].claims()[k]));
            if ns.contains(n) {
                let j = choose|j: int| 0 <= j < ns.len() && ns[j] == n;
                assert(c.claimable(ns[j]));
            }
            assert(NodeIndex(n.0 as int as usize) == n);
        } else {
            assert(ns[k] == n);
            assert(ns.contains(n));
            assert(NodeIndex(n.0 as int as usize) == n);
        }
    }
    assert forall|n: int| 0 <= n < r.nodes.len() implies match (#[trigger] r.nodes[n]).owner {
        Some(ei) => ei.0 < r.elements.len() && r.elements[ei.0 as int].claims().contains(
            NodeIndex(n as usize),
        ),
        None => true,
    } by {
        if !ns.contains(NodeIndex(n as usize)) && n < c.nodes.len() {
            assert(r.nodes[n].owner == c.nodes[n].owner);
        }
    }
}

/// What laying a link leaves of the nodes: both ends exist, the node `a`
/// has one more link end, which leads to `b`, then `b` has one more, which
/// leads to `a`, and nothing else has changed.
#[verifier::rlimit(30)]
pub proof fn lemma_linked(c: Circuit, a: NodeIndex, b: NodeIndex, delay: PropogationDelay)
    requires
        c.nodes.len() <= usize::MAX,
        a.0 < usize::MAX,
        b.0 < usize::MAX,
    ensures
        ({
            let r = c.linked(a, b, delay);
            let id = (c.links_minted + 1) as u64;
            let to_b = Link { linked_to: b, delay, id };
            let to_a = Link { linked_to: a, delay, id };
            &&& r.nodes.len() >= c.nodes.len()
            &&& r.nodes.len() <= usize::MAX
            &&& a.0 < r.nodes.len()
            &&& b.0 < r.nodes.len()
            &&& forall|n: int|
                0 <= n < r.nodes.len() ==> {
                    let before = base_wire(c, n);
                    let after = #[trigger] r.nodes[n];
                    &&& after.output_state == before.output_state
                    &&& after.owner == before.owner
                    &&& after.influences == before.influences
                    &&& after.links == before.links + (if n == a.0 {
                        seq![to_b]
                    } else {
                        Seq::empty()
                    }) + (if n == b.0 {
                        seq![to_a]
                    } else {
                        Seq::empty()
                    })
                }
            &&& forall|n: int| c.nodes.len() <= n < r.nodes.len() ==> base_wire(c, n) == Wire::fresh()
            &&& r.pending == c.pending
            &&& r.tick == c.tick
            &&& r.elements == c.elements
            &&& r.events_minted == c.events_minted
            &&& r.forces_minted == c.forces_minted
            &&& r.links_minted == id
        }),
{
    let g1 = c.grown((a.0 + 1) as nat);
    lemma_grown(c, (a.0 + 1) as nat);
    let g = g1.grown((b.0 + 1) as nat);
    lemma_grown(g1, (b.0 + 1) as nat);
    let r = c.linked(a, b, delay);
    let id = (c.links_minted + 1) as u64;
    let to_b = Link { linked_to: b, delay, id };
    let to_a = Link { linked_to: a, delay, id };
    let first = g.nodes.update(a.0 as int, g.wire(a).joined(to_b));
    assert forall|n: int| 0 <= n < r.nodes.len() implies {
        let before = base_wire(c, n);
        let after = #[trigger] r.nodes[n];
        &&& after.output_state == before.output_state
        &&& after.owner == before.owner
        &&& after.influences == before.influences
        &&& after.links == before.links + (if n == a.0 {
            seq![to_b]
        } else {
            Seq::empty()
        }) + (if n == b.0 {
            seq![to_a]
        } else {
            Seq::empty()
        })
    } by {
        let before = base_wire(c, n);
        assert(g.nodes[n] == before) by {
            if n < g1.nodes.len() {
                assert(g1.nodes[n] == before);
            }
        }
        let tail_a = if n == a.0 {
            seq![to_b]
        } else {
            Seq::<Link>::empty()
        };
        let tail_b = if n == b.0 {
            seq![to_a]
        } else {
            Seq::<Link>::empty()
        };
        assert(first[n].links =~= before.links + tail_a);
        assert(r.nodes[n].links =~= before.links + tail_a + tail_b);
    }
}

/// Laying a link keeps adjacency symmetric.
#[verifier::rlimit(30)]
proof fn lemma_linked_adjacency(c: Circuit, a: NodeIndex, b: NodeIndex, delay: PropogationDelay)
    requires
        c.wf(),
        a.0 < usize::MAX,
        b.0 < usize::MAX,
    ensures
        c.linked(a, b, delay).adjacency_wf(),
{
    lemma_linked(c, a, b, delay);
    let r = c.linked(a, b, delay);
    let id = (c.links_minted + 1) as u64;
    let to_b = Link { linked_to: b, delay, id };
    let to_a = Link { linked_to: a, delay, id };
    assert forall|n: int, j: int|
        0 <= n < r.nodes.len() && 0 <= j < r.nodes[n].links.len() implies r.wire(
        r.nodes[n].links[j].linked_to,
    ).links.contains(Circuit::partner(n, #[trigger] r.nodes[n].links[j])) by {
        let link = r.nodes[n].links[j];
        let old_links = base_wire(c, n).links;
        if j < old_links.len() {
            assert(n < c.nodes.len());
            assert(link == c.nodes[n].links[j]);
            assert(c.wire_wf(c.nodes[n]));
            assert(c.admits_link(c.nodes[n].links[j]));
            let far = c.wire(link.linked_to).links;
            assert(far.contains(Circuit::partner(n, c.nodes[n].links[j])));
            let k = choose|k: int| 0 <= k < far.len() && far[k] == Circuit::partner(n, link);
            let m = link.linked_to.0 as int;
            assert(base_wire(c, m) == c.nodes[m]);
            assert(r.nodes[m].links[k] == far[k]);
        } else if n == a.0 && j == old_links.len() {
            assert(link == to_b);
            assert(Circuit::partner(n, link) == to_a);
            let far = r.nodes[b.0 as int].links;
            assert(far[far.len() - 1] == to_a);
        } else {
            assert(n == b.0);
            assert(link == to_a);
            assert(Circuit::partner(n, link) == to_b);
            let far = r.nodes[a.0 as int].links;
            assert(far[base_wire(c, a.0 as int).links.len() as int] == to_b);
        }
    }
}

/// Laying a link keeps the circuit well formed and touches nothing but the
/// nodes and the count of links.
#[verifier::rlimit(30)]
pub proof fn lemma_linked_wf(c: Circuit, a: NodeIndex, b: NodeIndex, delay: PropogationDelay)
    requires
        c.wf(),
        a.0 < usize::MAX,
        b.0 < usize::MAX,
        c.links_minted < u64::MAX,
    ensures
        c.linked(a, b, delay).wf(),
        c.linked(a, b, delay).links_minted == c.links_minted + 1,
        c.linked(a, b, delay).elements == c.elements,
        c.linked(a, b, delay).pending == c.pending,
        c.linked(a, b, delay).events_minted == c.events_minted,
        c.linked(a, b, delay).forces_minted == c.forces_minted,
        c.linked(a, b, delay).nodes.len() >= c.nodes.len(),
{
    lemma_linked(c, a, b, delay);
    lemma_linked_adjacency(c, a, b, delay);
    let r = c.linked(a, b, delay);
    assert forall|n: int| 0 <= n < r.nodes.len() implies r.wire_wf(#[trigger] r.nodes[n]) by {
        let w = base_wire(c, n);
        let v = r.nodes[n];
        if n < c.nodes.len() {
            assert(c.wire_wf(c.nodes[n]));
        }
        assert forall|j: int| 0 <= j < v.links.len() implies r.admits_link(#[trigger] v.links[j]) by {
            if j < w.links.len() {
                assert(v.links[j] == w.links[j]);
                assert(c.admits_link(w.links[j]));
            }
        }
    }
    assert forall|i: int| 0 <= i < r.pending.len() implies r.admits(#[trigger] r.pending[i]) by {
        assert(c.admits(c.pending[i]));
    }
    assert forall|ei: int, k: int|
        0 <= ei < r.elements.len() && 0 <= k < r.elements[ei].claims().len() implies r.owns(
        ei,
        #[trigger] r.elements[ei].claims()[k],
    ) by {
        assert(c.owns(ei, c.elements[ei].claims()[k]));
    }
    assert forall|n: int| 0 <= n < r.nodes.len() implies match (#[trigger] r.nodes[n]).owner {
        Some(ei) => ei.0 < r.elements.len() && r.elements[ei.0 as int].claims().contains(
            NodeIndex(n as usize),
        ),
        None => true,
    } by {
        if n < c.nodes.len() {
            assert(r.nodes[n].owner == c.nodes[n].owner);
        }
    }
}

/// Whether node `n` holds no forcing in circuit `c`, or does not exist yet.
pub open spec fn idle(c: Circuit, n: NodeIndex) -> bool {
    forall|f: NodeIndex| !(#[trigger] base_wire(c, n.0 as int).influences.contains_key(f))
}

/// Whether `r` is `c` with more built on it: nodes added, owners set,
/// elements joined, links laid on nodes that hold no forcing. The signals
/// of `r` are those of `c`.
pub open spec fn built_on(c: Circuit, r: Circuit) -> bool {
    &&& r.pending == c.pending
    &&& r.tick == c.tick
    &&& r.events_minted == c.events_minted
    &&& r.forces_minted == c.forces_minted
    &&& r.nodes.len() >= c.nodes.len()
    &&& forall|n: int|
        0 <= n < r.nodes.len() ==> {
            let before = base_wire(c, n);
            let after = #[trigger] r.nodes[n];
            &&& after.influences == before.influences
            &&& after.output_state == before.output_state
            &&& before.links.is_prefix_of(after.links)
            &&& after.links.len() > before.links.len() ==> idle(c, NodeIndex(n as usize))
        }
}

/// Building on what was built on a circuit is building on the circuit.
pub proof fn lemma_built_further(c: Circuit, m: Circuit, r: Circuit)
    requires
        built_on(c, m),
        built_on(m, r),
        r.nodes.len() <= usize::MAX,
    ensures
        built_on(c, r),
{
    assert forall|n: int| 0 <= n < r.nodes.len() implies {
        let before = base_wire(c, n);
        let after = #[trigger] r.nodes[n];
        &&& after.influences == before.influences
        &&& after.output_state == before.output_state
        &&& before.links.is_prefix_of(after.links)
        &&& after.links.len() > before.links.len() ==> idle(c, NodeIndex(n as usize))
    } by {
        let mid = base_wire(m, n);
        if n < m.nodes.len() {
            assert(m.nodes[n].influences == base_wire(c, n).influences);
        }
        assert(mid.influences == base_wire(c, n).influences);
        if r.nodes[n].links.len() > base_wire(c, n).links.len() {
            if r.nodes[n].links.len() > mid.links.len() {
                assert(idle(m, NodeIndex(n as usize)));
                assert forall|f: NodeIndex| !(#[trigger] base_wire(c, n).influences.contains_key(f)) by {
                    assert(!base_wire(m, n).influences.contains_key(f));
                }
            }
        }
    }
}

/// Growing builds on the circuit.
pub proof fn lemma_built_grown(c: Circuit, count: nat)
    ensures
        built_on(c, c.grown(count)),
{
    lemma_grown(c, count);
}

/// Joining builds on the circuit.
pub proof fn lemma_built_adopted(c: Circuit, p: Primitive)
    requires
        c.nodes.len() <= usize::MAX,
        forall|k: int| 0 <= k < p.claims().len() ==> (#[trigger] p.claims()[k]).0 < usize::MAX,
    ensures
        built_on(c, c.adopted(p)),
{
    lemma_claimed_all(c, p.claims(), c.next_element());
}

/// Laying a link between nodes that hold no forcing builds on the circuit.
pub proof fn lemma_built_linked(c: Circuit, a: NodeIndex, b: NodeIndex, delay: PropogationDelay)
    requires
        c.nodes.len() <= usize::MAX,
        a.0 < usize::MAX,
        b.0 < usize::MAX,
        idle(c, a),
        idle(c, b),
    ensures
        built_on(c, c.linked(a, b, delay)),
{
    lemma_linked(c, a, b, delay);
    let r = c.linked(a, b, delay);
    assert forall|n: int| 0 <= n < r.nodes.len() implies {
        let before = base_wire(c, n);
        let after = #[trigger] r.nodes[n];
        &&& after.influences == before.influences
        &&& after.output_state == before.output_state
        &&& before.links.is_prefix_of(after.links)
        &&& after.links.len() > before.links.len() ==> idle(c, NodeIndex(n as usize))
    } by {
        if r.nodes[n].links.len() > base_wire(c, n).links.len() {
            assert(n == a.0 || n == b.0);
            assert(NodeIndex(n as usize) == a || NodeIndex(n as usize) == b);
        }
    }
}

/// What the elements of `ps` own are nodes that can be counted.
pub open spec fn claims_fit(ps: Seq<Primitive>) -> bool {
    forall|i: int, k: int| 0 <= i < ps.len() && 0 <= k < ps[i].claims().len() ==> (#[trigger] ps[i].claims()[k]).0 < usize::MAX
}

/// Letting elements join, up to the first that cannot, keeps the circuit
/// well formed and builds on it.
pub proof fn lemma_adopted_all(c: Circuit, ps: Seq<Primitive>)
    requires
        c.wf(),
        c.elements.len() + ps.len() <= usize::MAX,
        claims_fit(ps),
    ensures
        c.adopted_all(ps).0.wf(),
        built_on(c, c.adopted_all(ps).0),
        c.adopted_all(ps).0.links_minted == c.links_minted,
        c.adopted_all(ps).0.elements.len() <= c.elements.len() + ps.len(),
        c.adopted_all(ps).1 ==> c.adopted_all(ps).0.elements == c.elements + ps,
        forall|n: int|
            0 <= n < c.adopted_all(ps).0.nodes.len() ==> (#[trigger] c.adopted_all(ps).0.nodes[n]).links
                == base_wire(c, n).links,
    decreases ps.len(),
{
    lemma_built_grown(c, 0);
    if ps.len() > 0 && c.can_adopt(ps.first()) {
        lemma_claimed_all(c, ps.first().claims(), c.next_element());
        let p = ps.first();
        let rest = ps.drop_first();
        assert forall|k: int| 0 <= k < p.claims().len() implies (#[trigger] p.claims()[k]).0 < usize::MAX by {
            assert(ps[0].claims()[k].0 < usize::MAX);
        }
        assert forall|i: int, k: int| 0 <= i < rest.len() && 0 <= k < rest[i].claims().len() implies (
        #[trigger] rest[i].claims()[k]).0 < usize::MAX by {
            assert(ps[i + 1].claims()[k].0 < usize::MAX);
        }
        lemma_adopted_wf(c, p);
        lemma_built_adopted(c, p);
        let m = c.adopted(p);
        lemma_adopted_all(m, rest);
        lemma_built_further(c, m, m.adopted_all(rest).0);
        let r = m.adopted_all(rest).0;
        assert forall|n: int| 0 <= n < r.nodes.len() implies (#[trigger] r.nodes[n]).links == base_wire(
            c,
            n,
        ).links by {
            assert(r.nodes[n].links == base_wire(m, n).links);
            if n < m.nodes.len() {
                assert(m.nodes[n].links == base_wire(c, n).links);
            }
        }
        if c.adopted_all(ps).1 {
            assert(c.elements.push(p) + rest =~= c.elements + ps);
        }
    } else if ps.len() == 0 {
        assert(c.elements + ps =~= c.elements);
    }
}

/// Whether each link of `links` joins two nodes that hold no forcing in `c`.
pub open spec fn links_idle(c: Circuit, links: Seq<Wiring>) -> bool {
    forall|i: int| 0 <= i < links.len() ==> idle(c, (#[trigger] links[i]).0) && idle(c, links[i].1)
}

/// Whether the ends of each link of `links` are nodes that can be counted.
pub open spec fn links_fit(links: Seq<Wiring>) -> bool {
    forall|i: int| 0 <= i < links.len() ==> (#[trigger] links[i]).0.0 < usize::MAX && links[i].1.0 < usize::MAX
}

/// Laying links keeps the circuit well formed; laying them between nodes
/// that hold no forcing builds on the circuit.
pub proof fn lemma_linked_all(c: Circuit, links: Seq<Wiring>)
    requires
        c.wf(),
        c.links_minted + links.len() <= u64::MAX,
        links_fit(links),
    ensures
        c.linked_all(links).wf(),
        c.linked_all(links).links_minted == c.links_minted + links.len(),
        c.linked_all(links).elements == c.elements,
        c.linked_all(links).pending == c.pending,
        c.linked_all(links).events_minted == c.events_minted,
        c.linked_all(links).forces_minted == c.forces_minted,
        links_idle(c, links) ==> built_on(c, c.linked_all(links)),
    decreases links.len(),
{
    lemma_built_grown(c, 0);
    if links.len() > 0 {
        let front = links.drop_last();
        let l = links.last();
        assert forall|i: int| 0 <= i < front.len() implies (#[trigger] front[i]).0.0 < usize::MAX
            && front[i].1.0 < usize::MAX by {
            assert(front[i] == links[i]);
        }
        lemma_linked_all(c, front);
        let m = c.linked_all(front);
        assert(l == links[links.len() - 1]);
        lemma_linked_wf(m, l.0, l.1, l.2);
        if links_idle(c, links) {
            assert forall|i: int| 0 <= i < front.len() implies idle(c, (#[trigger] front[i]).0) && idle(
                c,
                front[i].1,
            ) by {
                assert(front[i] == links[i]);
            }
            assert(idle(m, l.0)) by {
                lemma_idle_kept(c, m, l.0);
            }
            assert(idle(m, l.1)) by {
                lemma_idle_kept(c, m, l.1);
            }
            lemma_built_linked(m, l.0, l.1, l.2);
            lemma_built_further(c, m, c.linked_all(links));
        }
    }
}

/// A node that holds no forcing holds none in what is built on the circuit.
pub proof fn lemma_idle_kept(c: Circuit, r: Circuit, n: NodeIndex)
    requires
        built_on(c, r),
        idle(c, n),
    ensures
        idle(r, n),
{
    assert forall|f: NodeIndex| !(#[trigger] base_wire(r, n.0 as int).influences.contains_key(f)) by {
        assert(!base_wire(c, n.0 as int).influences.contains_key(f));
    }
}

/// Absorbing a session leaves the signals alone: the queue, the time, the
/// ids of events and of forcings, and what every node holds and is driven
/// to are as they were.
pub proof fn lemma_absorbed_signals(c: Circuit, nl: Netlist)
    requires
        c.wf(),
        c.can_absorb(nl),
    ensures
        c.absorbed(nl).0.pending == c.pending,
        c.absorbed(nl).0.tick == c.tick,
        c.absorbed(nl).0.events_minted == c.events_minted,
        c.absorbed(nl).0.forces_minted == c.forces_minted,
        c.absorbed(nl).0.nodes.len() >= c.nodes.len(),
        forall|n: int|
            0 <= n < c.absorbed(nl).0.nodes.len() ==> (#[trigger] c.absorbed(nl).0.nodes[n]).influences
                == base_wire(c, n).influences && c.absorbed(nl).0.nodes[n].output_state == base_wire(
                c,
                n,
            ).output_state,
{
    assert(claims_fit(nl.elements)) by {
        assert forall|i: int, k: int|
            0 <= i < nl.elements.len() && 0 <= k < nl.elements[i].claims().len() implies (
        #[trigger] nl.elements[i].claims()[k]).0 < usize::MAX by {}
    }
    assert(links_fit(nl.links));
    lemma_adopted_all(c, nl.elements);
    let (joined, complete) = c.adopted_all(nl.elements);
    if complete {
        lemma_grown_wf(joined, nl.next);
        lemma_grown(joined, nl.next);
        let g = joined.grown(nl.next);
        lemma_linked_all(g, nl.links);
        lemma_linked_all_signals(g, nl.links);
        let l = g.linked_all(nl.links);
        assert forall|n: int| 0 <= n < l.nodes.len() implies (#[trigger] l.nodes[n]).influences == base_wire(
            c,
            n,
        ).influences && l.nodes[n].output_state == base_wire(c, n).output_state by {
            if n < g.nodes.len() {
                assert(g.nodes[n] == base_wire(joined, n));
                if n < joined.nodes.len() {
                    assert(joined.nodes[n].influences == base_wire(c, n).influences);
                }
            }
        }
    }
}

/// Laying links leaves the signals alone.
pub proof fn lemma_linked_all_signals(c: Circuit, links: Seq<Wiring>)
    requires
        c.wf(),
        c.links_minted + links.len() <= u64::MAX,
        links_fit(links),
    ensures
        c.linked_all(links).nodes.len() >= c.nodes.len(),
        c.linked_all(links).tick == c.tick,
        forall|n: int|
            0 <= n < c.linked_all(links).nodes.len() ==> (#[trigger] c.linked_all(links).nodes[n]).influences
                == base_wire(c, n).influences && c.linked_all(links).nodes[n].output_state == base_wire(
                c,
                n,
            ).output_state,
    decreases links.len(),
{
    if links.len() > 0 {
        let front = links.drop_last();
        let l = links.last();
        assert forall|i: int| 0 <= i < front.len() implies (#[trigger] front[i]).0.0 < usize::MAX
            && front[i].1.0 < usize::MAX by {
            assert(front[i] == links[i]);
        }
        lemma_linked_all(c, front);
        lemma_linked_all_signals(c, front);
        let m = c.linked_all(front);
        let r = c.linked_all(links);
        assert(l == links[links.len() - 1]);
        lemma_linked(m, l.0, l.1, l.2);
        assert forall|n: int| 0 <= n < r.nodes.len() implies (#[trigger] r.nodes[n]).influences == base_wire(
            c,
            n,
        ).influences && r.nodes[n].output_state == base_wire(c, n).output_state by {
            if n < m.nodes.len() {
                assert(m.nodes[n].influences == base_wire(c, n).influences);
            }
        }
    }
}

} // verus!
