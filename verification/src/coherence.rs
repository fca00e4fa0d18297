//! What the flood of forcings leaves when the circuit has come to rest:
//! both ends of every link hold the same forcing from every forcer.

use vstd::prelude::*;
use crate::assembly::{
    base_wire, built_on, claims_fit, idle, lemma_adopted_all, lemma_built_further,
    lemma_built_grown, lemma_grown, lemma_grown_wf, lemma_idle_kept, lemma_linked_all, links_fit,
    links_idle,
};
use crate::circuit::{Action, Circuit};
use crate::element::Primitive;
use crate::netlist::Netlist;
use crate::queue::lemma_scheduled_members;
use crate::sim::{Influence, LineState, LineStateEvent, Link, NodeIndex, PropogationDelay};
use crate::wellformed::{
    can_propagate, lemma_can_relay, lemma_played_wf, lemma_popped_wf, lemma_propagated_wf,
    lemma_struck_wf, lemma_wants_a_node, lemma_written_wf,
};

verus! {

/// The forcing that an event carries: who forces, to what, under which id.
pub open spec fn forcing_of(e: LineStateEvent) -> Influence {
    Influence { force_generator: e.forcer, force_kind: e.new_state, force_id: e.force_id }
}

impl Circuit {
    /// Node `n` holds the forcing `x`.
    pub open spec fn holds(self, n: NodeIndex, x: Influence) -> bool {
        &&& self.has_node(n)
        &&& self.wire(n).influences.contains_key(x.force_generator)
        &&& self.wire(n).influences[x.force_generator] == x
    }

    /// The forcing `x` is on its way to node `n`.
    pub open spec fn brings(self, n: NodeIndex, x: Influence) -> bool {
        exists|e: LineStateEvent| #[trigger] self.pending.contains(e) && e.node == n && forcing_of(e) == x
    }

    /// Node `n` holds the forcing `x`, or `x` is on its way to it.
    pub open spec fn has(self, n: NodeIndex, x: Influence) -> bool {
        self.holds(n, x) || self.brings(n, x)
    }

    /// The forcing `x` is somewhere in the circuit.
    pub open spec fn knows(self, x: Influence) -> bool {
        exists|n: NodeIndex| #[trigger] self.has(n, x)
    }

    /// Force ids identify forcings: two forcings in the circuit that share
    /// their id are one.
    pub open spec fn ids_identify(self) -> bool {
        forall|x: Influence, y: Influence|
            #[trigger] self.knows(x) && #[trigger] self.knows(y) && x.force_id == y.force_id ==> x == y
    }

    /// Node `y` holds, or is about to get, a forcing from `f` that is no
    /// older than `k`.
    pub open spec fn reached(self, y: NodeIndex, f: NodeIndex, k: u64) -> bool {
        exists|x: Influence| #[trigger] self.has(y, x) && x.force_generator == f && x.force_id >= k
    }

    /// What node `n` holds from forcer `f` has been passed on over link `j`
    /// of the node.
    pub open spec fn floods(self, n: int, j: int, f: NodeIndex) -> bool {
        self.nodes[n].influences.contains_key(f) ==> self.reached(
            self.nodes[n].links[j].linked_to,
            f,
            self.nodes[n].influences[f].force_id,
        )
    }

    /// Every forcing that a node holds has been passed on over every link
    /// of the node.
    pub open spec fn flooding(self) -> bool {
        forall|n: int, j: int, f: NodeIndex|
            0 <= n < self.nodes.len() && 0 <= j < self.nodes[n].links.len() ==> #[trigger] self.floods(
                n,
                j,
                f,
            )
    }

    /// Force ids identify forcings, and every forcing that a node holds has
    /// been passed on.
    pub open spec fn flooded(self) -> bool {
        self.ids_identify() && self.flooding()
    }

    /// The forcing `x` is one that node `n` imposes on itself, and `n`
    /// holds it or is about to get it.
    pub open spec fn own(self, n: NodeIndex, x: Influence) -> bool {
        x.force_generator == n && self.has(n, x)
    }

    /// The forcing `x` is the newest that node `n` imposes on itself.
    pub open spec fn newest_own(self, n: NodeIndex, x: Influence) -> bool {
        self.own(n, x) && forall|y: Influence| #[trigger] self.own(n, y) ==> y.force_id <= x.force_id
    }

    /// The newest forcing that a node imposes on itself says what the node
    /// is driven to.
    pub open spec fn self_ruled(self) -> bool {
        forall|n: NodeIndex, x: Influence|
            #[trigger] self.newest_own(n, x) ==> x.force_kind == self.wire(n).output_state
    }

    /// A node that is driven to anything but Floating imposes a forcing on
    /// itself.
    pub open spec fn self_kept(self) -> bool {
        forall|n: NodeIndex|
            self.has_node(n) && (#[trigger] self.wire(n)).output_state != LineState::Floating ==> exists|
                x: Influence,
            | #[trigger] self.own(n, x)
    }

    /// The forcer of `x` holds a forcing of its own that is no older than `x`.
    pub open spec fn seen_by_forcer(self, x: Influence) -> bool {
        &&& self.has_node(x.force_generator)
        &&& self.wire(x.force_generator).influences.contains_key(x.force_generator)
        &&& self.wire(x.force_generator).influences[x.force_generator].force_id >= x.force_id
    }

    /// A forcing reaches its forcer first: whatever another node holds or
    /// is about to get, the forcer holds already, or something newer.
    pub open spec fn forcer_first(self) -> bool {
        forall|n: NodeIndex, x: Influence|
            #[trigger] self.has(n, x) && x.force_generator != n ==> self.seen_by_forcer(x)
    }

    /// What a node is driven to rules what it imposes on itself, and that
    /// is what it passes on.
    pub open spec fn ruled(self) -> bool {
        self.self_ruled() && self.self_kept() && self.forcer_first()
    }

    /// The invariant of the flood of forcings.
    pub open spec fn coherent(self) -> bool {
        self.flooded() && self.ruled()
    }

    /// Nothing has happened yet: no node is driven, no node holds a
    /// forcing, and nothing is pending.
    pub open spec fn blank(self) -> bool {
        &&& self.pending.len() == 0
        &&& forall|n: int, f: NodeIndex|
            0 <= n < self.nodes.len() ==> !(#[trigger] self.nodes[n].influences.contains_key(f))
        &&& forall|n: int| 0 <= n < self.nodes.len() ==> (#[trigger] self.nodes[n]).output_state == LineState::Floating
    }
}

/// A circuit in which nothing has happened yet is coherent.
pub proof fn lemma_blank_is_coherent(c: Circuit)
    requires
        c.blank(),
    ensures
        c.coherent(),
{
    assert forall|n: NodeIndex| c.has_node(n) implies (#[trigger] c.wire(n)).output_state
        == LineState::Floating by {
        assert(c.nodes[n.0 as int].output_state == LineState::Floating);
    }
    assert forall|x: Influence| !c.knows(x) by {
        if c.knows(x) {
            let n = choose|n: NodeIndex| #[trigger] c.has(n, x);
            if c.holds(n, x) {
                assert(c.nodes[n.0 as int].influences.contains_key(x.force_generator));
            } else {
                let e = choose|e: LineStateEvent|
                    #[trigger] c.pending.contains(e) && e.node == n && forcing_of(e) == x;
                assert(c.pending.contains(e));
            }
        }
    }
    assert forall|n: int, j: int, f: NodeIndex|
        0 <= n < c.nodes.len() && 0 <= j < c.nodes[n].links.len() implies #[trigger] c.floods(n, j, f) by {
        assert(!c.nodes[n].influences.contains_key(f));
    }
    assert forall|n: NodeIndex, x: Influence| !(#[trigger] c.has(n, x)) by {
        if c.has(n, x) {
            assert(c.knows(x));
        }
    }
}

/// At rest, both ends of every link hold the same from every forcer: what
/// node `n` holds from forcer `f` is what the node at the far end of its
/// link `j` holds from `f`.
pub proof fn lemma_rest_is_level(c: Circuit, n: NodeIndex, j: int, f: NodeIndex)
    requires
        c.wf(),
        c.flooded(),
        c.quiescent(),
        c.has_node(n),
        0 <= j < c.wire(n).links.len(),
    ensures
        c.wire(n).held(f) == c.wire(c.wire(n).links[j].linked_to).held(f),
{
    let link = c.nodes[n.0 as int].links[j];
    let y = link.linked_to;
    assert(c.wire_wf(c.nodes[n.0 as int]));
    assert(c.admits_link(link));
    assert(c.wire_wf(c.nodes[y.0 as int]));
    let back = Circuit::partner(n.0 as int, c.nodes[n.0 as int].links[j]);
    assert(c.wire(y).links.contains(back));
    let i = choose|i: int| 0 <= i < c.wire(y).links.len() && c.wire(y).links[i] == back;
    assert(c.nodes[y.0 as int].links[i].linked_to == n);
    assert(c.floods(n.0 as int, j, f));
    assert(c.floods(y.0 as int, i, f));
    lemma_rest_holds(c, y, f);
    lemma_rest_holds(c, n, f);
    if c.wire(n).influences.contains_key(f) {
        let h = c.wire(n).influences[f];
        let hy = c.wire(y).influences[f];
        assert(c.has(n, h));
        assert(c.has(y, hy));
        assert(c.knows(h));
        assert(c.knows(hy));
    } else if c.wire(y).influences.contains_key(f) {
        assert(false);
    }
}

/// At rest, a node is reached by a forcing only if it holds one.
proof fn lemma_rest_holds(c: Circuit, y: NodeIndex, f: NodeIndex)
    requires
        c.wf(),
        c.quiescent(),
        c.has_node(y),
    ensures
        forall|k: u64|
            #[trigger] c.reached(y, f, k) ==> c.wire(y).influences.contains_key(f) && c.wire(
                y,
            ).influences[f].force_id >= k,
{
    assert forall|k: u64| #[trigger] c.reached(y, f, k) implies c.wire(y).influences.contains_key(f)
        && c.wire(y).influences[f].force_id >= k by {
        let x = choose|x: Influence| #[trigger] c.has(y, x) && x.force_generator == f && x.force_id >= k;
        if c.brings(y, x) {
            let e = choose|e: LineStateEvent|
                #[trigger] c.pending.contains(e) && e.node == y && forcing_of(e) == x;
            assert(c.pending.contains(e));
            assert(false);
        }
    }
}

/// Every forcing in a well-formed circuit has a minted id.
pub proof fn lemma_known_ids(c: Circuit)
    requires
        c.wf(),
    ensures
        forall|x: Influence| #[trigger] c.knows(x) ==> x.force_id <= c.forces_minted,
{
    assert forall|x: Influence| #[trigger] c.knows(x) implies x.force_id <= c.forces_minted by {
        let n = choose|n: NodeIndex| #[trigger] c.has(n, x);
        if c.holds(n, x) {
            assert(c.wire_wf(c.nodes[n.0 as int]));
        } else {
            let e = choose|e: LineStateEvent|
                #[trigger] c.pending.contains(e) && e.node == n && forcing_of(e) == x;
            let i = choose|i: int| 0 <= i < c.pending.len() && c.pending[i] == e;
            assert(c.admits(c.pending[i]));
        }
    }
}

/// What posting an event does to the forcings of the circuit: it adds the
/// forcing of the event on its way to the target of the event, and
/// nothing else.
pub proof fn lemma_has_posted(
    c: Circuit,
    node: NodeIndex,
    state: LineState,
    time: u64,
    forcer: NodeIndex,
    force_id: u64,
)
    ensures
        ({
            let r = c.posted(node, state, time, forcer, force_id);
            let fresh = Influence { force_generator: forcer, force_kind: state, force_id };
            &&& r.nodes == c.nodes
            &&& r.has(node, fresh)
            &&& forall|n: NodeIndex, x: Influence| #[trigger] c.has(n, x) ==> r.has(n, x)
            &&& forall|n: NodeIndex, x: Influence|
                #[trigger] r.has(n, x) ==> c.has(n, x) || (n == node && x == fresh)
        }),
{
    let r = c.posted(node, state, time, forcer, force_id);
    let fresh = Influence { force_generator: forcer, force_kind: state, force_id };
    let id = (c.events_minted + 1) as u64;
    let e = LineStateEvent { node, new_state: state, time, id, forcer, force_id };
    lemma_scheduled_members(c.pending, e);
    crate::queue::lemma_slot(c.pending, e);
    assert(r.pending[crate::queue::slot(c.pending, e)] == e);
    assert(r.pending.contains(e));
    assert(r.brings(node, fresh));
    assert forall|n: NodeIndex, x: Influence| #[trigger] c.has(n, x) implies r.has(n, x) by {
        if c.brings(n, x) {
            let w = choose|w: LineStateEvent|
                #[trigger] c.pending.contains(w) && w.node == n && forcing_of(w) == x;
            let k = choose|k: int| 0 <= k < c.pending.len() && c.pending[k] == w;
            assert(r.pending.contains(c.pending[k]));
        }
    }
    assert forall|n: NodeIndex, x: Influence| #[trigger] r.has(n, x) implies c.has(n, x) || (n == node
        && x == fresh) by {
        if r.brings(n, x) {
            let w = choose|w: LineStateEvent|
                #[trigger] r.pending.contains(w) && w.node == n && forcing_of(w) == x;
            if w != e {
                assert(c.pending.contains(w));
            }
        }
    }
}

/// Posting an event keeps every forcing passed on, if the forcing of the
/// event is in the circuit already or its id is new.
pub proof fn lemma_flooded_posted(
    c: Circuit,
    node: NodeIndex,
    state: LineState,
    time: u64,
    forcer: NodeIndex,
    force_id: u64,
)
    requires
        c.flooded(),
        c.knows(Influence { force_generator: forcer, force_kind: state, force_id }) || forall|
            y: Influence,
        | #[trigger] c.knows(y) ==> y.force_id != force_id,
    ensures
        c.posted(node, state, time, forcer, force_id).flooded(),
{
    let r = c.posted(node, state, time, forcer, force_id);
    let fresh = Influence { force_generator: forcer, force_kind: state, force_id };
    lemma_has_posted(c, node, state, time, forcer, force_id);
    assert forall|x: Influence, y: Influence|
        #[trigger] r.knows(x) && #[trigger] r.knows(y) && x.force_id == y.force_id implies x == y by {
        let nx = choose|n: NodeIndex| #[trigger] r.has(n, x);
        let ny = choose|n: NodeIndex| #[trigger] r.has(n, y);
        if c.has(nx, x) {
            assert(c.knows(x));
        }
        if c.has(ny, y) {
            assert(c.knows(y));
        }
    }
    assert forall|n: int, j: int, f: NodeIndex|
        0 <= n < r.nodes.len() && 0 <= j < r.nodes[n].links.len() implies #[trigger] r.floods(n, j, f) by {
        assert(c.floods(n, j, f));
        if c.nodes[n].influences.contains_key(f) {
            let y = c.nodes[n].links[j].linked_to;
            let k = c.nodes[n].influences[f].force_id;
            let x = choose|x: Influence| #[trigger] c.has(y, x) && x.force_generator == f && x.force_id >= k;
            assert(r.has(y, x));
        }
    }
}

/// A write that takes effect keeps every forcing passed on.
pub proof fn lemma_flooded_forced_later(c: Circuit, n: NodeIndex, state: LineState, delta: PropogationDelay)
    requires
        c.wf(),
        c.flooded(),
        c.can_force_later(n, delta),
    ensures
        c.forced_later(n, state, delta).flooded(),
{
    let force_id = (c.forces_minted + 1) as u64;
    let mid = Circuit {
        nodes: c.nodes.update(n.0 as int, c.wire(n).driven(state)),
        forces_minted: force_id,
        ..c
    };
    lemma_known_ids(c);
    assert forall|m: NodeIndex, x: Influence| #[trigger] mid.has(m, x) == c.has(m, x) by {
        assert(mid.pending == c.pending);
        if c.brings(m, x) {
            let w = choose|w: LineStateEvent|
                #[trigger] c.pending.contains(w) && w.node == m && forcing_of(w) == x;
            assert(mid.pending.contains(w));
        }
        if mid.brings(m, x) {
            let w = choose|w: LineStateEvent|
                #[trigger] mid.pending.contains(w) && w.node == m && forcing_of(w) == x;
            assert(c.pending.contains(w));
        }
        if c.has_node(m) {
            assert(mid.nodes[m.0 as int].influences == c.nodes[m.0 as int].influences);
        }
        assert(mid.holds(m, x) == c.holds(m, x));
    }
    assert forall|x: Influence| #[trigger] mid.knows(x) == c.knows(x) by {
        if mid.knows(x) {
            let m = choose|m: NodeIndex| #[trigger] mid.has(m, x);
            assert(c.has(m, x));
        }
        if c.knows(x) {
            let m = choose|m: NodeIndex| #[trigger] c.has(m, x);
            assert(mid.has(m, x));
        }
    }
    assert(mid.flooded()) by {
        assert forall|x: Influence, y: Influence|
            #[trigger] mid.knows(x) && #[trigger] mid.knows(y) && x.force_id == y.force_id implies x == y by {
            assert(c.knows(x) && c.knows(y));
        }
        assert forall|m: int, j: int, f: NodeIndex|
            0 <= m < mid.nodes.len() && 0 <= j < mid.nodes[m].links.len() implies #[trigger] mid.floods(
            m,
            j,
            f,
        ) by {
            assert(c.floods(m, j, f));
            assert(mid.nodes[m].influences == c.nodes[m].influences);
            assert(mid.nodes[m].links == c.nodes[m].links);
            if c.nodes[m].influences.contains_key(f) {
                let y = c.nodes[m].links[j].linked_to;
                let k = c.nodes[m].influences[f].force_id;
                let x = choose|x: Influence|
                    #[trigger] c.has(y, x) && x.force_generator == f && x.force_id >= k;
                assert(mid.has(y, x));
            }
        }
    }
    assert forall|y: Influence| #[trigger] mid.knows(y) implies y.force_id != force_id by {
        assert(c.knows(y));
    }
    lemma_flooded_posted(mid, n, state, (c.tick + delta.0) as u64, n, force_id);
}

/// A write keeps every forcing passed on.
pub proof fn lemma_flooded_written(c: Circuit, n: NodeIndex, state: LineState)
    requires
        c.wf(),
        c.flooded(),
        c.can_write(n, state),
    ensures
        c.written(n, state).flooded(),
{
    if c.wire(n).output_state != state {
        lemma_flooded_forced_later(c, n, state, PropogationDelay(0));
    }
}

/// A circuit whose forcings are all known to a circuit in which force ids
/// identify forcings has that property too.
proof fn lemma_ids_kept(c: Circuit, r: Circuit)
    requires
        c.ids_identify(),
        forall|n: NodeIndex, x: Influence| #[trigger] r.has(n, x) ==> c.knows(x),
    ensures
        r.ids_identify(),
{
    assert forall|x: Influence, y: Influence|
        #[trigger] r.knows(x) && #[trigger] r.knows(y) && x.force_id == y.force_id implies x == y by {
        let nx = choose|n: NodeIndex| #[trigger] r.has(n, x);
        let ny = choose|n: NodeIndex| #[trigger] r.has(n, y);
        assert(c.knows(x));
        assert(c.knows(y));
    }
}

/// What a link has passed on stays passed on while the node at its near
/// end holds what it held and the node at its far end loses nothing.
proof fn lemma_floods_kept(c: Circuit, r: Circuit, n: int, j: int, f: NodeIndex)
    requires
        0 <= n < c.nodes.len(),
        0 <= j < c.nodes[n].links.len(),
        c.floods(n, j, f),
        r.nodes.len() == c.nodes.len(),
        r.nodes[n].influences == c.nodes[n].influences,
        r.nodes[n].links == c.nodes[n].links,
        forall|x: Influence|
            #[trigger] c.has(c.nodes[n].links[j].linked_to, x) ==> r.has(c.nodes[n].links[j].linked_to, x),
    ensures
        r.floods(n, j, f),
{
    if c.nodes[n].influences.contains_key(f) {
        let y = c.nodes[n].links[j].linked_to;
        let k = c.nodes[n].influences[f].force_id;
        let x = choose|x: Influence| #[trigger] c.has(y, x) && x.force_generator == f && x.force_id >= k;
        assert(r.has(y, x));
    }
}

/// Every forcing that a node holds has been passed on over every link of
/// the node, but for what node `t` holds from forcer `f`, which has been
/// passed on over the first `upto` links of `t` only.
pub open spec fn flooding_but(c: Circuit, t: NodeIndex, f: NodeIndex, upto: int) -> bool {
    forall|n: int, j: int, g: NodeIndex|
        0 <= n < c.nodes.len() && 0 <= j < c.nodes[n].links.len() && (n != t.0 || g != f || j < upto)
            ==> #[trigger] c.floods(n, j, g)
}

/// What the forcings of the circuit are once the next event has left the
/// queue and struck its target: those they were, but that the target
/// holds what the event carried in place of what it held from that forcer.
#[verifier::rlimit(30)]
pub proof fn lemma_has_arrived(c: Circuit)
    requires
        c.wf(),
        !c.quiescent(),
    ensures
        ({
            let e = c.next();
            let a = c.arrived();
            &&& a.nodes.len() == c.nodes.len()
            &&& c.has(e.node, forcing_of(e))
            &&& forall|n: int| 0 <= n < c.nodes.len() ==> (#[trigger] a.nodes[n]).links == c.nodes[n].links
            &&& forall|n: int|
                0 <= n < c.nodes.len() && n != e.node.0 ==> (#[trigger] a.nodes[n]).influences
                    == c.nodes[n].influences
            &&& forall|g: NodeIndex|
                g != e.forcer ==> a.wire(e.node).influences.contains_key(g) == c.wire(
                    e.node,
                ).influences.contains_key(g) && #[trigger] a.wire(e.node).influences[g] == c.wire(
                    e.node,
                ).influences[g]
            &&& forall|n: NodeIndex, x: Influence| #[trigger] a.has(n, x) ==> c.has(n, x)
            &&& forall|n: NodeIndex, x: Influence|
                #[trigger] c.has(n, x) ==> a.has(n, x) || (n == e.node && x.force_generator == e.forcer
                    && x.force_id <= a.wire(e.node).influences[e.forcer].force_id)
            &&& forall|n: int| 0 <= n < c.nodes.len() ==> (#[trigger] a.nodes[n]).output_state == c.nodes[n].output_state
            &&& c.stale(e) ==> a.wire(e.node).influences == c.wire(e.node).influences
            &&& !c.stale(e) ==> a.holds(e.node, forcing_of(e))
            &&& a.wire(e.node).influences.contains_key(e.forcer)
            &&& a.wire(e.node).influences[e.forcer].force_id >= e.force_id
            &&& a.wire(e.node).influences[e.forcer].force_generator == e.forcer
        }),
{
    let e = c.next();
    let a = c.arrived();
    lemma_popped_wf(c);
    assert(c.pending[0] == e);
    assert(c.pending.contains(e));
    assert(c.brings(e.node, forcing_of(e)));
    assert(c.wire_wf(c.nodes[e.node.0 as int]));
    assert forall|n: NodeIndex, x: Influence| #[trigger] a.has(n, x) implies c.has(n, x) by {
        if a.brings(n, x) {
            let w = choose|w: LineStateEvent|
                #[trigger] a.pending.contains(w) && w.node == n && forcing_of(w) == x;
            let k = choose|k: int| 0 <= k < a.pending.len() && a.pending[k] == w;
            assert(c.pending[k + 1] == w);
            assert(c.pending.contains(w));
        } else if n == e.node && x.force_generator == e.forcer {
            if !c.stale(e) {
                assert(x == forcing_of(e));
            }
        } else {
            assert(a.wire(n).influences[x.force_generator] == c.wire(n).influences[x.force_generator]);
        }
    }
    assert forall|n: NodeIndex, x: Influence| #[trigger] c.has(n, x) implies a.has(n, x) || (n == e.node
        && x.force_generator == e.forcer && x.force_id <= a.wire(e.node).influences[e.forcer].force_id) by {
        if c.holds(n, x) {
            if !(n == e.node && x.force_generator == e.forcer) {
                assert(a.wire(n).influences[x.force_generator] == c.wire(n).influences[x.force_generator]);
                assert(a.holds(n, x));
            }
        } else {
            let w = choose|w: LineStateEvent|
                #[trigger] c.pending.contains(w) && w.node == n && forcing_of(w) == x;
            if w != e {
                let k = choose|k: int| 0 <= k < c.pending.len() && c.pending[k] == w;
                assert(a.pending[k - 1] == w);
                assert(a.pending.contains(w));
                assert(a.brings(n, x));
            }
        }
    }
}

/// Once the next event has left the queue and struck its target, force
/// ids still identify forcings, and every forcing has been passed on but
/// the one that the target now holds from the forcer of the event.
#[verifier::rlimit(30)]
proof fn lemma_flooded_arrived(c: Circuit)
    requires
        c.wf(),
        c.flooded(),
        !c.quiescent(),
    ensures
        c.arrived().ids_identify(),
        flooding_but(c.arrived(), c.next().node, c.next().forcer, 0),
        c.stale(c.next()) ==> c.arrived().flooding(),
{
    let e = c.next();
    let a = c.arrived();
    lemma_has_arrived(c);
    assert forall|n: NodeIndex, x: Influence| #[trigger] a.has(n, x) implies c.knows(x) by {
        assert(c.has(n, x));
    }
    lemma_ids_kept(c, a);
    assert forall|n: int, j: int, g: NodeIndex|
        0 <= n < a.nodes.len() && 0 <= j < a.nodes[n].links.len() && (n != e.node.0 || g != e.forcer
            || c.stale(e)) implies #[trigger] a.floods(n, j, g) by {
        assert(c.floods(n, j, g));
        if a.nodes[n].influences.contains_key(g) {
            assert(c.nodes[n].influences.contains_key(g));
            assert(a.nodes[n].influences[g] == c.nodes[n].influences[g]);
            let y = c.nodes[n].links[j].linked_to;
            let k = c.nodes[n].influences[g].force_id;
            let x = choose|x: Influence| #[trigger] c.has(y, x) && x.force_generator == g && x.force_id >= k;
            if !a.has(y, x) {
                // the target has a forcing that is no older in its place
                let now = a.wire(e.node).influences[e.forcer];
                assert(a.holds(y, now));
                assert(a.has(y, now));
                if c.holds(y, x) {
                    assert(c.wire(y).held(e.forcer) == Some(x));
                } else {
                    let w = choose|w: LineStateEvent|
                        #[trigger] c.pending.contains(w) && w.node == y && forcing_of(w) == x;
                    if w != e {
                        let i = choose|i: int| 0 <= i < c.pending.len() && c.pending[i] == w;
                        assert(a.pending[i - 1] == w);
                        assert(a.pending.contains(w));
                        assert(a.brings(y, x));
                    }
                }
                assert(now.force_id >= x.force_id);
            }
        }
    }
}

/// Offering an event that has struck over the links of its target keeps
/// every forcing one that `known` knows; it keeps passed on what was
/// passed on; and where the target holds the forcing of the event, it
/// passes that on over each of the links.
#[verifier::rlimit(30)]
proof fn lemma_flooded_propagated(known: Circuit, c: Circuit, e: LineStateEvent, links: Seq<Link>)
    requires
        c.wf(),
        can_propagate(c, e, links),
        known.knows(forcing_of(e)),
        forall|n: NodeIndex, x: Influence| #[trigger] c.has(n, x) ==> known.knows(x),
        links.len() <= c.wire(e.node).links.len(),
        forall|j: int| 0 <= j < links.len() ==> links[j] == c.wire(e.node).links[j],
        flooding_but(c, e.node, e.forcer, 0),
        c.holds(e.node, forcing_of(e)) || c.flooding(),
    ensures
        forall|n: NodeIndex, x: Influence| #[trigger] c.propagated(e, links).has(n, x) ==> known.knows(x),
        c.propagated(e, links).nodes == c.nodes,
        c.holds(e.node, forcing_of(e)) ==> flooding_but(
            c.propagated(e, links),
            e.node,
            e.forcer,
            links.len() as int,
        ),
        c.flooding() ==> c.propagated(e, links).flooding(),
        forall|n: NodeIndex, x: Influence| #[trigger] c.has(n, x) ==> c.propagated(e, links).has(n, x),
    decreases links.len(),
{
    if links.len() > 0 {
        let front = links.drop_last();
        let last = links.last();
        assert forall|k: int| 0 <= k < front.len() implies c.admits_link(#[trigger] front[k]) && c.tick
            + front[k].delay.0 <= u64::MAX by {
            assert(front[k] == links[k]);
        }
        assert forall|j: int| 0 <= j < front.len() implies front[j] == c.wire(e.node).links[j] by {
            assert(front[j] == links[j]);
        }
        lemma_propagated_wf(c, e, front);
        lemma_flooded_propagated(known, c, e, front);
        let mid = c.propagated(e, front);
        let r = c.propagated(e, links);
        let at = links.len() - 1;
        assert(last == links[at]);
        assert(last == c.wire(e.node).links[at]);
        let x = forcing_of(e);
        if mid.wire(last.linked_to).has_seen(e) {
            assert(r == mid);
            if c.holds(e.node, x) {
                let h = mid.wire(last.linked_to).influences[e.forcer];
                assert(mid.wire_wf(mid.nodes[last.linked_to.0 as int]));
                assert(mid.holds(last.linked_to, h));
                assert(mid.has(last.linked_to, h));
                assert(mid.reached(last.linked_to, e.forcer, e.force_id));
            }
        } else {
            lemma_has_posted(
                mid,
                last.linked_to,
                e.new_state,
                (mid.tick + last.delay.0) as u64,
                e.forcer,
                e.force_id,
            );
            assert(r.has(last.linked_to, x));
            assert(r.reached(last.linked_to, e.forcer, e.force_id));
            assert forall|n: NodeIndex, y: Influence| #[trigger] r.has(n, y) implies known.knows(y) by {
                if !mid.has(n, y) {
                    assert(y == x);
                }
            }
        }
        if c.holds(e.node, x) {
            assert(r.floods(e.node.0 as int, at, e.forcer));
            assert forall|n: int, j: int, g: NodeIndex|
                0 <= n < r.nodes.len() && 0 <= j < r.nodes[n].links.len() && (n != e.node.0 || g
                    != e.forcer || j < links.len()) implies #[trigger] r.floods(n, j, g) by {
                if n == e.node.0 && g == e.forcer && j == at {
                } else {
                    assert(mid.floods(n, j, g));
                    lemma_floods_kept(mid, r, n, j, g);
                }
            }
        }
        if c.flooding() {
            assert forall|n: int, j: int, g: NodeIndex|
                0 <= n < r.nodes.len() && 0 <= j < r.nodes[n].links.len() implies #[trigger] r.floods(
                n,
                j,
                g,
            ) by {
                assert(mid.floods(n, j, g));
                lemma_floods_kept(mid, r, n, j, g);
            }
        }
    }
}

/// One turn of the event loop keeps every forcing passed on.
pub proof fn lemma_flooded_delivered(c: Circuit)
    requires
        c.wf(),
        c.flooded(),
        c.can_deliver(),
    ensures
        c.delivered().flooded(),
{
    if !c.quiescent() {
        let e = c.next();
        let d = c.popped();
        let a = c.arrived();
        lemma_can_relay(c);
        lemma_struck_wf(d, e);
        lemma_played_wf(d, e);
        lemma_flooded_arrived(c);
        lemma_has_arrived(c);
        let links = a.wire(e.node).links;
        assert(links == c.wire(e.node).links);
        assert(a.wire_wf(a.nodes[e.node.0 as int]));
        assert forall|n: NodeIndex, x: Influence| #[trigger] a.has(n, x) implies c.knows(x) by {
            assert(c.has(n, x));
        }
        assert(c.knows(forcing_of(e)));
        lemma_flooded_propagated(c, a, e, links);
        let b = c.relayed();
        lemma_ids_kept(c, b);
        assert(b.flooding()) by {
            if !c.stale(e) {
                assert forall|n: int, j: int, g: NodeIndex|
                    0 <= n < b.nodes.len() && 0 <= j < b.nodes[n].links.len() implies #[trigger] b.floods(
                    n,
                    j,
                    g,
                ) by {
                    assert(n != e.node.0 || g != e.forcer || j < links.len());
                }
            }
        }
        match c.wire(e.node).owner {
            Some(ei) => {
                assert(c.nodes[e.node.0 as int].owner == Some(ei));
                lemma_wants_a_node(b, ei);
                match b.elements[ei.0 as int].wants(b) {
                    Some(w) => {
                        lemma_flooded_written(b, w.node, w.state);
                    },
                    None => {},
                }
            },
            None => {},
        }
    }
}

/// Any action keeps every forcing passed on.
pub proof fn lemma_flooded_action(c: Circuit, a: Action)
    requires
        c.wf(),
        c.flooded(),
        c.can_take(a),
    ensures
        c.taken(a).flooded(),
{
    match a {
        Action::Deliver => lemma_flooded_delivered(c),
        Action::Write { node, state } => lemma_flooded_written(c, node, state),
        Action::WriteLater { node, state, delta } => {
            if c.wire(node).output_state != state {
                lemma_flooded_forced_later(c, node, state, delta);
            }
        },
    }
}

/// What a write that takes effect does to the forcings of the circuit: it adds a
/// forcing of the node by itself, to the state and under a new id, on its
/// way to the node, and nothing else; and the node is driven to the state.
proof fn lemma_has_forced_later(c: Circuit, n: NodeIndex, state: LineState, delta: PropogationDelay)
    requires
        c.wf(),
        c.can_force_later(n, delta),
    ensures
        ({
            let r = c.forced_later(n, state, delta);
            let fresh = Influence {
                force_generator: n,
                force_kind: state,
                force_id: (c.forces_minted + 1) as u64,
            };
            &&& r.nodes.len() == c.nodes.len()
            &&& r.has(n, fresh)
            &&& forall|m: NodeIndex, x: Influence| #[trigger] c.has(m, x) ==> r.has(m, x)
            &&& forall|m: NodeIndex, x: Influence| #[trigger] r.has(m, x) ==> c.has(m, x) || (m == n && x == fresh)
            &&& forall|m: NodeIndex, x: Influence| #[trigger] c.has(m, x) ==> x.force_id < fresh.force_id
            &&& forall|m: int| 0 <= m < c.nodes.len() ==> (#[trigger] r.nodes[m]).influences == c.nodes[m].influences
            &&& forall|m: int|
                0 <= m < c.nodes.len() && m != n.0 ==> (#[trigger] r.nodes[m]).output_state
                    == c.nodes[m].output_state
            &&& r.wire(n).output_state == state
        }),
{
    let force_id = (c.forces_minted + 1) as u64;
    let mid = Circuit {
        nodes: c.nodes.update(n.0 as int, c.wire(n).driven(state)),
        forces_minted: force_id,
        ..c
    };
    lemma_known_ids(c);
    assert forall|m: NodeIndex, x: Influence| #[trigger] mid.has(m, x) == c.has(m, x) by {
        assert(mid.pending == c.pending);
        if c.brings(m, x) {
            let w = choose|w: LineStateEvent|
                #[trigger] c.pending.contains(w) && w.node == m && forcing_of(w) == x;
            assert(mid.pending.contains(w));
        }
        if mid.brings(m, x) {
            let w = choose|w: LineStateEvent|
                #[trigger] mid.pending.contains(w) && w.node == m && forcing_of(w) == x;
            assert(c.pending.contains(w));
        }
        if c.has_node(m) {
            assert(mid.nodes[m.0 as int].influences == c.nodes[m.0 as int].influences);
        }
        assert(mid.holds(m, x) == c.holds(m, x));
    }
    lemma_has_posted(mid, n, state, (c.tick + delta.0) as u64, n, force_id);
    assert forall|m: NodeIndex, x: Influence| #[trigger] c.has(m, x) implies x.force_id < force_id by {
        assert(c.knows(x));
    }
    let r = c.forced_later(n, state, delta);
    assert forall|m: NodeIndex, x: Influence| #[trigger] c.has(m, x) implies r.has(m, x) by {
        assert(mid.has(m, x));
    }
    assert forall|m: NodeIndex, x: Influence| #[trigger] r.has(m, x) implies c.has(m, x) || (m == n && x == (
    Influence { force_generator: n, force_kind: state, force_id })) by {
        if mid.has(m, x) {
            assert(c.has(m, x));
        }
    }
}

/// A write that takes effect keeps the circuit ruled.
proof fn lemma_ruled_forced_later(c: Circuit, n: NodeIndex, state: LineState, delta: PropogationDelay)
    requires
        c.wf(),
        c.ruled(),
        c.can_force_later(n, delta),
    ensures
        c.forced_later(n, state, delta).ruled(),
{
    let r = c.forced_later(n, state, delta);
    let fresh = Influence { force_generator: n, force_kind: state, force_id: (c.forces_minted + 1) as u64 };
    lemma_has_forced_later(c, n, state, delta);
    assert forall|m: NodeIndex, x: Influence| #[trigger] r.newest_own(m, x) implies x.force_kind == r.wire(
        m,
    ).output_state by {
        if m == n {
            assert(r.own(n, fresh));
            if x != fresh {
                assert(c.has(n, x));
            }
        } else {
            assert(c.has(m, x));
            assert forall|y: Influence| #[trigger] c.own(m, y) implies y.force_id <= x.force_id by {
                assert(r.own(m, y));
            }
            assert(c.newest_own(m, x));
            if c.has_node(m) {
                assert(r.nodes[m.0 as int].output_state == c.nodes[m.0 as int].output_state);
            } else {
                // an event is on its way to the node, so the node exists
                let w = choose|w: LineStateEvent|
                    #[trigger] c.pending.contains(w) && w.node == m && forcing_of(w) == x;
                let k = choose|k: int| 0 <= k < c.pending.len() && c.pending[k] == w;
                assert(c.admits(c.pending[k]));
            }
        }
    }
    assert forall|m: NodeIndex| r.has_node(m) && (#[trigger] r.wire(m)).output_state
        != LineState::Floating implies exists|x: Influence| #[trigger] r.own(m, x) by {
        if m == n {
            assert(r.own(n, fresh));
        } else {
            assert(r.nodes[m.0 as int].output_state == c.nodes[m.0 as int].output_state);
            assert(c.wire(m).output_state != LineState::Floating);
            let x = choose|x: Influence| #[trigger] c.own(m, x);
            assert(r.own(m, x));
        }
    }
    assert forall|m: NodeIndex, x: Influence| #[trigger] r.has(m, x) && x.force_generator != m implies r.seen_by_forcer(
        x,
    ) by {
        assert(c.has(m, x));
        assert(c.seen_by_forcer(x));
        let f = x.force_generator;
        assert(r.nodes[f.0 as int].influences == c.nodes[f.0 as int].influences);
    }
}

/// Once the next event has left the queue and struck its target, the
/// circuit is still ruled.
#[verifier::rlimit(30)]
proof fn lemma_ruled_arrived(c: Circuit)
    requires
        c.wf(),
        c.ids_identify(),
        c.ruled(),
        !c.quiescent(),
    ensures
        c.arrived().ruled(),
{
    let e = c.next();
    let a = c.arrived();
    let t = e.node;
    let f = e.forcer;
    lemma_has_arrived(c);
    lemma_popped_wf(c);
    let now = a.wire(t).influences[f];
    assert(a.holds(t, now));
    assert(a.has(t, now));
    assert(c.has(t, now)) by {
        if c.stale(e) {
            assert(c.holds(t, now));
        } else {
            assert(now == forcing_of(e));
        }
    }
    assert forall|m: NodeIndex, x: Influence| #[trigger] a.newest_own(m, x) implies x.force_kind == a.wire(
        m,
    ).output_state by {
        assert(c.has(m, x));
        assert forall|y: Influence| #[trigger] c.own(m, y) implies y.force_id <= x.force_id by {
            if a.has(m, y) {
                assert(a.own(m, y));
            } else {
                // what was lost is no newer than what the target holds now
                assert(a.own(m, now));
            }
        }
        assert(c.newest_own(m, x));
        if c.has_node(m) {
            assert(a.nodes[m.0 as int].output_state == c.nodes[m.0 as int].output_state);
        } else {
            let w = choose|w: LineStateEvent|
                #[trigger] c.pending.contains(w) && w.node == m && forcing_of(w) == x;
            let k = choose|k: int| 0 <= k < c.pending.len() && c.pending[k] == w;
            assert(c.admits(c.pending[k]));
        }
    }
    assert forall|m: NodeIndex| a.has_node(m) && (#[trigger] a.wire(m)).output_state
        != LineState::Floating implies exists|x: Influence| #[trigger] a.own(m, x) by {
        assert(a.nodes[m.0 as int].output_state == c.nodes[m.0 as int].output_state);
        assert(c.wire(m).output_state != LineState::Floating);
        let x = choose|x: Influence| #[trigger] c.own(m, x);
        if a.has(m, x) {
            assert(a.own(m, x));
        } else {
            assert(a.own(m, now));
        }
    }
    assert forall|m: NodeIndex, x: Influence| #[trigger] a.has(m, x) && x.force_generator != m implies a.seen_by_forcer(
        x,
    ) by {
        assert(c.has(m, x));
        assert(c.seen_by_forcer(x));
        let g = x.force_generator;
        if g == t && g == f {
            let before = c.wire(t).influences[f];
            assert(c.holds(t, before));
            assert(c.has(t, before));
        } else if g == t {
            assert(a.wire(t).influences[g] == c.wire(t).influences[g]);
        } else {
            assert(a.nodes[g.0 as int].influences == c.nodes[g.0 as int].influences);
        }
    }
}

/// Offering an event over the links of a target that has seen its forcing
/// keeps the circuit ruled: the forcing never goes back to its forcer.
#[verifier::rlimit(30)]
proof fn lemma_ruled_propagated(c: Circuit, e: LineStateEvent, links: Seq<Link>)
    requires
        c.wf(),
        can_propagate(c, e, links),
        c.ruled(),
        c.has_node(e.node),
        c.wire(e.node).has_seen(e),
    ensures
        c.propagated(e, links).ruled(),
        c.propagated(e, links).nodes == c.nodes,
    decreases links.len(),
{
    if links.len() > 0 {
        let front = links.drop_last();
        let last = links.last();
        assert forall|k: int| 0 <= k < front.len() implies c.admits_link(#[trigger] front[k]) && c.tick
            + front[k].delay.0 <= u64::MAX by {
            assert(front[k] == links[k]);
        }
        lemma_propagated_wf(c, e, front);
        lemma_ruled_propagated(c, e, front);
        let mid = c.propagated(e, front);
        let r = c.propagated(e, links);
        assert(last == links[links.len() - 1]);
        let x = forcing_of(e);
        let y = last.linked_to;
        if !mid.wire(y).has_seen(e) {
            lemma_has_posted(mid, y, e.new_state, (mid.tick + last.delay.0) as u64, e.forcer, e.force_id);
            // the forcer has seen the forcing, so the far end is another node
            let h = mid.wire(e.node).influences[e.forcer];
            assert(mid.wire_wf(mid.nodes[e.node.0 as int]));
            assert(mid.holds(e.node, h));
            assert(mid.seen_by_forcer(x)) by {
                if e.node != e.forcer {
                    assert(mid.has(e.node, h) && h.force_generator != e.node);
                    assert(mid.seen_by_forcer(h));
                }
            }
            assert(y != e.forcer);
            assert forall|m: NodeIndex, z: Influence| #[trigger] r.own(m, z) == mid.own(m, z) by {
                if r.has(m, z) && !mid.has(m, z) {
                    assert(m == y && z == x);
                }
                if mid.has(m, z) {
                    assert(r.has(m, z));
                }
            }
            assert forall|m: NodeIndex, z: Influence| #[trigger] r.newest_own(m, z) implies z.force_kind
                == r.wire(m).output_state by {
                assert(mid.own(m, z));
                assert forall|v: Influence| #[trigger] mid.own(m, v) implies v.force_id <= z.force_id by {
                    assert(r.own(m, v));
                }
                assert(mid.newest_own(m, z));
            }
            assert forall|m: NodeIndex| r.has_node(m) && (#[trigger] r.wire(m)).output_state
                != LineState::Floating implies exists|z: Influence| #[trigger] r.own(m, z) by {
                assert(mid.wire(m).output_state != LineState::Floating);
                let z = choose|z: Influence| #[trigger] mid.own(m, z);
                assert(r.own(m, z));
            }
            assert forall|m: NodeIndex, z: Influence| #[trigger] r.has(m, z) && z.force_generator
                != m implies r.seen_by_forcer(z) by {
                if mid.has(m, z) {
                    assert(mid.seen_by_forcer(z));
                } else {
                    assert(z == x);
                }
            }
        }
    }
}

/// One turn of the event loop keeps the circuit coherent.
pub proof fn lemma_coherent_delivered(c: Circuit)
    requires
        c.wf(),
        c.coherent(),
        c.can_deliver(),
    ensures
        c.delivered().coherent(),
{
    lemma_flooded_delivered(c);
    if !c.quiescent() {
        let e = c.next();
        let d = c.popped();
        let a = c.arrived();
        lemma_can_relay(c);
        lemma_struck_wf(d, e);
        lemma_played_wf(d, e);
        lemma_ruled_arrived(c);
        lemma_has_arrived(c);
        let links = a.wire(e.node).links;
        assert(links == c.wire(e.node).links);
        assert(a.wire_wf(a.nodes[e.node.0 as int]));
        lemma_ruled_propagated(a, e, links);
        let b = c.relayed();
        match c.wire(e.node).owner {
            Some(ei) => {
                assert(c.nodes[e.node.0 as int].owner == Some(ei));
                lemma_wants_a_node(b, ei);
                match b.elements[ei.0 as int].wants(b) {
                    Some(w) => {
                        if b.wire(w.node).output_state != w.state {
                            lemma_ruled_forced_later(b, w.node, w.state, PropogationDelay(0));
                        }
                    },
                    None => {},
                }
            },
            None => {},
        }
    }
}

/// Any action keeps the circuit coherent.
pub proof fn lemma_coherent_action(c: Circuit, a: Action)
    requires
        c.wf(),
        c.coherent(),
        c.can_take(a),
    ensures
        c.taken(a).coherent(),
{
    lemma_flooded_action(c, a);
    match a {
        Action::Deliver => lemma_coherent_delivered(c),
        Action::Write { node, state } => {
            if c.wire(node).output_state != state {
                lemma_ruled_forced_later(c, node, state, PropogationDelay(0));
            }
        },
        Action::WriteLater { node, state, delta } => {
            if c.wire(node).output_state != state {
                lemma_ruled_forced_later(c, node, state, delta);
            }
        },
    }
}

/// At rest, what a node holds from itself says what it is driven to, and
/// a node that is driven to anything but Floating holds a forcing from
/// itself.
pub proof fn lemma_rest_is_ruled(c: Circuit, n: NodeIndex)
    requires
        c.wf(),
        c.coherent(),
        c.quiescent(),
        c.has_node(n),
    ensures
        c.wire(n).influences.contains_key(n) ==> c.wire(n).influences[n].force_kind == c.wire(n).output_state,
        c.wire(n).output_state != LineState::Floating ==> c.wire(n).influences.contains_key(n),
{
    assert(c.wire_wf(c.nodes[n.0 as int]));
    assert forall|x: Influence| #[trigger] c.own(n, x) implies c.holds(n, x) by {
        if c.brings(n, x) {
            let w = choose|w: LineStateEvent|
                #[trigger] c.pending.contains(w) && w.node == n && forcing_of(w) == x;
            assert(c.pending.contains(w));
        }
    }
    if c.wire(n).influences.contains_key(n) {
        let h = c.wire(n).influences[n];
        assert(c.holds(n, h));
        assert(c.own(n, h));
        assert(c.newest_own(n, h));
    }
    if c.wire(n).output_state != LineState::Floating {
        let x = choose|x: Influence| #[trigger] c.own(n, x);
        assert(c.holds(n, x));
    }
}

/// At rest, a node that is driven to anything but Floating has passed
/// that on over each of its links: the node at the far end of its link `j`
/// holds from it what it is driven to.
pub proof fn lemma_rest_carries_the_drive(c: Circuit, n: NodeIndex, j: int)
    requires
        c.wf(),
        c.coherent(),
        c.quiescent(),
        c.has_node(n),
        0 <= j < c.wire(n).links.len(),
        c.wire(n).output_state != LineState::Floating,
    ensures
        c.wire(c.wire(n).links[j].linked_to).influences.contains_key(n),
        c.wire(c.wire(n).links[j].linked_to).influences[n].force_kind == c.wire(n).output_state,
{
    lemma_rest_is_ruled(c, n);
    lemma_rest_is_level(c, n, j, n);
}

/// What is built on a coherent circuit is coherent.
#[verifier::rlimit(30)]
pub proof fn lemma_built_coherent(c: Circuit, r: Circuit)
    requires
        c.wf(),
        c.coherent(),
        built_on(c, r),
    ensures
        r.coherent(),
{
    assert forall|n: NodeIndex, x: Influence| #[trigger] r.has(n, x) == c.has(n, x) by {
        if r.has_node(n) {
            assert(r.nodes[n.0 as int].influences == base_wire(c, n.0 as int).influences);
        }
        if c.brings(n, x) {
            let w = choose|w: LineStateEvent|
                #[trigger] c.pending.contains(w) && w.node == n && forcing_of(w) == x;
            assert(r.pending.contains(w));
        }
        if r.brings(n, x) {
            let w = choose|w: LineStateEvent|
                #[trigger] r.pending.contains(w) && w.node == n && forcing_of(w) == x;
            assert(c.pending.contains(w));
        }
        assert(r.holds(n, x) == c.holds(n, x));
    }
    assert forall|n: NodeIndex, x: Influence| #[trigger] c.has(n, x) implies c.has_node(n) by {
        if c.brings(n, x) {
            let w = choose|w: LineStateEvent|
                #[trigger] c.pending.contains(w) && w.node == n && forcing_of(w) == x;
            let k = choose|k: int| 0 <= k < c.pending.len() && c.pending[k] == w;
            assert(c.admits(c.pending[k]));
        }
    }
    assert forall|x: Influence, y: Influence|
        #[trigger] r.knows(x) && #[trigger] r.knows(y) && x.force_id == y.force_id implies x == y by {
        let nx = choose|n: NodeIndex| #[trigger] r.has(n, x);
        let ny = choose|n: NodeIndex| #[trigger] r.has(n, y);
        assert(c.has(nx, x));
        assert(c.has(ny, y));
        assert(c.knows(x));
        assert(c.knows(y));
    }
    assert forall|n: int, j: int, f: NodeIndex|
        0 <= n < r.nodes.len() && 0 <= j < r.nodes[n].links.len() implies #[trigger] r.floods(n, j, f) by {
        if r.nodes[n].influences.contains_key(f) {
            assert(base_wire(c, n).influences.contains_key(f));
            assert(n < c.nodes.len());
            assert(!idle(c, NodeIndex(n as usize)));
            assert(r.nodes[n].links.len() == c.nodes[n].links.len());
            assert(r.nodes[n].links[j] == c.nodes[n].links[j]);
            assert(c.floods(n, j, f));
            let y = c.nodes[n].links[j].linked_to;
            let k = c.nodes[n].influences[f].force_id;
            let x = choose|x: Influence| #[trigger] c.has(y, x) && x.force_generator == f && x.force_id >= k;
            assert(r.has(y, x));
        }
    }
    assert forall|n: NodeIndex, x: Influence| #[trigger] r.newest_own(n, x) implies x.force_kind == r.wire(
        n,
    ).output_state by {
        assert(c.has(n, x));
        assert forall|y: Influence| #[trigger] c.own(n, y) implies y.force_id <= x.force_id by {
            assert(r.own(n, y));
        }
        assert(c.newest_own(n, x));
        assert(r.nodes[n.0 as int].output_state == base_wire(c, n.0 as int).output_state);
    }
    assert forall|n: NodeIndex| r.has_node(n) && (#[trigger] r.wire(n)).output_state
        != LineState::Floating implies exists|x: Influence| #[trigger] r.own(n, x) by {
        assert(r.nodes[n.0 as int].output_state == base_wire(c, n.0 as int).output_state);
        assert(c.has_node(n));
        assert(c.wire(n).output_state != LineState::Floating);
        let x = choose|x: Influence| #[trigger] c.own(n, x);
        assert(r.own(n, x));
    }
    assert forall|n: NodeIndex, x: Influence| #[trigger] r.has(n, x) && x.force_generator != n implies r.seen_by_forcer(
        x,
    ) by {
        assert(c.has(n, x));
        assert(c.seen_by_forcer(x));
        let g = x.force_generator;
        assert(r.nodes[g.0 as int].influences == base_wire(c, g.0 as int).influences);
    }
}

/// Letting elements of the circuit start to drive keeps the circuit well
/// formed and coherent.
pub proof fn lemma_energized(c: Circuit, ps: Seq<Primitive>, first: int)
    requires
        c.wf(),
        c.coherent(),
        0 <= first,
        first + ps.len() <= c.elements.len(),
        forall|i: int| 0 <= i < ps.len() ==> c.elements[first + i] == #[trigger] ps[i],
        c.events_minted + ps.len() <= u64::MAX,
        c.forces_minted + ps.len() <= u64::MAX,
    ensures
        c.energized(ps).wf(),
        c.energized(ps).coherent(),
        c.energized(ps).elements == c.elements,
        c.energized(ps).nodes.len() == c.nodes.len(),
        c.energized(ps).events_minted <= c.events_minted + ps.len(),
        c.energized(ps).forces_minted <= c.forces_minted + ps.len(),
    decreases ps.len(),
{
    if ps.len() > 0 {
        let front = ps.drop_last();
        let last = ps.last();
        assert forall|i: int| 0 <= i < front.len() implies c.elements[first + i] == #[trigger] front[i] by {
            assert(front[i] == ps[i]);
        }
        lemma_energized(c, front, first);
        let mid = c.energized(front);
        assert(last == ps[ps.len() - 1]);
        match last.standing() {
            Some(d) => {
                let at = first + ps.len() - 1;
                assert(mid.elements[at] == last);
                assert(mid.owns(at, mid.elements[at].claims()[0]));
                lemma_written_wf(mid, d.node, d.state);
                lemma_coherent_action(mid, Action::Write { node: d.node, state: d.state });
            },
            None => {},
        }
    }
}

/// Absorbing a session keeps the circuit well formed; and it keeps the
/// circuit coherent, if each link of the session joins two nodes that hold
/// no forcing yet.
pub proof fn lemma_absorbed(c: Circuit, nl: Netlist)
    requires
        c.wf(),
        c.can_absorb(nl),
    ensures
        c.absorbed(nl).0.wf(),
        c.coherent() && links_idle(c, nl.links) ==> c.absorbed(nl).0.coherent(),
{
    assert(claims_fit(nl.elements)) by {
        assert forall|i: int, k: int|
            0 <= i < nl.elements.len() && 0 <= k < nl.elements[i].claims().len() implies (
        #[trigger] nl.elements[i].claims()[k]).0 < usize::MAX by {}
    }
    assert(links_fit(nl.links));
    lemma_adopted_all(c, nl.elements);
    let (joined, complete) = c.adopted_all(nl.elements);
    if c.coherent() {
        lemma_built_coherent(c, joined);
    }
    if complete {
        lemma_grown_wf(joined, nl.next);
        lemma_grown(joined, nl.next);
        lemma_built_grown(joined, nl.next);
        let g = joined.grown(nl.next);
        lemma_built_further(c, joined, g);
        lemma_linked_all(g, nl.links);
        let l = g.linked_all(nl.links);
        if c.coherent() && links_idle(c, nl.links) {
            assert forall|i: int| 0 <= i < nl.links.len() implies idle(g, (#[trigger] nl.links[i]).0)
                && idle(g, nl.links[i].1) by {
                lemma_idle_kept(c, g, nl.links[i].0);
                lemma_idle_kept(c, g, nl.links[i].1);
            }
            lemma_built_further(c, g, l);
            lemma_built_coherent(c, l);
        }
    }
}

/// Letting the constant bits start to drive keeps the circuit well formed
/// and coherent.
pub proof fn lemma_powered_on(c: Circuit)
    requires
        c.wf(),
        c.can_power_on(),
    ensures
        c.powered_on().wf(),
        c.powered_on().elements == c.elements,
        c.coherent() ==> c.powered_on().coherent(),
{
    lemma_energized_wf(c, c.elements, 0);
    if c.coherent() {
        lemma_energized(c, c.elements, 0);
    }
}

/// Letting elements of the circuit start to drive keeps the circuit well
/// formed.
proof fn lemma_energized_wf(c: Circuit, ps: Seq<Primitive>, first: int)
    requires
        c.wf(),
        0 <= first,
        first + ps.len() <= c.elements.len(),
        forall|i: int| 0 <= i < ps.len() ==> c.elements[first + i] == #[trigger] ps[i],
        c.events_minted + ps.len() <= u64::MAX,
        c.forces_minted + ps.len() <= u64::MAX,
    ensures
        c.energized(ps).wf(),
        c.energized(ps).elements == c.elements,
        c.energized(ps).events_minted <= c.events_minted + ps.len(),
        c.energized(ps).forces_minted <= c.forces_minted + ps.len(),
    decreases ps.len(),
{
    if ps.len() > 0 {
        let front = ps.drop_last();
        let last = ps.last();
        assert forall|i: int| 0 <= i < front.len() implies c.elements[first + i] == #[trigger] front[i] by {
            assert(front[i] == ps[i]);
        }
        lemma_energized_wf(c, front, first);
        let mid = c.energized(front);
        assert(last == ps[ps.len() - 1]);
        match last.standing() {
            Some(d) => {
                let at = first + ps.len() - 1;
                assert(mid.elements[at] == last);
                assert(mid.owns(at, mid.elements[at].claims()[0]));
                lemma_written_wf(mid, d.node, d.state);
            },
            None => {},
        }
    }
}

/// Following a script keeps the circuit well formed and coherent.
pub proof fn lemma_coherent_followed(c: Circuit, script: Seq<Action>)
    requires
        c.wf(),
        c.coherent(),
        c.can_follow(script),
    ensures
        c.followed(script).wf(),
        c.followed(script).coherent(),
    decreases script.len(),
{
    if script.len() > 0 {
        let front = script.drop_last();
        assert forall|k: int| 0 <= k < front.len() implies (#[trigger] c.followed(front.subrange(0, k))).can_take(
            front[k],
        ) by {
            assert(front.subrange(0, k) =~= script.subrange(0, k));
            assert(c.followed(script.subrange(0, k)).can_take(script[k]));
        }
        lemma_coherent_followed(c, front);
        assert(script.subrange(0, script.len() - 1) =~= front);
        assert(c.followed(script.subrange(0, script.len() - 1)).can_take(script[script.len() - 1]));
        crate::laws::lemma_action(c.followed(front), c.next(), script.last());
        lemma_coherent_action(c.followed(front), script.last());
    }
}

/// A circuit comes to rest level. Build a circuit by absorbing a session
/// into an empty simulation; then write to its nodes and turn the event
/// loop, in any order. If it is at rest in the end, both ends of every
/// link hold the same from every forcer, and every node that is driven
/// to anything but Floating has passed that on over each of its links.
pub proof fn lemma_comes_to_rest_level(nl: Netlist, script: Seq<Action>, n: NodeIndex, j: int, f: NodeIndex)
    requires
        Circuit::empty().can_absorb(nl),
        Circuit::empty().absorbed(nl).1,
        Circuit::empty().absorbed(nl).0.can_follow(script),
        Circuit::empty().absorbed(nl).0.followed(script).quiescent(),
        Circuit::empty().absorbed(nl).0.followed(script).has_node(n),
        0 <= j < Circuit::empty().absorbed(nl).0.followed(script).wire(n).links.len(),
    ensures
        ({
            let c = Circuit::empty().absorbed(nl).0.followed(script);
            let far = c.wire(n).links[j].linked_to;
            &&& c.wire(n).held(f) == c.wire(far).held(f)
            &&& c.wire(n).output_state != LineState::Floating ==> c.wire(far).influences.contains_key(n)
                && c.wire(far).influences[n].force_kind == c.wire(n).output_state
        }),
{
    let empty = Circuit::empty();
    assert(empty.wf());
    assert(empty.blank());
    lemma_blank_is_coherent(empty);
    assert(links_idle(empty, nl.links));
    lemma_absorbed(empty, nl);
    let built = empty.absorbed(nl).0;
    lemma_coherent_followed(built, script);
    let c = built.followed(script);
    lemma_rest_is_level(c, n, j, f);
    if c.wire(n).output_state != LineState::Floating {
        lemma_rest_carries_the_drive(c, n, j);
    }
}

/// At rest, both ends of every link read the same.
pub proof fn lemma_rest_reads_level(c: Circuit, n: NodeIndex, j: int)
    requires
        c.wf(),
        c.flooded(),
        c.quiescent(),
        c.has_node(n),
        0 <= j < c.wire(n).links.len(),
    ensures
        c.reading(n) == c.reading(c.wire(n).links[j].linked_to),
{
    let far = c.wire(n).links[j].linked_to;
    assert forall|f: NodeIndex| c.wire(n).influences.contains_key(f) == c.wire(far).influences.contains_key(f)
        && (c.wire(n).influences.contains_key(f) ==> c.wire(n).influences[f] == c.wire(far).influences[f]) by {
        lemma_rest_is_level(c, n, j, f);
    }
    assert(c.wire(n).influences =~= c.wire(far).influences);
    crate::node::lemma_same_reading(c.wire(n), c.wire(far));
}

} // verus!
