//! Where forcings can go: a forcing stays among the nodes that links join
//! to its forcer, and it comes from a node that is written or driven.

use vstd::prelude::*;
use crate::circuit::{Action, Circuit};
use crate::coherence::{forcing_of, lemma_rest_is_level, lemma_rest_is_ruled};
use crate::laws::lemma_action;
use crate::sim::{Influence, LineState, LineStateEvent, Link, NodeIndex, PropogationDelay};
use crate::wellformed::{
    can_propagate, lemma_can_relay, lemma_played_wf, lemma_popped_wf, lemma_propagated_wf,
    lemma_struck_wf, lemma_wants_a_node,
};

verus! {

/// Whether `zone` gives both ends of every link the same number: it numbers
/// parts of the circuit that no link joins.
pub open spec fn zoned(c: Circuit, zone: spec_fn(NodeIndex) -> int) -> bool {
    forall|n: int, j: int|
        0 <= n < c.nodes.len() && 0 <= j < c.nodes[n].links.len() ==> zone(NodeIndex(n as usize)) == zone(
            (#[trigger] c.nodes[n].links[j]).linked_to,
        )
}

/// Whether every forcing in the circuit comes from a node of `sources` and
/// is in the zone of its forcer.
pub open spec fn confined(c: Circuit, zone: spec_fn(NodeIndex) -> int, sources: Set<NodeIndex>) -> bool {
    forall|n: NodeIndex, x: Influence|
        #[trigger] c.has(n, x) ==> sources.contains(x.force_generator) && zone(x.force_generator) == zone(n)
}

/// Whether every node that an element drives is one of `sources`.
pub open spec fn drives_within(c: Circuit, sources: Set<NodeIndex>) -> bool {
    forall|ei: int|
        0 <= ei < c.elements.len() ==> match (#[trigger] c.elements[ei]).drives() {
            Some(n) => sources.contains(n),
            None => true,
        }
}

/// Whether action `a` writes to a node of `sources`, if it writes.
pub open spec fn writes_within(a: Action, sources: Set<NodeIndex>) -> bool {
    match a {
        Action::Deliver => true,
        Action::Write { node, state } => sources.contains(node),
        Action::WriteLater { node, state, delta } => sources.contains(node),
    }
}

/// Whether `r` has the nodes, the links and the elements of `c`.
pub open spec fn same_build(c: Circuit, r: Circuit) -> bool {
    &&& r.elements == c.elements
    &&& r.nodes.len() == c.nodes.len()
    &&& forall|n: int| 0 <= n < c.nodes.len() ==> (#[trigger] r.nodes[n]).links == c.nodes[n].links
}

/// Posting an event that carries a forcing of the circuit to a node in the
/// zone of its forcer keeps forcings confined.
proof fn lemma_confined_posted(
    c: Circuit,
    zone: spec_fn(NodeIndex) -> int,
    sources: Set<NodeIndex>,
    node: NodeIndex,
    state: LineState,
    time: u64,
    forcer: NodeIndex,
    force_id: u64,
)
    requires
        confined(c, zone, sources),
        sources.contains(forcer),
        zone(forcer) == zone(node),
    ensures
        confined(c.posted(node, state, time, forcer, force_id), zone, sources),
        same_build(c, c.posted(node, state, time, forcer, force_id)),
{
    crate::coherence::lemma_has_posted(c, node, state, time, forcer, force_id);
    let r = c.posted(node, state, time, forcer, force_id);
    assert forall|n: NodeIndex, x: Influence| #[trigger] r.has(n, x) implies sources.contains(
        x.force_generator,
    ) && zone(x.force_generator) == zone(n) by {
        if c.has(n, x) {
        }
    }
}

/// A write to a node of the sources that takes effect keeps forcings
/// confined.
proof fn lemma_confined_forced_later(
    c: Circuit,
    zone: spec_fn(NodeIndex) -> int,
    sources: Set<NodeIndex>,
    n: NodeIndex,
    state: LineState,
    delta: PropogationDelay,
)
    requires
        c.wf(),
        c.has_node(n),
        confined(c, zone, sources),
        sources.contains(n),
    ensures
        confined(c.forced_later(n, state, delta), zone, sources),
        same_build(c, c.forced_later(n, state, delta)),
{
    let force_id = (c.forces_minted + 1) as u64;
    let mid = Circuit {
        nodes: c.nodes.update(n.0 as int, c.wire(n).driven(state)),
        forces_minted: force_id,
        ..c
    };
    assert forall|m: NodeIndex, x: Influence| #[trigger] mid.has(m, x) implies c.has(m, x) by {
        assert(mid.pending == c.pending);
        if mid.brings(m, x) {
            let w = choose|w: LineStateEvent|
                #[trigger] mid.pending.contains(w) && w.node == m && forcing_of(w) == x;
            assert(c.pending.contains(w));
        } else {
            assert(mid.nodes[m.0 as int].influences == c.nodes[m.0 as int].influences);
        }
    }
    assert(confined(mid, zone, sources));
    lemma_confined_posted(mid, zone, sources, n, state, (c.tick + delta.0) as u64, n, force_id);
}

/// Offering an event that its target holds over links of the target keeps
/// forcings confined: both ends of a link are in one zone.
proof fn lemma_confined_propagated(
    c: Circuit,
    zone: spec_fn(NodeIndex) -> int,
    sources: Set<NodeIndex>,
    e: LineStateEvent,
    links: Seq<Link>,
)
    requires
        c.wf(),
        can_propagate(c, e, links),
        confined(c, zone, sources),
        sources.contains(e.forcer),
        zone(e.forcer) == zone(e.node),
        forall|j: int| 0 <= j < links.len() ==> zone(e.node) == zone((#[trigger] links[j]).linked_to),
    ensures
        confined(c.propagated(e, links), zone, sources),
        same_build(c, c.propagated(e, links)),
    decreases links.len(),
{
    if links.len() > 0 {
        let front = links.drop_last();
        let last = links.last();
        assert forall|k: int| 0 <= k < front.len() implies c.admits_link(#[trigger] front[k]) && c.tick
            + front[k].delay.0 <= u64::MAX && zone(e.node) == zone(front[k].linked_to) by {
            assert(front[k] == links[k]);
        }
        lemma_propagated_wf(c, e, front);
        lemma_confined_propagated(c, zone, sources, e, front);
        let mid = c.propagated(e, front);
        assert(last == links[links.len() - 1]);
        if !mid.wire(last.linked_to).has_seen(e) {
            lemma_confined_posted(
                mid,
                zone,
                sources,
                last.linked_to,
                e.new_state,
                (mid.tick + last.delay.0) as u64,
                e.forcer,
                e.force_id,
            );
        }
    }
}

/// Any action that writes to a node of the sources keeps forcings
/// confined, and changes neither the nodes nor the links nor the elements.
#[verifier::rlimit(30)]
pub proof fn lemma_confined_action(c: Circuit, zone: spec_fn(NodeIndex) -> int, sources: Set<NodeIndex>, a: Action)
    requires
        c.wf(),
        zoned(c, zone),
        confined(c, zone, sources),
        drives_within(c, sources),
        c.can_take(a),
        writes_within(a, sources),
    ensures
        confined(c.taken(a), zone, sources),
        same_build(c, c.taken(a)),
{
    match a {
        Action::Deliver => {
            if !c.quiescent() {
                let e = c.next();
                let d = c.popped();
                let s = c.arrived();
                lemma_can_relay(c);
                lemma_struck_wf(d, e);
                lemma_played_wf(d, e);
                lemma_popped_wf(c);
                crate::coherence::lemma_has_arrived(c);
                assert(confined(s, zone, sources)) by {
                    assert forall|n: NodeIndex, x: Influence| #[trigger] s.has(n, x) implies sources.contains(
                        x.force_generator,
                    ) && zone(x.force_generator) == zone(n) by {
                        assert(c.has(n, x));
                    }
                }
                assert(c.has(e.node, forcing_of(e)));
                let links = s.wire(e.node).links;
                assert(links == c.wire(e.node).links);
                assert(s.wire_wf(s.nodes[e.node.0 as int]));
                assert forall|j: int| 0 <= j < links.len() implies zone(e.node) == zone(
                    (#[trigger] links[j]).linked_to,
                ) by {
                    assert(c.nodes[e.node.0 as int].links[j] == links[j]);
                    assert(NodeIndex(e.node.0 as int as usize) == e.node);
                }
                lemma_confined_propagated(s, zone, sources, e, links);
                let b = c.relayed();
                match c.wire(e.node).owner {
                    Some(ei) => {
                        assert(c.nodes[e.node.0 as int].owner == Some(ei));
                        lemma_wants_a_node(b, ei);
                        let p = b.elements[ei.0 as int];
                        crate::obedience::lemma_wants(b, b, p);
                        match p.wants(b) {
                            Some(w) => {
                                assert(c.elements[ei.0 as int].drives() == Some(w.node));
                                if b.wire(w.node).output_state != w.state {
                                    lemma_confined_forced_later(
                                        b,
                                        zone,
                                        sources,
                                        w.node,
                                        w.state,
                                        PropogationDelay(0),
                                    );
                                }
                            },
                            None => {},
                        }
                    },
                    None => {},
                }
            }
        },
        Action::Write { node, state } => {
            if c.wire(node).output_state != state {
                lemma_confined_forced_later(c, zone, sources, node, state, PropogationDelay(0));
            }
        },
        Action::WriteLater { node, state, delta } => {
            if c.wire(node).output_state != state {
                lemma_confined_forced_later(c, zone, sources, node, state, delta);
            }
        },
    }
}

/// Following a script that writes to nodes of the sources keeps forcings
/// confined, and changes neither the nodes nor the links nor the elements.
pub proof fn lemma_confined_followed(
    c: Circuit,
    zone: spec_fn(NodeIndex) -> int,
    sources: Set<NodeIndex>,
    script: Seq<Action>,
)
    requires
        c.wf(),
        zoned(c, zone),
        confined(c, zone, sources),
        drives_within(c, sources),
        c.can_follow(script),
        forall|k: int| 0 <= k < script.len() ==> writes_within(#[trigger] script[k], sources),
    ensures
        c.followed(script).wf(),
        confined(c.followed(script), zone, sources),
        same_build(c, c.followed(script)),
    decreases script.len(),
{
    if script.len() > 0 {
        let front = script.drop_last();
        assert forall|k: int| 0 <= k < front.len() implies (#[trigger] c.followed(front.subrange(0, k))).can_take(
            front[k],
        ) && writes_within(front[k], sources) by {
            assert(front.subrange(0, k) =~= script.subrange(0, k));
            assert(c.followed(script.subrange(0, k)).can_take(script[k]));
            assert(front[k] == script[k]);
        }
        lemma_confined_followed(c, zone, sources, front);
        let m = c.followed(front);
        let a = script.last();
        assert(script.subrange(0, script.len() - 1) =~= front);
        assert(c.followed(script.subrange(0, script.len() - 1)).can_take(script[script.len() - 1]));
        assert(writes_within(script[script.len() - 1], sources));
        assert(zoned(m, zone)) by {
            assert forall|n: int, j: int|
                0 <= n < m.nodes.len() && 0 <= j < m.nodes[n].links.len() implies zone(NodeIndex(n as usize))
                == zone((#[trigger] m.nodes[n].links[j]).linked_to) by {
                assert(m.nodes[n].links == c.nodes[n].links);
                assert(c.nodes[n].links[j] == m.nodes[n].links[j]);
            }
        }
        lemma_action(m, m.next(), a);
        lemma_confined_action(m, zone, sources, a);
    }
}

/// A node reads what the one forcing that it holds says: a pull to Low or
/// to High as such, a conflict as such, and a forcing that lets go as Low.
pub proof fn lemma_reads_the_one(w: crate::node::Wire, f: NodeIndex)
    requires
        w.influences.contains_key(f),
        forall|g: NodeIndex| #[trigger] w.influences.contains_key(g) ==> g == f,
    ensures
        w.reading() == match w.influences[f].force_kind {
            LineState::Low => LineState::Low,
            LineState::High => LineState::High,
            LineState::Floating => LineState::Low,
            LineState::Conflict => LineState::Conflict,
        },
{
    let kind = w.influences[f].force_kind;
    if kind.pulls_low() {
        assert(w.influences.contains_key(f) && w.influences[f].force_kind.pulls_low());
    }
    if kind.pulls_high() {
        assert(w.influences.contains_key(f) && w.influences[f].force_kind.pulls_high());
    }
    if w.pulled_low() {
        let g = choose|g: NodeIndex| #[trigger]
            w.influences.contains_key(g) && w.influences[g].force_kind.pulls_low();
        assert(g == f);
    }
    if w.pulled_high() {
        let g = choose|g: NodeIndex| #[trigger]
            w.influences.contains_key(g) && w.influences[g].force_kind.pulls_high();
        assert(g == f);
    }
}

/// Whether each node of `path` has a link to the next.
pub open spec fn joined(c: Circuit, path: Seq<NodeIndex>) -> bool {
    forall|i: int|
        0 <= i < path.len() - 1 ==> c.has_node(#[trigger] path[i]) && exists|j: int|
            0 <= j < c.wire(path[i]).links.len() && (#[trigger] c.wire(path[i]).links[j]).linked_to == path[i
                + 1]
}

/// At rest, the nodes at both ends of a path of links hold the same.
pub proof fn lemma_rest_is_level_along(c: Circuit, path: Seq<NodeIndex>)
    requires
        c.wf(),
        c.flooded(),
        c.quiescent(),
        path.len() >= 1,
        joined(c, path),
    ensures
        c.wire(path.first()).influences =~= c.wire(path.last()).influences,
    decreases path.len(),
{
    if path.len() > 1 {
        let front = path.drop_last();
        assert forall|i: int| 0 <= i < front.len() - 1 implies c.has_node(#[trigger] front[i]) && exists|
            j: int,
        |
            0 <= j < c.wire(front[i]).links.len() && (#[trigger] c.wire(front[i]).links[j]).linked_to
                == front[i + 1] by {
            assert(front[i] == path[i]);
            assert(front[i + 1] == path[i + 1]);
            assert(c.has_node(path[i]));
        }
        lemma_rest_is_level_along(c, front);
        let near = path[path.len() - 2];
        let far = path[path.len() - 1];
        assert(front.last() == near);
        assert(path.last() == far);
        assert(c.has_node(path[path.len() - 2]));
        let j = choose|j: int|
            0 <= j < c.wire(near).links.len() && (#[trigger] c.wire(near).links[j]).linked_to == far;
        assert forall|f: NodeIndex|
            c.wire(near).influences.contains_key(f) == c.wire(far).influences.contains_key(f) && (c.wire(
                near,
            ).influences.contains_key(f) ==> c.wire(near).influences[f] == c.wire(far).influences[f]) by {
            lemma_rest_is_level(c, near, j, f);
        }
        assert(c.wire(near).influences =~= c.wire(far).influences);
    }
}

/// At rest, a node reads what the source of its zone is driven to. Let a
/// path of links lead from a node that is driven to Low or to High to
/// another node, and let no other source lie in the zone of the two. Then
/// the other node reads what the first is driven to.
pub proof fn lemma_rest_reads_the_source(
    c: Circuit,
    zone: spec_fn(NodeIndex) -> int,
    sources: Set<NodeIndex>,
    path: Seq<NodeIndex>,
)
    requires
        c.wf(),
        c.coherent(),
        c.quiescent(),
        confined(c, zone, sources),
        path.len() >= 1,
        joined(c, path),
        c.has_node(path.first()),
        c.has_node(path.last()),
        c.wire(path.first()).output_state == LineState::Low || c.wire(path.first()).output_state
            == LineState::High,
        forall|f: NodeIndex| sources.contains(f) && zone(f) == zone(path.last()) ==> f == path.first(),
    ensures
        c.reading(path.last()) == c.wire(path.first()).output_state,
{
    let source = path.first();
    let here = path.last();
    lemma_rest_is_level_along(c, path);
    lemma_rest_is_ruled(c, source);
    assert(c.wire(here).influences.contains_key(source));
    assert forall|g: NodeIndex| #[trigger] c.wire(here).influences.contains_key(g) implies g == source by {
        assert(c.wire_wf(c.nodes[here.0 as int]));
        let x = c.wire(here).influences[g];
        assert(c.holds(here, x));
        assert(c.has(here, x));
    }
    lemma_reads_the_one(c.wire(here), source);
}

} // verus!
