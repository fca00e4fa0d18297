//! Signals stay Low or High: where every part of a circuit that links join
//! has one source, and nothing but Low and High is written, no node ever
//! reads a conflict and no element drives anything but Low or High.

use vstd::prelude::*;
use crate::assembly::lemma_absorbed_signals;
use crate::circuit::{Action, Circuit};
use crate::coherence::{forcing_of, lemma_has_arrived, lemma_has_posted, lemma_rest_is_ruled};
use crate::element::Primitive;
use crate::nand::{nand_of, NandElem};
use crate::netlist::Netlist;
use crate::node::Wire;
use crate::rest::{leads, lemma_built_and_followed, sound_script, sound_session, sound_sources};
use crate::sim::{Influence, LineState, LineStateEvent, Link, NodeIndex, PropogationDelay};
use crate::wellformed::{
    can_propagate, lemma_can_relay, lemma_played_wf, lemma_popped_wf, lemma_propagated_wf,
    lemma_struck_wf,
};
use crate::zones::{confined, lemma_reads_the_one, lemma_rest_is_level_along, writes_within};

verus! {

/// Whether a signal is Low or High.
pub open spec fn binary(s: LineState) -> bool {
    s == LineState::Low || s == LineState::High
}

/// Whether every forcing in the circuit pulls to Low or to High.
pub open spec fn two_valued(c: Circuit) -> bool {
    forall|n: NodeIndex, x: Influence| #[trigger] c.has(n, x) ==> binary(x.force_kind)
}

/// Whether no two nodes of `sources` lie in one zone.
pub open spec fn one_source_each(zone: spec_fn(NodeIndex) -> int, sources: Set<NodeIndex>) -> bool {
    forall|f: NodeIndex, g: NodeIndex|
        sources.contains(f) && sources.contains(g) && #[trigger] zone(f) == #[trigger] zone(g) ==> f == g
}

/// Whether action `a` writes Low or High, if it writes.
pub open spec fn writes_levels(a: Action) -> bool {
    match a {
        Action::Deliver => true,
        Action::Write { node, state } => binary(state),
        Action::WriteLater { node, state, delta } => binary(state),
    }
}

/// Posting an event that carries Low or High keeps the forcings two-valued.
proof fn lemma_levels_posted(
    c: Circuit,
    node: NodeIndex,
    state: LineState,
    time: u64,
    forcer: NodeIndex,
    force_id: u64,
)
    requires
        two_valued(c),
        binary(state),
    ensures
        two_valued(c.posted(node, state, time, forcer, force_id)),
{
    lemma_has_posted(c, node, state, time, forcer, force_id);
    let r = c.posted(node, state, time, forcer, force_id);
    assert forall|n: NodeIndex, x: Influence| #[trigger] r.has(n, x) implies binary(x.force_kind) by {
        if !c.has(n, x) {
            assert(x == Influence { force_generator: forcer, force_kind: state, force_id });
        }
    }
}

/// A write of Low or High that takes effect keeps the forcings two-valued.
proof fn lemma_levels_forced_later(c: Circuit, n: NodeIndex, state: LineState, delta: PropogationDelay)
    requires
        c.wf(),
        c.has_node(n),
        two_valued(c),
        binary(state),
    ensures
        two_valued(c.forced_later(n, state, delta)),
{
    let force_id = (c.forces_minted + 1) as u64;
    let mid = Circuit {
        nodes: c.nodes.update(n.0 as int, c.wire(n).driven(state)),
        forces_minted: force_id,
        ..c
    };
    assert forall|m: NodeIndex, x: Influence| #[trigger] mid.has(m, x) implies c.has(m, x) by {
        assert(mid.pending == c.pending);
        if mid.brings(m, x) {
            let w = choose|w: LineStateEvent|
                #[trigger] mid.pending.contains(w) && w.node == m && forcing_of(w) == x;
            assert(c.pending.contains(w));
        } else {
            assert(mid.nodes[m.0 as int].influences == c.nodes[m.0 as int].influences);
        }
    }
    assert(two_valued(mid));
    lemma_levels_posted(mid, n, state, (c.tick + delta.0) as u64, n, force_id);
}

/// Offering an event that carries Low or High over links keeps the
/// forcings two-valued.
proof fn lemma_levels_propagated(c: Circuit, e: LineStateEvent, links: Seq<Link>)
    requires
        c.wf(),
        can_propagate(c, e, links),
        two_valued(c),
        binary(e.new_state),
    ensures
        two_valued(c.propagated(e, links)),
    decreases links.len(),
{
    if links.len() > 0 {
        let front = links.drop_last();
        let last = links.last();
        assert forall|k: int| 0 <= k < front.len() implies c.admits_link(#[trigger] front[k]) && c.tick
            + front[k].delay.0 <= u64::MAX by {
            assert(front[k] == links[k]);
        }
        lemma_propagated_wf(c, e, front);
        lemma_levels_propagated(c, e, front);
        let mid = c.propagated(e, front);
        assert(last == links[links.len() - 1]);
        if !mid.wire(last.linked_to).has_seen(e) {
            lemma_levels_posted(
                mid,
                last.linked_to,
                e.new_state,
                (mid.tick + last.delay.0) as u64,
                e.forcer,
                e.force_id,
            );
        }
    }
}

/// A node that holds forcings of one forcer at most, each a pull to Low or
/// to High, reads Low or High.
pub proof fn lemma_wire_reads_a_level(w: Wire)
    requires
        forall|f: NodeIndex, g: NodeIndex|
            #[trigger] w.influences.contains_key(f) && #[trigger] w.influences.contains_key(g) ==> f == g,
        forall|f: NodeIndex| #[trigger] w.influences.contains_key(f) ==> binary(w.influences[f].force_kind),
    ensures
        binary(w.reading()),
{
    if exists|f: NodeIndex| w.influences.contains_key(f) {
        let f = choose|f: NodeIndex| w.influences.contains_key(f);
        lemma_reads_the_one(w, f);
    } else {
        assert(!w.pulled_low());
        assert(!w.pulled_high());
    }
}

/// Where every zone has one source and the forcings are two-valued, every
/// node reads Low or High.
pub proof fn lemma_reads_a_level(
    c: Circuit,
    zone: spec_fn(NodeIndex) -> int,
    sources: Set<NodeIndex>,
    n: NodeIndex,
)
    requires
        c.wf(),
        c.has_node(n),
        confined(c, zone, sources),
        two_valued(c),
        one_source_each(zone, sources),
    ensures
        binary(c.reading(n)),
{
    let w = c.wire(n);
    assert(c.wire_wf(c.nodes[n.0 as int]));
    assert forall|f: NodeIndex| #[trigger] w.influences.contains_key(f) implies binary(
        w.influences[f].force_kind,
    ) && sources.contains(f) && zone(f) == zone(n) by {
        let x = w.influences[f];
        assert(c.holds(n, x));
        assert(c.has(n, x));
    }
    lemma_wire_reads_a_level(w);
}

/// An action that writes Low or High, if it writes, keeps the forcings
/// two-valued, where every zone has one source and the forcings are
/// confined to their zones afterwards.
#[verifier::rlimit(50)]
pub proof fn lemma_levels_action(c: Circuit, zone: spec_fn(NodeIndex) -> int, sources: Set<NodeIndex>, a: Action)
    requires
        c.wf(),
        two_valued(c),
        c.can_take(a),
        writes_levels(a),
        c.taken(a).wf(),
        confined(c.taken(a), zone, sources),
        one_source_each(zone, sources),
    ensures
        two_valued(c.taken(a)),
{
    match a {
        Action::Deliver => {
            if !c.quiescent() {
                let e = c.next();
                let d = c.popped();
                let s = c.arrived();
                lemma_can_relay(c);
                lemma_struck_wf(d, e);
                lemma_played_wf(d, e);
                lemma_popped_wf(c);
                lemma_has_arrived(c);
                assert(two_valued(s)) by {
                    assert forall|n: NodeIndex, x: Influence| #[trigger] s.has(n, x) implies binary(
                        x.force_kind,
                    ) by {
                        assert(c.has(n, x));
                    }
                }
                assert(c.has(e.node, forcing_of(e)));
                assert(binary(e.new_state));
                let links = s.wire(e.node).links;
                assert(s.wire_wf(s.nodes[e.node.0 as int]));
                lemma_levels_propagated(s, e, links);
                let b = c.relayed();
                let r = c.delivered();
                match c.wire(e.node).owner {
                    Some(ei) => {
                        assert(c.nodes[e.node.0 as int].owner == Some(ei));
                        let p = b.elements[ei.0 as int];
                        assert forall|k: int| 0 <= k < p.claims().len() implies b.has_node(
                            #[trigger] p.claims()[k],
                        ) by {
                            assert(b.owns(ei.0 as int, b.elements[ei.0 as int].claims()[k]));
                        }
                        match p.wants(b) {
                            Some(w) => {
                                if b.wire(w.node).output_state != w.state {
                                    assert(binary(w.state)) by {
                                        match p {
                                            Primitive::Nand(g) => {
                                                assert(p.claims()[0] == g.a);
                                                assert(p.claims()[1] == g.b);
                                                lemma_reads_as_afterwards(b, r, zone, sources, g.a);
                                                lemma_reads_as_afterwards(b, r, zone, sources, g.b);
                                            },
                                            Primitive::Pin(_) => {},
                                            Primitive::Constant(k) => {},
                                        }
                                    }
                                    assert(p.claims().contains(w.node)) by {
                                        match p {
                                            Primitive::Nand(g) => {
                                                assert(p.claims()[2] == w.node);
                                            },
                                            Primitive::Pin(_) => {},
                                            Primitive::Constant(k) => {
                                                assert(p.claims()[0] == w.node);
                                            },
                                        }
                                    }
                                    lemma_levels_forced_later(b, w.node, w.state, PropogationDelay(0));
                                }
                            },
                            None => {},
                        }
                    },
                    None => {},
                }
            }
        },
        Action::Write { node, state } => {
            if c.wire(node).output_state != state {
                lemma_levels_forced_later(c, node, state, PropogationDelay(0));
            }
        },
        Action::WriteLater { node, state, delta } => {
            if c.wire(node).output_state != state {
                lemma_levels_forced_later(c, node, state, delta);
            }
        },
    }
}

/// A node reads Low or High in a circuit whose forcings are two-valued, if
/// it holds the same in a circuit with one source in every zone whose
/// forcings are confined.
proof fn lemma_reads_as_afterwards(
    b: Circuit,
    r: Circuit,
    zone: spec_fn(NodeIndex) -> int,
    sources: Set<NodeIndex>,
    n: NodeIndex,
)
    requires
        b.wf(),
        b.has_node(n),
        r.has_node(n),
        two_valued(b),
        r.wire(n).influences == b.wire(n).influences,
        confined(r, zone, sources),
        one_source_each(zone, sources),
    ensures
        binary(b.reading(n)),
{
    let w = b.wire(n);
    assert(b.wire_wf(b.nodes[n.0 as int]));
    assert forall|f: NodeIndex| #[trigger] w.influences.contains_key(f) implies binary(
        w.influences[f].force_kind,
    ) && sources.contains(f) && zone(f) == zone(n) by {
        let x = w.influences[f];
        assert(b.holds(n, x));
        assert(b.has(n, x));
        assert(r.holds(n, x));
        assert(r.has(n, x));
    }
    lemma_wire_reads_a_level(w);
}

/// A circuit built from nothing, with one source in every zone, stays
/// two-valued whatever is written to its pads, as long as it is Low or
/// High, and however often the event loop is turned: every forcing pulls
/// to Low or to High, and every node reads Low or High.
pub proof fn lemma_built_keeps_levels(
    nl: Netlist,
    zone: spec_fn(NodeIndex) -> int,
    pads: Set<NodeIndex>,
    sources: Set<NodeIndex>,
    script: Seq<Action>,
)
    requires
        sound_session(nl, zone),
        sound_sources(nl.elements, pads, sources),
        sound_script(nl, script, pads),
        one_source_each(zone, sources),
        forall|k: int| 0 <= k < script.len() ==> writes_levels(#[trigger] script[k]),
    ensures
        two_valued(Circuit::empty().absorbed(nl).0.followed(script)),
        forall|n: NodeIndex|
            Circuit::empty().absorbed(nl).0.followed(script).has_node(n) ==> binary(
                #[trigger] Circuit::empty().absorbed(nl).0.followed(script).reading(n),
            ),
    decreases script.len(),
{
    let empty = Circuit::empty();
    let built = empty.absorbed(nl).0;
    let c = built.followed(script);
    lemma_built_and_followed(nl, zone, pads, sources, script);
    if script.len() == 0 {
        lemma_absorbed_signals(empty, nl);
        assert forall|n: NodeIndex, x: Influence| !(#[trigger] built.has(n, x)) by {
            if built.brings(n, x) {
                let w = choose|w: LineStateEvent|
                    #[trigger] built.pending.contains(w) && w.node == n && forcing_of(w) == x;
                assert(built.pending.contains(w));
            }
        }
    } else {
        let front = script.drop_last();
        assert forall|k: int| 0 <= k < front.len() implies (#[trigger] built.followed(
            front.subrange(0, k),
        )).can_take(front[k]) by {
            assert(front.subrange(0, k) =~= script.subrange(0, k));
            assert(built.followed(script.subrange(0, k)).can_take(script[k]));
        }
        assert forall|k: int| 0 <= k < front.len() implies writes_within(#[trigger] front[k], pads)
            && writes_levels(front[k]) by {
            assert(front[k] == script[k]);
        }
        lemma_built_keeps_levels(nl, zone, pads, sources, front);
        lemma_built_and_followed(nl, zone, pads, sources, front);
        let m = built.followed(front);
        let a = script.last();
        assert(script.subrange(0, script.len() - 1) =~= front);
        assert(built.followed(script.subrange(0, script.len() - 1)).can_take(script[script.len() - 1]));
        assert(writes_levels(script[script.len() - 1]));
        lemma_levels_action(m, zone, sources, a);
    }
    assert forall|n: NodeIndex| c.has_node(n) implies binary(#[trigger] c.reading(n)) by {
        lemma_reads_a_level(c, zone, sources, n);
    }
}

/// At rest, a NAND gate to one of whose inputs a path leads drives its
/// output to the NAND of what its inputs read; and where every zone has
/// one source and the forcings are two-valued, that is Low or High.
pub proof fn lemma_nand_drives_a_level(
    c: Circuit,
    zone: spec_fn(NodeIndex) -> int,
    sources: Set<NodeIndex>,
    ei: int,
    g: NandElem,
    to: Seq<NodeIndex>,
)
    requires
        c.wf(),
        c.coherent(),
        c.obedient(),
        c.quiescent(),
        confined(c, zone, sources),
        two_valued(c),
        one_source_each(zone, sources),
        0 <= ei < c.elements.len(),
        c.elements[ei] == Primitive::Nand(g),
        leads(c, zone, sources, to),
        to.last() == g.a || to.last() == g.b,
    ensures
        c.wire(g.output).output_state == nand_of(c.reading(g.a), c.reading(g.b)),
        binary(c.wire(g.output).output_state),
{
    reveal(leads);
    lemma_rest_is_level_along(c, to);
    lemma_rest_is_ruled(c, to.first());
    let p = Primitive::Nand(g);
    assert(p.claims()[0] == g.a);
    assert(p.claims()[1] == g.b);
    assert(c.owns(ei, c.elements[ei].claims()[0]));
    assert(c.owns(ei, c.elements[ei].claims()[1]));
    assert(c.heeds(c.elements[ei]));
    assert(!c.quiet(p)) by {
        if to.last() == g.a {
            assert(c.wire(p.claims()[0]).influences.contains_key(to.first()));
        } else {
            assert(c.wire(p.claims()[1]).influences.contains_key(to.first()));
        }
    }
    lemma_reads_a_level(c, zone, sources, g.a);
    lemma_reads_a_level(c, zone, sources, g.b);
}

} // verus!
