//! What holds of a circuit that was built from nothing and has come to
//! rest: the ground on which the laws of single circuits stand.

use vstd::prelude::*;
use crate::assembly::{
    base_wire, built_on, claims_fit, idle, lemma_adopted_all, lemma_adopted_wf, lemma_built_further,
    lemma_built_grown, lemma_built_linked, lemma_claimed_all, lemma_grown, lemma_grown_wf,
    lemma_idle_kept, lemma_linked, lemma_linked_all, links_fit, links_idle,
};
use crate::circuit::{Action, Circuit};
use crate::coherence::{
    forcing_of, lemma_absorbed, lemma_blank_is_coherent, lemma_coherent_followed, lemma_rest_is_ruled,
};
use crate::element::Primitive;
use crate::nand::{nand_of, NandElem};
use crate::netlist::{Netlist, Wiring};
use crate::obedience::{
    claims_idle, lemma_absorbed_elements, lemma_obedient_absorbed, lemma_obedient_followed,
};
use crate::sim::{Influence, LineState, LineStateEvent, NodeIndex};
use crate::zones::{
    confined, drives_within, joined, lemma_confined_followed, lemma_rest_reads_the_source, same_build,
    writes_within, zoned,
};

verus! {

/// Whether node `a` has a link that leads to node `b`.
#[verifier::opaque]
pub open spec fn has_link(c: Circuit, a: NodeIndex, b: NodeIndex) -> bool {
    c.has_node(a) && exists|j: int| 0 <= j < c.wire(a).links.len() && (#[trigger] c.wire(a).links[j]).linked_to == b
}

/// Whether every link of `links` joins both ways in `c`.
pub open spec fn all_linked(c: Circuit, links: Seq<Wiring>) -> bool {
    forall|i: int|
        0 <= i < links.len() ==> has_link(c, (#[trigger] links[i]).0, links[i].1) && has_link(
            c,
            links[i].1,
            links[i].0,
        )
}

/// Whether `zone` gives both ends of every link of `links` the same number.
pub open spec fn zone_fits(links: Seq<Wiring>, zone: spec_fn(NodeIndex) -> int) -> bool {
    forall|i: int| 0 <= i < links.len() ==> zone((#[trigger] links[i]).0) == zone(links[i].1)
}

/// A link that a node has, it has in what is built on the circuit.
proof fn lemma_link_kept(c: Circuit, r: Circuit, a: NodeIndex, b: NodeIndex)
    requires
        built_on(c, r),
        has_link(c, a, b),
    ensures
        has_link(r, a, b),
{
    reveal(has_link);
    let j = choose|j: int| 0 <= j < c.wire(a).links.len() && (#[trigger] c.wire(a).links[j]).linked_to == b;
    assert(base_wire(c, a.0 as int).links.is_prefix_of(r.nodes[a.0 as int].links));
    assert(r.wire(a).links[j] == c.wire(a).links[j]);
}

/// Laying links between nodes that hold nothing, each within one zone,
/// keeps the zones apart and joins the ends of each link both ways.
pub proof fn lemma_linked_all_joins(c: Circuit, links: Seq<Wiring>, zone: spec_fn(NodeIndex) -> int)
    requires
        c.wf(),
        c.links_minted + links.len() <= u64::MAX,
        links_fit(links),
        links_idle(c, links),
        zoned(c, zone),
        zone_fits(links, zone),
    ensures
        zoned(c.linked_all(links), zone),
        all_linked(c.linked_all(links), links),
    decreases links.len(),
{
    reveal(has_link);
    if links.len() > 0 {
        let front = links.drop_last();
        let l = links.last();
        let (a, b) = (l.0, l.1);
        assert(l == links[links.len() - 1]);
        assert forall|i: int| 0 <= i < front.len() implies (#[trigger] front[i]).0.0 < usize::MAX
            && front[i].1.0 < usize::MAX && idle(c, front[i].0) && idle(c, front[i].1) && zone(front[i].0)
            == zone(front[i].1) by {
            assert(front[i] == links[i]);
        }
        lemma_linked_all(c, front);
        lemma_linked_all_joins(c, front, zone);
        let m = c.linked_all(front);
        let r = c.linked_all(links);
        lemma_idle_kept(c, m, a);
        lemma_idle_kept(c, m, b);
        lemma_linked(m, a, b, l.2);
        lemma_built_linked(m, a, b, l.2);
        assert forall|n: int, j: int|
            0 <= n < r.nodes.len() && 0 <= j < r.nodes[n].links.len() implies zone(NodeIndex(n as usize))
            == zone((#[trigger] r.nodes[n].links[j]).linked_to) by {
            let before = base_wire(m, n).links;
            if j < before.len() {
                assert(n < m.nodes.len());
                assert(r.nodes[n].links[j] == m.nodes[n].links[j]);
            } else {
                assert(NodeIndex(n as usize) == a || NodeIndex(n as usize) == b);
            }
        }
        assert forall|i: int| 0 <= i < links.len() implies has_link(r, (#[trigger] links[i]).0, links[i].1)
            && has_link(r, links[i].1, links[i].0) by {
            if i < front.len() {
                assert(front[i] == links[i]);
                lemma_link_kept(m, r, links[i].0, links[i].1);
                lemma_link_kept(m, r, links[i].1, links[i].0);
            } else {
                let on_a = r.nodes[a.0 as int].links;
                let on_b = r.nodes[b.0 as int].links;
                assert(on_a[base_wire(m, a.0 as int).links.len() as int].linked_to == b);
                assert(on_b[on_b.len() - 1].linked_to == a);
            }
        }
    }
}

/// Whether no node is claimed twice by the elements of `ps`, by one of
/// them or by two.
pub open spec fn distinct_claims(ps: Seq<Primitive>) -> bool {
    forall|i: int, k: int, i2: int, k2: int|
        0 <= i < ps.len() && 0 <= k < ps[i].claims().len() && 0 <= i2 < ps.len() && 0 <= k2
            < ps[i2].claims().len() && (i != i2 || k != k2) ==> #[trigger] ps[i].claims()[k]
            != #[trigger] ps[i2].claims()[k2]
}

/// Whether every node that an element of `ps` claims can be claimed in `c`.
pub open spec fn all_claimable(c: Circuit, ps: Seq<Primitive>) -> bool {
    forall|i: int, k: int|
        0 <= i < ps.len() && 0 <= k < ps[i].claims().len() ==> c.claimable(#[trigger] ps[i].claims()[k])
}

/// Elements that claim different nodes, none of which is owned, all join.
pub proof fn lemma_adopted_complete(c: Circuit, ps: Seq<Primitive>)
    requires
        c.wf(),
        c.elements.len() + ps.len() <= usize::MAX,
        claims_fit(ps),
        distinct_claims(ps),
        all_claimable(c, ps),
    ensures
        c.adopted_all(ps).1,
    decreases ps.len(),
{
    if ps.len() > 0 {
        let p = ps.first();
        let rest = ps.drop_first();
        assert forall|k: int| 0 <= k < p.claims().len() implies (#[trigger] p.claims()[k]).0 < usize::MAX
            && c.claimable(p.claims()[k]) by {
            assert(ps[0].claims()[k].0 < usize::MAX);
            assert(c.claimable(ps[0].claims()[k]));
        }
        assert(p.claims().no_duplicates()) by {
            assert forall|k: int, k2: int|
                0 <= k < p.claims().len() && 0 <= k2 < p.claims().len() && k != k2 implies p.claims()[k]
                != p.claims()[k2] by {
                assert(ps[0].claims()[k] != ps[0].claims()[k2]);
            }
        }
        assert(c.can_adopt(p));
        lemma_adopted_wf(c, p);
        lemma_claimed_all(c, p.claims(), c.next_element());
        let m = c.adopted(p);
        assert forall|i: int, k: int| 0 <= i < rest.len() && 0 <= k < rest[i].claims().len() implies (
        #[trigger] rest[i].claims()[k]).0 < usize::MAX && m.claimable(rest[i].claims()[k]) by {
            let n = rest[i].claims()[k];
            assert(rest[i] == ps[i + 1]);
            assert(ps[i + 1].claims()[k].0 < usize::MAX);
            assert(c.claimable(ps[i + 1].claims()[k]));
            if p.claims().contains(n) {
                let k0 = choose|k0: int| 0 <= k0 < p.claims().len() && p.claims()[k0] == n;
                assert(ps[0].claims()[k0] != ps[i + 1].claims()[k]);
            }
            if m.has_node(n) {
                assert(NodeIndex(n.0 as int as usize) == n);
                assert(m.nodes[n.0 as int] == base_wire(c, n.0 as int));
            }
        }
        assert(distinct_claims(rest)) by {
            assert forall|i: int, k: int, i2: int, k2: int|
                0 <= i < rest.len() && 0 <= k < rest[i].claims().len() && 0 <= i2 < rest.len() && 0 <= k2
                    < rest[i2].claims().len() && (i != i2 || k != k2) implies #[trigger] rest[i].claims()[k]
                != #[trigger] rest[i2].claims()[k2] by {
                assert(ps[i + 1].claims()[k] != ps[i2 + 1].claims()[k2]);
            }
        }
        lemma_adopted_complete(m, rest);
    }
}

/// Whether the session `nl` stages a circuit in which no node is claimed
/// twice and `zone` numbers parts that no link joins.
pub open spec fn sound_session(nl: Netlist, zone: spec_fn(NodeIndex) -> int) -> bool {
    &&& Circuit::empty().can_absorb(nl)
    &&& distinct_claims(nl.elements)
    &&& zone_fits(nl.links, zone)
}

/// Whether `script` can be followed on the circuit that `nl` stages, and
/// writes to nodes of `pads` only.
pub open spec fn sound_script(nl: Netlist, script: Seq<Action>, pads: Set<NodeIndex>) -> bool {
    &&& Circuit::empty().absorbed(nl).0.can_follow(script)
    &&& forall|k: int| 0 <= k < script.len() ==> writes_within(#[trigger] script[k], pads)
}

/// Whether the nodes of `sources` are those of `pads`, which no element
/// of `ps` drives, and the nodes that the elements of `ps` drive.
pub open spec fn sound_sources(ps: Seq<Primitive>, pads: Set<NodeIndex>, sources: Set<NodeIndex>) -> bool {
    &&& forall|n: NodeIndex| pads.contains(n) ==> sources.contains(n)
    &&& forall|i: int|
        0 <= i < ps.len() ==> match (#[trigger] ps[i]).drives() {
            Some(n) => sources.contains(n) && !pads.contains(n),
            None => true,
        }
}

/// What holds of a circuit built from nothing, whatever is written to its
/// pads and however often the event loop is turned: it is well formed and
/// coherent, its elements are those of the session and have their way,
/// its links are those of the session, and every forcing comes from a
/// source and stays in the zone of its forcer.
pub proof fn lemma_built_and_followed(
    nl: Netlist,
    zone: spec_fn(NodeIndex) -> int,
    pads: Set<NodeIndex>,
    sources: Set<NodeIndex>,
    script: Seq<Action>,
)
    requires
        sound_session(nl, zone),
        sound_sources(nl.elements, pads, sources),
        sound_script(nl, script, pads),
    ensures
        ({
            let c = Circuit::empty().absorbed(nl).0.followed(script);
            &&& Circuit::empty().absorbed(nl).1
            &&& c.wf()
            &&& c.coherent()
            &&& c.obedient()
            &&& confined(c, zone, sources)
            &&& c.elements == nl.elements
            &&& all_linked(c, nl.links)
        }),
{
    let empty = Circuit::empty();
    assert(empty.wf());
    assert(empty.blank());
    lemma_blank_is_coherent(empty);
    assert(links_idle(empty, nl.links));
    assert(claims_idle(empty, nl.elements));
    assert(empty.obedient());
    assert(claims_fit(nl.elements)) by {
        assert forall|i: int, k: int|
            0 <= i < nl.elements.len() && 0 <= k < nl.elements[i].claims().len() implies (
        #[trigger] nl.elements[i].claims()[k]).0 < usize::MAX by {}
    }
    assert(links_fit(nl.links));
    assert(all_claimable(empty, nl.elements));
    lemma_adopted_complete(empty, nl.elements);
    lemma_absorbed(empty, nl);
    lemma_obedient_absorbed(empty, nl);
    lemma_absorbed_elements(empty, nl);
    assert(empty.elements + nl.elements =~= nl.elements);

    // the circuit as it was built holds nothing, and its links are those
    // of the session
    lemma_adopted_all(empty, nl.elements);
    let joined_up = empty.adopted_all(nl.elements).0;
    lemma_grown_wf(joined_up, nl.next);
    lemma_grown(joined_up, nl.next);
    lemma_built_grown(joined_up, nl.next);
    let g = joined_up.grown(nl.next);
    lemma_built_further(empty, joined_up, g);
    assert forall|i: int| 0 <= i < nl.links.len() implies idle(g, (#[trigger] nl.links[i]).0) && idle(
        g,
        nl.links[i].1,
    ) by {
        lemma_idle_kept(empty, g, nl.links[i].0);
        lemma_idle_kept(empty, g, nl.links[i].1);
    }
    assert(zoned(g, zone)) by {
        assert forall|n: int, j: int|
            0 <= n < g.nodes.len() && 0 <= j < g.nodes[n].links.len() implies zone(NodeIndex(n as usize))
            == zone((#[trigger] g.nodes[n].links[j]).linked_to) by {
            if n < joined_up.nodes.len() {
                assert(joined_up.nodes[n].links == base_wire(empty, n).links);
            }
        }
    }
    lemma_linked_all(g, nl.links);
    lemma_linked_all_joins(g, nl.links, zone);
    let l = g.linked_all(nl.links);
    lemma_built_further(empty, g, l);
    let built = empty.absorbed(nl).0;
    assert(built == l);
    assert(confined(built, zone, sources)) by {
        assert forall|n: NodeIndex, x: Influence| !(#[trigger] built.has(n, x)) by {
            if built.holds(n, x) {
                assert(built.nodes[n.0 as int].influences == base_wire(empty, n.0 as int).influences);
            }
            if built.brings(n, x) {
                let w = choose|w: LineStateEvent|
                    #[trigger] built.pending.contains(w) && w.node == n && forcing_of(w) == x;
                assert(built.pending.contains(w));
            }
        }
    }
    assert(drives_within(built, sources));
    assert(built.spared(script)) by {
        assert forall|k: int| 0 <= k < script.len() implies built.spares(#[trigger] script[k]) by {
            assert(writes_within(script[k], pads));
        }
    }
    assert forall|k: int| 0 <= k < script.len() implies writes_within(#[trigger] script[k], sources) by {
        assert(writes_within(script[k], pads));
    }
    lemma_coherent_followed(built, script);
    lemma_obedient_followed(built, script);
    lemma_confined_followed(built, zone, sources, script);
    let c = built.followed(script);
    assert forall|i: int| 0 <= i < nl.links.len() implies has_link(c, (#[trigger] nl.links[i]).0, nl.links[i].1)
        && has_link(c, nl.links[i].1, nl.links[i].0) by {
        lemma_link_still(built, c, nl.links[i].0, nl.links[i].1);
        lemma_link_still(built, c, nl.links[i].1, nl.links[i].0);
    }
}

/// A link that a node has, it has in a circuit of the same build.
proof fn lemma_link_still(c: Circuit, r: Circuit, a: NodeIndex, b: NodeIndex)
    requires
        same_build(c, r),
        has_link(c, a, b),
    ensures
        has_link(r, a, b),
{
    reveal(has_link);
    let j = choose|j: int| 0 <= j < c.wire(a).links.len() && (#[trigger] c.wire(a).links[j]).linked_to == b;
    assert(r.nodes[a.0 as int].links == c.nodes[a.0 as int].links);
    assert(r.wire(a).links[j] == c.wire(a).links[j]);
}

/// Whether `path` leads from a source to a node that no other source can
/// reach: its first node is driven to Low or to High, links join each of
/// its nodes to the next, and no other node of `sources` is in the zone of
/// its last node.
#[verifier::opaque]
pub open spec fn leads(
    c: Circuit,
    zone: spec_fn(NodeIndex) -> int,
    sources: Set<NodeIndex>,
    path: Seq<NodeIndex>,
) -> bool {
    &&& path.len() >= 1
    &&& joined(c, path)
    &&& c.has_node(path.first())
    &&& c.has_node(path.last())
    &&& c.wire(path.first()).output_state == LineState::Low || c.wire(path.first()).output_state
        == LineState::High
    &&& forall|f: NodeIndex| sources.contains(f) && zone(f) == zone(path.last()) ==> f == path.first()
}

/// At rest, a NAND gate to whose inputs paths lead drives its output to
/// the NAND of what the sources of the paths are driven to; and so its
/// output is driven to Low or to High.
pub proof fn lemma_nand_at_rest(
    c: Circuit,
    zone: spec_fn(NodeIndex) -> int,
    sources: Set<NodeIndex>,
    ei: int,
    g: NandElem,
    to_a: Seq<NodeIndex>,
    to_b: Seq<NodeIndex>,
)
    requires
        c.wf(),
        c.coherent(),
        c.obedient(),
        c.quiescent(),
        confined(c, zone, sources),
        0 <= ei < c.elements.len(),
        c.elements[ei] == Primitive::Nand(g),
        leads(c, zone, sources, to_a),
        leads(c, zone, sources, to_b),
        to_a.last() == g.a,
        to_b.last() == g.b,
    ensures
        c.reading(g.a) == c.wire(to_a.first()).output_state,
        c.reading(g.b) == c.wire(to_b.first()).output_state,
        c.wire(g.output).output_state == nand_of(
            c.wire(to_a.first()).output_state,
            c.wire(to_b.first()).output_state,
        ),
        c.wire(g.output).output_state == LineState::Low || c.wire(g.output).output_state == LineState::High,
{
    reveal(leads);
    lemma_rest_reads_the_source(c, zone, sources, to_a);
    lemma_rest_reads_the_source(c, zone, sources, to_b);
    crate::zones::lemma_rest_is_level_along(c, to_a);
    lemma_rest_is_ruled(c, to_a.first());
    let p = Primitive::Nand(g);
    assert(c.heeds(c.elements[ei]));
    assert(!c.quiet(p)) by {
        assert(p.claims()[0] == g.a);
        assert(c.wire(p.claims()[0]).influences.contains_key(to_a.first()));
    }
}

/// At rest, a source that no other source can reach reads what it is
/// driven to.
pub proof fn lemma_source_at_rest(
    c: Circuit,
    zone: spec_fn(NodeIndex) -> int,
    sources: Set<NodeIndex>,
    n: NodeIndex,
)
    requires
        c.wf(),
        c.coherent(),
        c.quiescent(),
        confined(c, zone, sources),
        c.has_node(n),
        c.wire(n).output_state == LineState::Low || c.wire(n).output_state == LineState::High,
        forall|f: NodeIndex| sources.contains(f) && zone(f) == zone(n) ==> f == n,
    ensures
        c.reading(n) == c.wire(n).output_state,
{
    assert(joined(c, seq![n]));
    lemma_rest_reads_the_source(c, zone, sources, seq![n]);
}

/// A link leads from a source to the node at its far end.
pub proof fn lemma_leads_over_one(
    c: Circuit,
    zone: spec_fn(NodeIndex) -> int,
    sources: Set<NodeIndex>,
    s: NodeIndex,
    x: NodeIndex,
)
    requires
        has_link(c, s, x),
        c.has_node(x),
        c.wire(s).output_state == LineState::Low || c.wire(s).output_state == LineState::High,
        forall|f: NodeIndex| sources.contains(f) && zone(f) == zone(x) ==> f == s,
    ensures
        leads(c, zone, sources, seq![s, x]),
{
    reveal(has_link);
    reveal(leads);
    let path = seq![s, x];
    assert forall|i: int| 0 <= i < path.len() - 1 implies c.has_node(#[trigger] path[i]) && exists|j: int|
        0 <= j < c.wire(path[i]).links.len() && (#[trigger] c.wire(path[i]).links[j]).linked_to == path[i
            + 1] by {
        assert(path[0] == s && path[1] == x);
    }
}

/// Two links lead from a source to the node at the far end of the second.
pub proof fn lemma_leads_over_two(
    c: Circuit,
    zone: spec_fn(NodeIndex) -> int,
    sources: Set<NodeIndex>,
    s: NodeIndex,
    x: NodeIndex,
    y: NodeIndex,
)
    requires
        has_link(c, s, x),
        has_link(c, x, y),
        c.has_node(y),
        c.wire(s).output_state == LineState::Low || c.wire(s).output_state == LineState::High,
        forall|f: NodeIndex| sources.contains(f) && zone(f) == zone(y) ==> f == s,
    ensures
        leads(c, zone, sources, seq![s, x, y]),
{
    reveal(has_link);
    reveal(leads);
    let path = seq![s, x, y];
    assert forall|i: int| 0 <= i < path.len() - 1 implies c.has_node(#[trigger] path[i]) && exists|j: int|
        0 <= j < c.wire(path[i]).links.len() && (#[trigger] c.wire(path[i]).links[j]).linked_to == path[i
            + 1] by {
        assert(path[0] == s && path[1] == x && path[2] == y);
    }
}

/// Links that fit the zones, one row after another, fit the zones.
pub proof fn lemma_zone_fits_both(a: Seq<Wiring>, b: Seq<Wiring>, zone: spec_fn(NodeIndex) -> int)
    requires
        zone_fits(a, zone),
        zone_fits(b, zone),
    ensures
        zone_fits(a + b, zone),
{
    assert forall|i: int| 0 <= i < (a + b).len() implies zone((#[trigger] (a + b)[i]).0) == zone((a + b)[i].1) by {
        if i < a.len() {
            assert((a + b)[i] == a[i]);
        } else {
            assert((a + b)[i] == b[i - a.len()]);
        }
    }
}

} // verus!
