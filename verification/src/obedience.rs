//! What the elements have done, at any time: every element that a signal
//! has reached drives what it wants to drive.

use vstd::prelude::*;
use crate::assembly::{
    base_wire, built_on, claims_fit, idle, lemma_adopted_all, lemma_adopted_wf,
    lemma_built_adopted, lemma_built_grown, lemma_grown, lemma_grown_wf, lemma_idle_kept,
    lemma_linked, lemma_linked_all, links_fit,
};
use crate::circuit::{Action, Circuit};
use crate::element::Primitive;
use crate::coherence::lemma_absorbed;
use crate::laws::lemma_action;
use crate::nand::nand_of;
use crate::netlist::{Netlist, Wiring};
use crate::node::lemma_same_reading;
use crate::sim::{ElementIndex, LineState, NodeIndex, PropogationDelay};
use crate::wellformed::{
    lemma_can_relay, lemma_played_wf, lemma_popped_wf, lemma_struck_wf, lemma_wants_a_node,
    lemma_written_wf,
};

verus! {

impl Primitive {
    /// The node that this element drives, if it drives one.
    pub open spec fn drives(self) -> Option<NodeIndex> {
        match self {
            Primitive::Nand(e) => Some(e.output),
            Primitive::Pin(_) => None,
            Primitive::Constant(e) => Some(e.node),
        }
    }
}

impl Circuit {
    /// No signal has reached element `p` yet: none of its nodes holds a
    /// forcing.
    pub open spec fn quiet(self, p: Primitive) -> bool {
        forall|k: int, f: NodeIndex|
            0 <= k < p.claims().len() ==> !(#[trigger] self.wire(p.claims()[k]).influences.contains_key(f))
    }

    /// Element `p` has its way: the node that it wants to drive is driven
    /// to the state that it wants.
    pub open spec fn obeys(self, p: Primitive) -> bool {
        match p.wants(self) {
            Some(d) => self.wire(d.node).output_state == d.state,
            None => true,
        }
    }

    /// Element `p` has its way, or no signal has reached it yet.
    pub open spec fn heeds(self, p: Primitive) -> bool {
        self.obeys(p) || self.quiet(p)
    }

    /// Every element that a signal has reached has its way.
    pub open spec fn obedient(self) -> bool {
        forall|ei: int| 0 <= ei < self.elements.len() ==> self.heeds(#[trigger] self.elements[ei])
    }

    /// No element drives node `n`.
    pub open spec fn undriven(self, n: NodeIndex) -> bool {
        forall|ei: int| 0 <= ei < self.elements.len() ==> (#[trigger] self.elements[ei]).drives() != Some(n)
    }

    /// Action `a` leaves alone what the elements drive: it writes to no
    /// node that an element drives.
    pub open spec fn spares(self, a: Action) -> bool {
        match a {
            Action::Deliver => true,
            Action::Write { node, state } => self.undriven(node),
            Action::WriteLater { node, state, delta } => self.undriven(node),
        }
    }

    /// Every action of `script` leaves alone what the elements drive.
    pub open spec fn spared(self, script: Seq<Action>) -> bool {
        forall|k: int| 0 <= k < script.len() ==> self.spares(#[trigger] script[k])
    }
}

/// What an element wants depends on what its own nodes read, and it wants
/// to drive the node that it drives, which is one of its own. So circuits
/// in which the nodes of an element hold the same forcings are circuits in
/// which it wants the same.
pub proof fn lemma_wants(c: Circuit, r: Circuit, p: Primitive)
    requires
        forall|k: int|
            0 <= k < p.claims().len() ==> r.wire(#[trigger] p.claims()[k]).influences == c.wire(
                p.claims()[k],
            ).influences,
    ensures
        p.wants(r) == p.wants(c),
        match p.wants(c) {
            Some(d) => p.drives() == Some(d.node),
            None => true,
        },
        match p.drives() {
            Some(n) => p.claims().contains(n),
            None => true,
        },
{
    match p {
        Primitive::Nand(g) => {
            assert(p.claims()[0] == g.a);
            assert(p.claims()[1] == g.b);
            assert(p.claims()[2] == g.output);
            assert(r.wire(g.a).influences == c.wire(g.a).influences);
            assert(r.wire(g.b).influences == c.wire(g.b).influences);
            lemma_same_reading(r.wire(g.a), c.wire(g.a));
            lemma_same_reading(r.wire(g.b), c.wire(g.b));
        },
        Primitive::Pin(_) => {},
        Primitive::Constant(k) => {
            assert(p.claims()[0] == k.node);
        },
    }
}

/// Whether the nodes of `r` hold and are driven to what those of `c` hold
/// and are driven to, but for what node `t` holds and what node `out` is
/// driven to. Nodes that `c` does not have hold nothing in `r` and are not
/// driven.
pub open spec fn same_signals_but(c: Circuit, r: Circuit, t: Option<NodeIndex>, out: Option<NodeIndex>) -> bool {
    &&& r.nodes.len() >= c.nodes.len()
    &&& forall|n: int|
        0 <= n < r.nodes.len() ==> {
            &&& t != Some(NodeIndex(n as usize)) ==> (#[trigger] r.nodes[n]).influences == base_wire(
                c,
                n,
            ).influences
            &&& out != Some(NodeIndex(n as usize)) ==> r.nodes[n].output_state == base_wire(
                c,
                n,
            ).output_state
        }
}

/// An element none of whose nodes took a forcing, and whose driven node
/// was not written, is as quiet as it was and has its way as it had.
proof fn lemma_bystander(c: Circuit, r: Circuit, t: Option<NodeIndex>, out: Option<NodeIndex>, ei: int)
    requires
        c.wf(),
        r.nodes.len() <= usize::MAX,
        same_signals_but(c, r, t, out),
        0 <= ei < c.elements.len(),
        t matches Some(x) ==> !c.elements[ei].claims().contains(x),
        out is Some ==> c.elements[ei].drives() != out,
    ensures
        c.quiet(c.elements[ei]) ==> r.quiet(c.elements[ei]),
        c.obeys(c.elements[ei]) ==> r.obeys(c.elements[ei]),
        c.heeds(c.elements[ei]) ==> r.heeds(c.elements[ei]),
{
    let p = c.elements[ei];
    assert forall|k: int| 0 <= k < p.claims().len() implies r.wire(#[trigger] p.claims()[k]).influences
        == c.wire(p.claims()[k]).influences by {
        let n = p.claims()[k];
        assert(c.owns(ei, c.elements[ei].claims()[k]));
        assert(p.claims().contains(n));
        assert(NodeIndex(n.0 as int as usize) == n);
        assert(r.nodes[n.0 as int].influences == base_wire(c, n.0 as int).influences);
    }
    lemma_wants(c, r, p);
    if c.quiet(p) {
        assert forall|k: int, f: NodeIndex| 0 <= k < p.claims().len() implies !(#[trigger] r.wire(
            p.claims()[k],
        ).influences.contains_key(f)) by {
            assert(!c.wire(p.claims()[k]).influences.contains_key(f));
        }
    }
    if c.obeys(p) {
        match p.wants(c) {
            Some(d) => {
                let k = choose|k: int| 0 <= k < p.claims().len() && p.claims()[k] == d.node;
                assert(c.owns(ei, c.elements[ei].claims()[k]));
                assert(NodeIndex(d.node.0 as int as usize) == d.node);
                assert(r.nodes[d.node.0 as int].output_state == base_wire(c, d.node.0 as int).output_state);
            },
            None => {},
        }
    }
}

/// An element neither claims nor drives a node that another element owns
/// or that nobody owns.
proof fn lemma_one_owner(c: Circuit, ei: int, n: NodeIndex)
    requires
        c.wf(),
        0 <= ei < c.elements.len(),
        c.has_node(n),
        c.wire(n).owner != Some(ElementIndex(ei as usize)),
    ensures
        !c.elements[ei].claims().contains(n),
        c.elements[ei].drives() != Some(n),
{
    let q = c.elements[ei];
    lemma_wants(c, c, q);
    if q.claims().contains(n) {
        let l = choose|l: int| 0 <= l < q.claims().len() && q.claims()[l] == n;
        assert(c.owns(ei, c.elements[ei].claims()[l]));
    }
}

/// Whether element `p` is as well off in `r` as in `c`: if it had its way
/// it has it still, and if it had it or no signal had reached it, the same
/// holds now.
pub open spec fn stays(c: Circuit, r: Circuit, p: Primitive) -> bool {
    (c.obeys(p) ==> r.obeys(p)) && (c.heeds(p) ==> r.heeds(p))
}

/// Whether `r` has the elements of `c`, each as well off as in `c`.
pub open spec fn kept(c: Circuit, r: Circuit) -> bool {
    r.elements == c.elements && forall|ei: int| 0 <= ei < c.elements.len() ==> stays(c, r, #[trigger] c.elements[ei])
}

/// What is kept twice is kept.
pub proof fn lemma_kept_twice(c: Circuit, m: Circuit, r: Circuit)
    requires
        kept(c, m),
        kept(m, r),
    ensures
        kept(c, r),
{
    assert forall|ei: int| 0 <= ei < c.elements.len() implies stays(c, r, #[trigger] c.elements[ei]) by {
        assert(stays(c, m, c.elements[ei]));
        assert(stays(m, r, m.elements[ei]));
    }
}

/// A write that takes effect, to a node that no element drives, leaves
/// every element as well off as it was.
pub proof fn lemma_obedient_forced_later(c: Circuit, n: NodeIndex, state: LineState, delta: PropogationDelay)
    requires
        c.wf(),
        c.has_node(n),
        c.undriven(n),
    ensures
        kept(c, c.forced_later(n, state, delta)),
{
    let r = c.forced_later(n, state, delta);
    assert(same_signals_but(c, r, None, Some(n)));
    assert forall|ei: int| 0 <= ei < c.elements.len() implies stays(c, r, #[trigger] c.elements[ei]) by {
        lemma_bystander(c, r, None, Some(n), ei);
    }
}

/// One turn of the event loop leaves every element as well off as it was,
/// and the element that owns the target of the event has its way: it is
/// stepped, and no other element is concerned.
#[verifier::rlimit(30)]
pub proof fn lemma_obedient_delivered(c: Circuit)
    requires
        c.wf(),
        c.can_deliver(),
    ensures
        kept(c, c.delivered()),
        !c.quiescent() ==> match c.wire(c.next().node).owner {
            Some(me) => c.delivered().obeys(c.elements[me.0 as int]),
            None => true,
        },
{
    if !c.quiescent() {
        let e = c.next();
        let t = e.node;
        let d = c.popped();
        lemma_can_relay(c);
        lemma_struck_wf(d, e);
        lemma_played_wf(d, e);
        lemma_popped_wf(c);
        let b = c.relayed();
        let r = c.delivered();
        let owner = c.wire(t).owner;
        assert(b.nodes == d.struck(e).nodes);
        match owner {
            Some(me) => {
                assert(c.nodes[t.0 as int].owner == Some(me));
                lemma_wants_a_node(b, me);
                let p = b.elements[me.0 as int];
                let out = match p.wants(b) {
                    Some(asked) => Some(asked.node),
                    None => None,
                };
                assert(same_signals_but(c, r, Some(t), out));
                assert forall|k: int| 0 <= k < p.claims().len() implies r.wire(
                    #[trigger] p.claims()[k],
                ).influences == b.wire(p.claims()[k]).influences by {
                    assert(b.owns(me.0 as int, b.elements[me.0 as int].claims()[k]));
                }
                lemma_wants(b, r, p);
                assert(r.obeys(p));
                assert forall|ei: int| 0 <= ei < c.elements.len() implies stays(
                    c,
                    r,
                    #[trigger] c.elements[ei],
                ) by {
                    if ei != me.0 {
                        lemma_one_owner(c, ei, t);
                        if out is Some {
                            let k = choose|k: int| 0 <= k < p.claims().len() && Some(p.claims()[k]) == out;
                            assert(c.owns(me.0 as int, c.elements[me.0 as int].claims()[k]));
                            lemma_one_owner(c, ei, out->0);
                        }
                        lemma_bystander(c, r, Some(t), out, ei);
                    }
                }
            },
            None => {
                assert(r == b);
                assert(same_signals_but(c, r, Some(t), None));
                assert forall|ei: int| 0 <= ei < c.elements.len() implies stays(
                    c,
                    r,
                    #[trigger] c.elements[ei],
                ) by {
                    lemma_one_owner(c, ei, t);
                    lemma_bystander(c, r, Some(t), None, ei);
                }
            },
        }
    }
}

/// Any action that leaves alone what the elements drive leaves every
/// element as well off as it was.
pub proof fn lemma_obedient_action(c: Circuit, a: Action)
    requires
        c.wf(),
        c.can_take(a),
        c.spares(a),
    ensures
        kept(c, c.taken(a)),
{
    match a {
        Action::Deliver => {
            lemma_obedient_delivered(c);
        },
        Action::Write { node, state } => {
            if c.wire(node).output_state != state {
                lemma_obedient_forced_later(c, node, state, PropogationDelay(0));
            }
        },
        Action::WriteLater { node, state, delta } => {
            if c.wire(node).output_state != state {
                lemma_obedient_forced_later(c, node, state, delta);
            }
        },
    }
}

/// Following a script that leaves alone what the elements drive keeps the
/// circuit well formed and leaves every element as well off as it was.
pub proof fn lemma_obedient_followed(c: Circuit, script: Seq<Action>)
    requires
        c.wf(),
        c.can_follow(script),
        c.spared(script),
    ensures
        c.followed(script).wf(),
        kept(c, c.followed(script)),
        c.obedient() ==> c.followed(script).obedient(),
    decreases script.len(),
{
    if script.len() > 0 {
        let front = script.drop_last();
        assert forall|k: int| 0 <= k < front.len() implies (#[trigger] c.followed(front.subrange(0, k))).can_take(
            front[k],
        ) by {
            assert(front.subrange(0, k) =~= script.subrange(0, k));
            assert(c.followed(script.subrange(0, k)).can_take(script[k]));
        }
        assert forall|k: int| 0 <= k < front.len() implies c.spares(#[trigger] front[k]) by {
            assert(front[k] == script[k]);
        }
        lemma_obedient_followed(c, front);
        let m = c.followed(front);
        let a = script.last();
        assert(script.subrange(0, script.len() - 1) =~= front);
        assert(c.followed(script.subrange(0, script.len() - 1)).can_take(script[script.len() - 1]));
        assert(c.spares(script[script.len() - 1]));
        assert(m.spares(a));
        lemma_action(m, m.next(), a);
        lemma_obedient_action(m, a);
        lemma_kept_twice(c, m, c.followed(script));
    }
    let r = c.followed(script);
    if c.obedient() {
        assert forall|ei: int| 0 <= ei < r.elements.len() implies r.heeds(#[trigger] r.elements[ei]) by {
            assert(stays(c, r, c.elements[ei]));
        }
    }
}

/// Whether the elements of `c` from the one numbered `first` on are
/// quiet, and those before it are heeded.
pub open spec fn obedient_before(c: Circuit, first: int) -> bool {
    forall|ei: int|
        0 <= ei < c.elements.len() ==> if ei < first {
            c.heeds(#[trigger] c.elements[ei])
        } else {
            c.quiet(c.elements[ei])
        }
}

/// Whether each node that an element of `ps` owns holds no forcing in `c`.
pub open spec fn claims_idle(c: Circuit, ps: Seq<Primitive>) -> bool {
    forall|i: int, k: int| 0 <= i < ps.len() && 0 <= k < ps[i].claims().len() ==> idle(c, #[trigger] ps[i].claims()[k])
}

/// What is built on a circuit without new elements keeps each element as
/// quiet and as heeded as it was.
proof fn lemma_obedient_built(c: Circuit, r: Circuit, first: int)
    requires
        c.wf(),
        r.nodes.len() <= usize::MAX,
        obedient_before(c, first),
        built_on(c, r),
        r.elements == c.elements,
    ensures
        obedient_before(r, first),
{
    assert(same_signals_but(c, r, None, None));
    assert forall|ei: int| 0 <= ei < r.elements.len() implies if ei < first {
        r.heeds(#[trigger] r.elements[ei])
    } else {
        r.quiet(r.elements[ei])
    } by {
        lemma_bystander(c, r, None, None, ei);
    }
}

/// Letting elements join whose nodes hold no forcing leaves the new
/// elements quiet and the others as they were.
#[verifier::rlimit(30)]
proof fn lemma_obedient_adopted_all(c: Circuit, ps: Seq<Primitive>, first: int)
    requires
        c.wf(),
        first <= c.elements.len(),
        obedient_before(c, first),
        c.elements.len() + ps.len() <= usize::MAX,
        claims_fit(ps),
        claims_idle(c, ps),
    ensures
        obedient_before(c.adopted_all(ps).0, first),
    decreases ps.len(),
{
    if ps.len() > 0 && c.can_adopt(ps.first()) {
        let p = ps.first();
        let rest = ps.drop_first();
        assert forall|k: int| 0 <= k < p.claims().len() implies (#[trigger] p.claims()[k]).0 < usize::MAX
            && idle(c, p.claims()[k]) by {
            assert(ps[0].claims()[k].0 < usize::MAX);
            assert(idle(c, ps[0].claims()[k]));
        }
        lemma_adopted_wf(c, p);
        lemma_built_adopted(c, p);
        let m = c.adopted(p);
        assert(same_signals_but(c, m, None, None));
        assert forall|ei: int| 0 <= ei < m.elements.len() implies if ei < first {
            m.heeds(#[trigger] m.elements[ei])
        } else {
            m.quiet(m.elements[ei])
        } by {
            if ei < c.elements.len() {
                lemma_bystander(c, m, None, None, ei);
            } else {
                assert(m.elements[ei] == p);
                assert forall|k: int, f: NodeIndex| 0 <= k < p.claims().len() implies !(#[trigger] m.wire(
                    p.claims()[k],
                ).influences.contains_key(f)) by {
                    let n = p.claims()[k];
                    assert(m.owns(ei, m.elements[ei].claims()[k]));
                    assert(idle(c, p.claims()[k]));
                    assert(m.nodes[n.0 as int].influences == base_wire(c, n.0 as int).influences);
                    assert(!base_wire(c, n.0 as int).influences.contains_key(f));
                }
            }
        }
        assert forall|i: int, k: int| 0 <= i < rest.len() && 0 <= k < rest[i].claims().len() implies (
        #[trigger] rest[i].claims()[k]).0 < usize::MAX && idle(m, rest[i].claims()[k]) by {
            assert(ps[i + 1].claims()[k].0 < usize::MAX);
            assert(idle(c, ps[i + 1].claims()[k]));
            lemma_idle_kept(c, m, rest[i].claims()[k]);
        }
        lemma_obedient_adopted_all(m, rest, first);
    }
}

/// Laying links keeps each element as quiet and as heeded as it was.
proof fn lemma_obedient_linked_all(c: Circuit, links: Seq<Wiring>, first: int)
    requires
        c.wf(),
        obedient_before(c, first),
        c.links_minted + links.len() <= u64::MAX,
        links_fit(links),
    ensures
        obedient_before(c.linked_all(links), first),
    decreases links.len(),
{
    if links.len() > 0 {
        let front = links.drop_last();
        let l = links.last();
        assert forall|i: int| 0 <= i < front.len() implies (#[trigger] front[i]).0.0 < usize::MAX
            && front[i].1.0 < usize::MAX by {
            assert(front[i] == links[i]);
        }
        lemma_linked_all(c, front);
        lemma_obedient_linked_all(c, front, first);
        let m = c.linked_all(front);
        let r = c.linked_all(links);
        assert(l == links[links.len() - 1]);
        lemma_linked(m, l.0, l.1, l.2);
        assert(same_signals_but(m, r, None, None));
        assert forall|ei: int| 0 <= ei < r.elements.len() implies if ei < first {
            r.heeds(#[trigger] r.elements[ei])
        } else {
            r.quiet(r.elements[ei])
        } by {
            lemma_bystander(m, r, None, None, ei);
        }
    }
}

/// Letting elements of the circuit start to drive leaves every element as
/// well off as it was, and gives each constant bit among them its way.
#[verifier::rlimit(30)]
proof fn lemma_obedient_energized(c: Circuit, ps: Seq<Primitive>, first: int)
    requires
        c.wf(),
        0 <= first,
        first + ps.len() <= c.elements.len(),
        forall|i: int| 0 <= i < ps.len() ==> c.elements[first + i] == #[trigger] ps[i],
        c.events_minted + ps.len() <= u64::MAX,
        c.forces_minted + ps.len() <= u64::MAX,
    ensures
        c.energized(ps).wf(),
        kept(c, c.energized(ps)),
        forall|i: int| 0 <= i < ps.len() && (#[trigger] ps[i]).standing() is Some ==> c.energized(ps).obeys(ps[i]),
        c.energized(ps).events_minted <= c.events_minted + ps.len(),
        c.energized(ps).forces_minted <= c.forces_minted + ps.len(),
    decreases ps.len(),
{
    if ps.len() > 0 {
        let front = ps.drop_last();
        let last = ps.last();
        assert forall|i: int| 0 <= i < front.len() implies c.elements[first + i] == #[trigger] front[i] by {
            assert(front[i] == ps[i]);
        }
        lemma_obedient_energized(c, front, first);
        let mid = c.energized(front);
        let r = c.energized(ps);
        let at = first + ps.len() - 1;
        assert(last == ps[ps.len() - 1]);
        assert(mid.elements[at] == last);
        match last.standing() {
            Some(d) => {
                assert(mid.owns(at, mid.elements[at].claims()[0]));
                lemma_written_wf(mid, d.node, d.state);
                assert(same_signals_but(mid, r, None, Some(d.node)));
                assert(last.wants(r) == Some(d));
                assert(r.wire(d.node).output_state == d.state);
                assert(r.obeys(last));
                assert forall|ei: int| 0 <= ei < mid.elements.len() implies stays(
                    mid,
                    r,
                    #[trigger] mid.elements[ei],
                ) by {
                    if ei != at {
                        lemma_one_owner(mid, ei, d.node);
                        lemma_bystander(mid, r, None, Some(d.node), ei);
                    }
                }
                lemma_kept_twice(c, mid, r);
                assert forall|i: int| 0 <= i < ps.len() && (#[trigger] ps[i]).standing() is Some implies r.obeys(
                    ps[i],
                ) by {
                    if i < front.len() {
                        assert(front[i] == ps[i]);
                        assert(mid.obeys(front[i]));
                        assert(stays(mid, r, mid.elements[first + i]));
                    }
                }
            },
            None => {
                assert(r == mid);
                assert forall|i: int| 0 <= i < ps.len() && (#[trigger] ps[i]).standing() is Some implies r.obeys(
                    ps[i],
                ) by {
                    assert(front[i] == ps[i]);
                }
            },
        }
    } else {
        assert forall|ei: int| 0 <= ei < c.elements.len() implies stays(c, c, #[trigger] c.elements[ei]) by {}
    }
}

/// Letting the constant bits start to drive keeps the circuit well formed,
/// leaves every element as well off as it was, and gives each constant bit
/// its way.
pub proof fn lemma_obedient_powered_on(c: Circuit)
    requires
        c.wf(),
        c.can_power_on(),
    ensures
        c.powered_on().wf(),
        kept(c, c.powered_on()),
        forall|ei: int|
            0 <= ei < c.elements.len() && (#[trigger] c.elements[ei]).standing() is Some ==> c.powered_on().obeys(
                c.elements[ei],
            ),
{
    lemma_obedient_energized(c, c.elements, 0);
}

/// Absorbing a session in full, whose elements own nodes that hold no
/// forcing yet, keeps the elements obeyed: no signal has reached a new
/// element.
pub proof fn lemma_obedient_absorbed(c: Circuit, nl: Netlist)
    requires
        c.wf(),
        c.obedient(),
        c.can_absorb(nl),
        c.absorbed(nl).1,
        claims_idle(c, nl.elements),
    ensures
        c.absorbed(nl).0.obedient(),
{
    let first = c.elements.len() as int;
    assert(claims_fit(nl.elements)) by {
        assert forall|i: int, k: int|
            0 <= i < nl.elements.len() && 0 <= k < nl.elements[i].claims().len() implies (
        #[trigger] nl.elements[i].claims()[k]).0 < usize::MAX by {}
    }
    assert(links_fit(nl.links));
    assert(obedient_before(c, first));
    lemma_adopted_all(c, nl.elements);
    lemma_obedient_adopted_all(c, nl.elements, first);
    let joined = c.adopted_all(nl.elements).0;
    lemma_grown_wf(joined, nl.next);
    lemma_grown(joined, nl.next);
    lemma_built_grown(joined, nl.next);
    let g = joined.grown(nl.next);
    lemma_obedient_built(joined, g, first);
    lemma_linked_all(g, nl.links);
    let l = g.linked_all(nl.links);
    lemma_obedient_linked_all(g, nl.links, first);
    assert forall|ei: int| 0 <= ei < l.elements.len() implies l.heeds(#[trigger] l.elements[ei]) by {}
}

/// Elements have their way. Build a circuit by absorbing a session into an
/// empty simulation and letting its constant bits start to drive; then
/// write to nodes that no element drives and turn the event loop, in any
/// order. Then, at any time, every NAND gate that a signal has reached
/// drives its output to the NAND of what its inputs read, and every
/// constant bit drives its node to its level.
pub proof fn lemma_elements_have_their_way(nl: Netlist, script: Seq<Action>, ei: int)
    requires
        Circuit::empty().can_absorb(nl),
        Circuit::empty().absorbed(nl).1,
        Circuit::empty().absorbed(nl).0.can_power_on(),
        Circuit::empty().absorbed(nl).0.powered_on().can_follow(script),
        Circuit::empty().absorbed(nl).0.powered_on().spared(script),
        0 <= ei < nl.elements.len(),
    ensures
        ({
            let c = Circuit::empty().absorbed(nl).0.powered_on().followed(script);
            &&& c.elements == nl.elements
            &&& match nl.elements[ei] {
                Primitive::Nand(g) => c.quiet(nl.elements[ei]) || c.wire(g.output).output_state == nand_of(
                    c.reading(g.a),
                    c.reading(g.b),
                ),
                Primitive::Constant(k) => c.wire(k.node).output_state == k.level(),
                Primitive::Pin(_) => true,
            }
        }),
{
    let empty = Circuit::empty();
    assert(empty.wf());
    assert(empty.obedient());
    assert(claims_idle(empty, nl.elements));
    lemma_absorbed(empty, nl);
    lemma_obedient_absorbed(empty, nl);
    let built = empty.absorbed(nl).0;
    lemma_absorbed_elements(empty, nl);
    assert(empty.elements + nl.elements =~= nl.elements);
    lemma_obedient_powered_on(built);
    let on = built.powered_on();
    assert(on.obedient()) by {
        assert forall|k: int| 0 <= k < on.elements.len() implies on.heeds(#[trigger] on.elements[k]) by {
            assert(stays(built, on, built.elements[k]));
        }
    }
    lemma_obedient_followed(on, script);
    let c = on.followed(script);
    assert(stays(on, c, on.elements[ei]));
    assert(c.heeds(c.elements[ei]));
}

/// A circuit that has absorbed a session in full has the elements of the
/// session behind its own.
pub proof fn lemma_absorbed_elements(c: Circuit, nl: Netlist)
    requires
        c.wf(),
        c.can_absorb(nl),
        c.absorbed(nl).1,
    ensures
        c.absorbed(nl).0.elements == c.elements + nl.elements,
{
    assert(claims_fit(nl.elements)) by {
        assert forall|i: int, k: int|
            0 <= i < nl.elements.len() && 0 <= k < nl.elements[i].claims().len() implies (
        #[trigger] nl.elements[i].claims()[k]).0 < usize::MAX by {}
    }
    assert(links_fit(nl.links));
    lemma_adopted_all(c, nl.elements);
    let joined = c.adopted_all(nl.elements).0;
    lemma_grown_wf(joined, nl.next);
    lemma_grown(joined, nl.next);
    lemma_linked_all(joined.grown(nl.next), nl.links);
}

} // verus!
