//! A node of the circuit: the wire that carries a signal, its links to other
//! nodes, its owning element, and the influences that currently act on it.

use vstd::prelude::*;
use crate::sim::{ElementIndex, Influence, LineState, LineStateEvent, Link, NodeIndex};

verus! {

/// The mathematical model of a node.
pub struct Wire {
    /// The state this node was last driven to by a write.
    pub output_state: LineState,
    /// The ends of the links laid on this node, in the order they were laid.
    pub links: Seq<Link>,
    /// The element that owns this node, if any.
    pub owner: Option<ElementIndex>,
    /// The influences that act on this node, keyed by their forcer.
    pub influences: Map<NodeIndex, Influence>,
}

impl Wire {
    /// A node that nothing has touched yet.
    pub open spec fn fresh() -> Wire {
        Wire {
            output_state: LineState::Floating,
            links: Seq::empty(),
            owner: None,
            influences: Map::empty(),
        }
    }

    /// Every influence is filed under its own forcer.
    pub open spec fn wf(self) -> bool {
        forall|f: NodeIndex| #[trigger]
            self.influences.contains_key(f) ==> self.influences[f].force_generator == f
    }

    /// What `forcer` currently imposes on this node, if anything.
    pub open spec fn held(self, forcer: NodeIndex) -> Option<Influence> {
        if self.influences.contains_key(forcer) {
            Some(self.influences[forcer])
        } else {
            None
        }
    }

    /// Some influence pulls this node towards Low.
    pub open spec fn pulled_low(self) -> bool {
        exists|f: NodeIndex| #[trigger]
            self.influences.contains_key(f) && self.influences[f].force_kind.pulls_low()
    }

    /// Some influence pulls this node towards High.
    pub open spec fn pulled_high(self) -> bool {
        exists|f: NodeIndex| #[trigger]
            self.influences.contains_key(f) && self.influences[f].force_kind.pulls_high()
    }

    /// The state a reader observes on this node. A node that nothing pulls
    /// reads as Low.
    pub open spec fn reading(self) -> LineState {
        if self.pulled_low() && self.pulled_high() {
            LineState::Conflict
        } else if self.pulled_high() {
            LineState::High
        } else {
            LineState::Low
        }
    }

    /// Whether this node has already seen the forcing that `e` carries, or a
    /// newer one from the same forcer.
    pub open spec fn has_seen(self, e: LineStateEvent) -> bool {
        e.superseded_by(self.held(e.forcer))
    }

    /// This node after `e` has arrived: the influence of `e`'s forcer is
    /// replaced by what `e` carries, unless the node has already seen it.
    pub open spec fn imposed(self, e: LineStateEvent) -> Wire {
        if self.has_seen(e) {
            self
        } else {
            Wire {
                influences: self.influences.insert(
                    e.forcer,
                    Influence {
                        force_generator: e.forcer,
                        force_kind: e.new_state,
                        force_id: e.force_id,
                    },
                ),
                ..self
            }
        }
    }

    /// This node with one more link end.
    pub open spec fn joined(self, link: Link) -> Wire {
        Wire { links: self.links.push(link), ..self }
    }

    /// This node, driven to `state`.
    pub open spec fn driven(self, state: LineState) -> Wire {
        Wire { output_state: state, ..self }
    }

    /// This node, owned by `element`.
    pub open spec fn owned_by(self, element: ElementIndex) -> Wire {
        Wire { owner: Some(element), ..self }
    }
}

/// A node as the simulation stores it.
pub struct Node {
    output_state: LineState,
    linked_with: Vec<Link>,
    element_index: Option<ElementIndex>,
    influences: Vec<Influence>,
}

/// The position in `held` of the influence that `forcer` generated.
pub open spec fn filed_at(held: Seq<Influence>, forcer: NodeIndex, i: int) -> bool {
    0 <= i < held.len() && held[i].force_generator == forcer
}

/// The influences of `held`, keyed by their forcer.
pub open spec fn by_forcer(held: Seq<Influence>) -> Map<NodeIndex, Influence> {
    Map::new(
        |f: NodeIndex| exists|i: int| filed_at(held, f, i),
        |f: NodeIndex| held[choose|i: int| filed_at(held, f, i)],
    )
}

/// No two influences of `held` come from the same forcer.
pub open spec fn one_per_forcer(held: Seq<Influence>) -> bool {
    forall|i: int, j: int|
        0 <= i < j < held.len() ==> held[i].force_generator != held[j].force_generator
}

/// With one influence per forcer, each is found under its forcer.
pub proof fn lemma_by_forcer(held: Seq<Influence>, i: int)
    requires
        one_per_forcer(held),
        0 <= i < held.len(),
    ensures
        by_forcer(held).contains_key(held[i].force_generator),
        by_forcer(held)[held[i].force_generator] == held[i],
{
    let f = held[i].force_generator;
    assert(filed_at(held, f, i));
    let k = choose|k: int| filed_at(held, f, k);
    assert(k == i);
}

impl View for Node {
    type V = Wire;

    closed spec fn view(&self) -> Wire {
        Wire {
            output_state: self.output_state,
            links: self.linked_with@,
            owner: self.element_index,
            influences: by_forcer(self.influences@),
        }
    }
}

impl Node {
    /// The node keeps at most one influence per forcer.
    pub closed spec fn wf(&self) -> bool {
        one_per_forcer(self.influences@)
    }

    /// A node that nothing has touched yet.
    pub fn new() -> (node: Node)
        ensures
            node.wf(),
            node@ == Wire::fresh(),
    {
        let node = Node {
            output_state: LineState::Floating,
            linked_with: Vec::new(),
            element_index: None,
            influences: Vec::new(),
        };
        assert(node@.influences =~= Map::<NodeIndex, Influence>::empty());
        node
    }

    /// The state this node was last driven to.
    pub fn output_state(&self) -> (state: LineState)
        ensures
            state == self@.output_state,
    {
        self.output_state
    }

    /// The element that owns this node, if any.
    pub fn owner(&self) -> (owner: Option<ElementIndex>)
        ensures
            owner == self@.owner,
    {
        self.element_index
    }

    /// The number of link ends on this node.
    pub fn link_count(&self) -> (n: usize)
        ensures
            n == self@.links.len(),
    {
        self.linked_with.len()
    }

    /// The `i`-th link end on this node.
    pub fn link(&self, i: usize) -> (link: Link)
        requires
            i < self@.links.len(),
        ensures
            link == self@.links[i as int],
    {
        self.linked_with[i]
    }

    /// Records that this node was driven to `state`.
    pub fn drive(&mut self, state: LineState)
        ensures
            final(self).wf() == old(self).wf(),
            final(self)@ == old(self)@.driven(state),
    {
        self.output_state = state;
    }

    /// Adds a link end to this node.
    pub fn join(&mut self, link: Link)
        ensures
            final(self).wf() == old(self).wf(),
            final(self)@ == old(self)@.joined(link),
    {
        self.linked_with.push(link);
    }

    /// Records `element` as the owner of this node.
    pub fn claim(&mut self, element: ElementIndex)
        ensures
            final(self).wf() == old(self).wf(),
            final(self)@ == old(self)@.owned_by(element),
    {
        self.element_index = Some(element);
    }

    /// The state a reader observes on this node.
    pub fn get_input_state(&self) -> (state: LineState)
        requires
            self.wf(),
        ensures
            state == self@.reading(),
    {
        let mut low: bool = false;
        let mut high: bool = false;
        let mut i: usize = 0;
        while i < self.influences.len()
            invariant
                i <= self.influences@.len(),
                low == (exists|k: int|
                    0 <= k < i && (#[trigger] self.influences@[k]).force_kind.pulls_low()),
                high == (exists|k: int|
                    0 <= k < i && (#[trigger] self.influences@[k]).force_kind.pulls_high()),
            decreases self.influences@.len() - i,
        {
            let (lows, highs) = self.influences[i].force_kind.lows_highs_count();
            if lows > 0 {
                low = true;
            }
            if highs > 0 {
                high = true;
            }
            i = i + 1;
        }
        proof {
            let held = self.influences@;
            let m = self@.influences;
            if low {
                let k = choose|k: int|
                    0 <= k < held.len() && (#[trigger] held[k]).force_kind.pulls_low();
                lemma_by_forcer(held, k);
                assert(m.contains_key(held[k].force_generator));
            }
            if self@.pulled_low() {
                let f = choose|f: NodeIndex| #[trigger]
                    m.contains_key(f) && m[f].force_kind.pulls_low();
                let k = choose|k: int| filed_at(held, f, k);
                assert(filed_at(held, f, k));
                assert(held[k].force_kind.pulls_low());
            }
            if high {
                let k = choose|k: int|
                    0 <= k < held.len() && (#[trigger] held[k]).force_kind.pulls_high();
                lemma_by_forcer(held, k);
                assert(m.contains_key(held[k].force_generator));
            }
            if self@.pulled_high() {
                let f = choose|f: NodeIndex| #[trigger]
                    m.contains_key(f) && m[f].force_kind.pulls_high();
                let k = choose|k: int| filed_at(held, f, k);
                assert(filed_at(held, f, k));
                assert(held[k].force_kind.pulls_high());
            }
        }
        if low && high {
            LineState::Conflict
        } else if high {
            LineState::High
        } else {
            LineState::Low
        }
    }

    /// Where the influence of `forcer` is kept, if this node holds one.
    fn find(&self, forcer: NodeIndex) -> (at: Option<usize>)
        requires
            self.wf(),
        ensures
            match at {
                Some(i) => filed_at(self.influences@, forcer, i as int),
                None => forall|i: int| !filed_at(self.influences@, forcer, i),
            },
    {
        let mut i: usize = 0;
        while i < self.influences.len()
            invariant
                i <= self.influences@.len(),
                forall|k: int| 0 <= k < i ==> !filed_at(self.influences@, forcer, k),
            decreases self.influences@.len() - i,
        {
            if self.influences[i].force_generator == forcer {
                return Some(i);
            }
            i = i + 1;
        }
        None
    }

    /// What `forcer` currently imposes on this node, if anything.
    pub fn influence_from(&self, forcer: NodeIndex) -> (held: Option<Influence>)
        requires
            self.wf(),
        ensures
            held == self@.held(forcer),
    {
        match self.find(forcer) {
            Some(i) => {
                proof {
                    lemma_by_forcer(self.influences@, i as int);
                }
                Some(self.influences[i])
            },
            None => None,
        }
    }

    /// Whether this node has already seen the forcing that `e` carries.
    pub fn has_seen(&self, e: &LineStateEvent) -> (seen: bool)
        requires
            self.wf(),
        ensures
            seen == self@.has_seen(*e),
    {
        match self.find(e.forcer) {
            Some(i) => {
                proof {
                    lemma_by_forcer(self.influences@, i as int);
                }
                self.influences[i].force_id >= e.force_id
            },
            None => false,
        }
    }

    /// Records what `e` carries as the influence of its forcer, unless this
    /// node has already seen that forcing or a newer one.
    pub fn impose(&mut self, e: &LineStateEvent)
        requires
            old(self).wf(),
        ensures
            final(self).wf(),
            final(self)@ == old(self)@.imposed(*e),
    {
        let fresh = Influence {
            force_generator: e.forcer,
            force_kind: e.new_state,
            force_id: e.force_id,
        };
        match self.find(e.forcer) {
            Some(i) => {
                proof {
                    lemma_by_forcer(self.influences@, i as int);
                }
                if self.influences[i].force_id >= e.force_id {
                    return ;
                }
                self.influences[i] = fresh;
                proof {
                    let before = old(self).influences@;
                    let after = self.influences@;
                    assert(after == before.update(i as int, fresh));
                    assert forall|f: NodeIndex| #[trigger]
                        by_forcer(after).contains_key(f) == by_forcer(before).insert(
                            e.forcer,
                            fresh,
                        ).contains_key(f) by {
                        if by_forcer(after).contains_key(f) {
                            let k = choose|k: int| filed_at(after, f, k);
                            assert(filed_at(before, f, k));
                        }
                        if by_forcer(before).contains_key(f) {
                            let k = choose|k: int| filed_at(before, f, k);
                            assert(filed_at(after, f, k));
                        }
                        if f == e.forcer {
                            assert(filed_at(after, f, i as int));
                        }
                    }
                    assert forall|f: NodeIndex| #[trigger]
                        by_forcer(after).contains_key(f) implies by_forcer(after)[f]
                        == by_forcer(before).insert(e.forcer, fresh)[f] by {
                        let k = choose|k: int| filed_at(after, f, k);
                        assert(filed_at(after, f, k));
                        lemma_by_forcer(after, k);
                        if f != e.forcer {
                            lemma_by_forcer(before, k);
                        }
                    }
                    assert(by_forcer(after) =~= by_forcer(before).insert(e.forcer, fresh));
                }
            },
            None => {
                self.influences.push(fresh);
                proof {
                    let before = old(self).influences@;
                    let after = self.influences@;
                    assert(after == before.push(fresh));
                    assert(!by_forcer(before).contains_key(e.forcer));
                    assert forall|a: int, b: int| 0 <= a < b < after.len() implies after[a].force_generator
                        != after[b].force_generator by {
                        if b == before.len() {
                            assert(!filed_at(before, e.forcer, a));
                        }
                    }
                    assert forall|f: NodeIndex| #[trigger]
                        by_forcer(after).contains_key(f) == by_forcer(before).insert(
                            e.forcer,
                            fresh,
                        ).contains_key(f) by {
                        if by_forcer(after).contains_key(f) {
                            let k = choose|k: int| filed_at(after, f, k);
                            if k < before.len() {
                                assert(filed_at(before, f, k));
                            }
                        }
                        if by_forcer(before).contains_key(f) {
                            let k = choose|k: int| filed_at(before, f, k);
                            assert(filed_at(after, f, k));
                        }
                        if f == e.forcer {
                            assert(filed_at(after, f, before.len() as int));
                        }
                    }
                    assert forall|f: NodeIndex| #[trigger]
                        by_forcer(after).contains_key(f) implies by_forcer(after)[f]
                        == by_forcer(before).insert(e.forcer, fresh)[f] by {
                        let k = choose|k: int| filed_at(after, f, k);
                        assert(filed_at(after, f, k));
                        lemma_by_forcer(after, k);
                        if f != e.forcer {
                            assert(after[before.len() as int] == fresh);
                            assert(k < before.len());
                            lemma_by_forcer(before, k);
                        } else if k < before.len() {
                            assert(filed_at(before, f, k));
                        }
                    }
                    assert(by_forcer(after) =~= by_forcer(before).insert(e.forcer, fresh));
                }
            },
        }
    }
}

/// Nodes that hold the same forcings read the same.
pub proof fn lemma_same_reading(a: Wire, b: Wire)
    requires
        a.influences == b.influences,
    ensures
        a.reading() == b.reading(),
{
    if a.pulled_low() {
        let f = choose|f: NodeIndex| #[trigger]
            a.influences.contains_key(f) && a.influences[f].force_kind.pulls_low();
        assert(b.influences.contains_key(f));
    }
    if b.pulled_low() {
        let f = choose|f: NodeIndex| #[trigger]
            b.influences.contains_key(f) && b.influences[f].force_kind.pulls_low();
        assert(a.influences.contains_key(f));
    }
    if a.pulled_high() {
        let f = choose|f: NodeIndex| #[trigger]
            a.influences.contains_key(f) && a.influences[f].force_kind.pulls_high();
        assert(b.influences.contains_key(f));
    }
    if b.pulled_high() {
        let f = choose|f: NodeIndex| #[trigger]
            b.influences.contains_key(f) && b.influences[f].force_kind.pulls_high();
        assert(a.influences.contains_key(f));
    }
}

} // verus!
