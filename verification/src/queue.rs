//! The queue of pending events, kept in the order of their delivery.

use vstd::prelude::*;
use crate::sim::LineStateEvent;

verus! {

/// No event of `q` stands behind one that is due strictly later.
pub open spec fn in_delivery_order(q: Seq<LineStateEvent>) -> bool {
    forall|i: int, j: int| 0 <= i < j < q.len() ==> !q[j].before(q[i])
}

/// Every event of `q` is due strictly before each event behind it.
pub open spec fn strictly_ordered(q: Seq<LineStateEvent>) -> bool {
    forall|i: int, j: int| 0 <= i < j < q.len() ==> q[i].before(q[j])
}

/// A strictly ordered queue is in delivery order.
pub proof fn lemma_strictly_is_in_order(q: Seq<LineStateEvent>)
    requires
        strictly_ordered(q),
    ensures
        in_delivery_order(q),
{
    assert forall|i: int, j: int| 0 <= i < j < q.len() implies !q[j].before(q[i]) by {
        assert(q[i].before(q[j]));
    }
}

/// The position at which `e` joins `q`: behind every event that is not due
/// strictly later than `e`, counted from the back of the queue.
pub open spec fn slot(q: Seq<LineStateEvent>, e: LineStateEvent) -> int
    decreases q.len(),
{
    if q.len() == 0 || !e.before(q.last()) {
        q.len() as int
    } else {
        slot(q.drop_last(), e)
    }
}

/// The queue `q` after `e` has been scheduled.
pub open spec fn scheduled(q: Seq<LineStateEvent>, e: LineStateEvent) -> Seq<LineStateEvent> {
    q.insert(slot(q, e), e)
}

/// Where `e` joins: everything behind the slot is due strictly later than
/// `e`, and the event just ahead of the slot is not.
pub proof fn lemma_slot(q: Seq<LineStateEvent>, e: LineStateEvent)
    ensures
        0 <= slot(q, e) <= q.len(),
        forall|i: int| slot(q, e) <= i < q.len() ==> e.before(#[trigger] q[i]),
        slot(q, e) > 0 ==> !e.before(q[slot(q, e) - 1]),
    decreases q.len(),
{
    if q.len() == 0 || !e.before(q.last()) {
    } else {
        let front = q.drop_last();
        lemma_slot(front, e);
        assert forall|i: int| slot(q, e) <= i < q.len() implies e.before(#[trigger] q[i]) by {
            if i < front.len() {
                assert(q[i] == front[i]);
            }
        }
    }
}

/// The slot is the only position with the two properties of [`lemma_slot`].
pub proof fn lemma_slot_is(q: Seq<LineStateEvent>, e: LineStateEvent, p: int)
    requires
        0 <= p <= q.len(),
        forall|i: int| p <= i < q.len() ==> e.before(#[trigger] q[i]),
        p > 0 ==> !e.before(q[p - 1]),
    ensures
        slot(q, e) == p,
    decreases q.len(),
{
    if q.len() == 0 || !e.before(q.last()) {
    } else {
        let front = q.drop_last();
        assert forall|i: int| p <= i < front.len() implies e.before(#[trigger] front[i]) by {
            assert(front[i] == q[i]);
        }
        lemma_slot_is(front, e, p);
    }
}

/// Scheduling into an ordered queue leaves it ordered.
pub proof fn lemma_scheduled_in_order(q: Seq<LineStateEvent>, e: LineStateEvent)
    requires
        in_delivery_order(q),
    ensures
        in_delivery_order(scheduled(q, e)),
{
    lemma_slot(q, e);
    let p = slot(q, e);
    let r = scheduled(q, e);
    assert forall|i: int, j: int| 0 <= i < j < r.len() implies !r[j].before(r[i]) by {
        if j == p {
            // r[i] = q[i] stands at or ahead of q[p - 1], which is not later than e
            if e.before(q[i]) {
                assert(!q[p - 1].before(q[i]));
            }
        }
    }
}

/// Scheduling an event whose id no pending event has keeps a strictly
/// ordered queue strictly ordered.
pub proof fn lemma_scheduled_strictly(q: Seq<LineStateEvent>, e: LineStateEvent)
    requires
        strictly_ordered(q),
        forall|i: int| 0 <= i < q.len() ==> (#[trigger] q[i]).id != e.id,
    ensures
        strictly_ordered(scheduled(q, e)),
{
    lemma_slot(q, e);
    let p = slot(q, e);
    let r = scheduled(q, e);
    assert forall|i: int, j: int| 0 <= i < j < r.len() implies r[i].before(r[j]) by {
        if j == p {
            assert(q[p - 1].id != e.id);
            assert(q[i].id != e.id);
            if i < p - 1 {
                assert(q[i].before(q[p - 1]));
            }
        } else if i == p {
            assert(r[j] == q[j - 1]);
        } else if i < p && j > p {
            assert(r[j] == q[j - 1]);
        } else if i > p {
            assert(r[i] == q[i - 1]);
            assert(r[j] == q[j - 1]);
        }
    }
}

/// The scheduled queue holds `e` and the events of `q`, and nothing else.
pub proof fn lemma_scheduled_members(q: Seq<LineStateEvent>, e: LineStateEvent)
    ensures
        scheduled(q, e).len() == q.len() + 1,
        scheduled(q, e)[slot(q, e)] == e,
        forall|i: int| 0 <= i < q.len() ==> scheduled(q, e).contains(#[trigger] q[i]),
        forall|x: LineStateEvent| #[trigger] scheduled(q, e).contains(x) ==> x == e || q.contains(x),
{
    lemma_slot(q, e);
    let p = slot(q, e);
    let r = scheduled(q, e);
    assert forall|i: int| 0 <= i < q.len() implies r.contains(#[trigger] q[i]) by {
        if i < p {
            assert(r[i] == q[i]);
        } else {
            assert(r[i + 1] == q[i]);
        }
    }
    assert forall|x: LineStateEvent| #[trigger] r.contains(x) implies x == e || q.contains(x) by {
        let k = choose|k: int| 0 <= k < r.len() && r[k] == x;
        if k < p {
            assert(q[k] == x);
        } else if k > p {
            assert(q[k - 1] == x);
        }
    }
}

/// Pending events, held in the order of their delivery.
pub struct EventQueue {
    events: Vec<LineStateEvent>,
}

impl View for EventQueue {
    type V = Seq<LineStateEvent>;

    /// The pending events, the next one first.
    closed spec fn view(&self) -> Seq<LineStateEvent> {
        self.events@
    }
}

impl EventQueue {
    /// The invariant of the queue: no event stands behind one that is due
    /// strictly later.
    pub open spec fn wf(&self) -> bool {
        in_delivery_order(self@)
    }

    /// An empty queue.
    pub fn new() -> (q: EventQueue)
        ensures
            q.wf(),
            q@ == Seq::<LineStateEvent>::empty(),
    {
        EventQueue { events: Vec::new() }
    }

    /// The number of pending events.
    pub fn len(&self) -> (n: usize)
        ensures
            n == self@.len(),
    {
        self.events.len()
    }

    /// The `i`-th pending event in the order of delivery.
    pub fn get(&self, i: usize) -> (e: LineStateEvent)
        requires
            i < self@.len(),
        ensures
            e == self@[i as int],
    {
        self.events[i]
    }

    /// The next event to deliver, if any, without removing it. No pending
    /// event is before it.
    pub fn peek(&self) -> (next: Option<LineStateEvent>)
        requires
            self.wf(),
        ensures
            self@.len() == 0 ==> next is None,
            self@.len() > 0 ==> next == Some(self@[0]),
            next matches Some(e) ==> forall|i: int| 0 <= i < self@.len() ==> !(#[trigger] self@[i]).before(e),
    {
        if self.events.len() == 0 {
            None
        } else {
            Some(self.events[0])
        }
    }

    /// Schedules `e` behind every pending event that is not due strictly later.
    pub fn push(&mut self, e: LineStateEvent)
        requires
            old(self).wf(),
        ensures
            final(self).wf(),
            final(self)@ == scheduled(old(self)@, e),
    {
        proof {
            lemma_scheduled_in_order(self@, e);
        }
        let mut i: usize = self.events.len();
        while i > 0 && e.is_before(&self.events[i - 1])
            invariant
                i <= self.events@.len(),
                self.events@ == old(self).events@,
                forall|k: int| i <= k < self.events@.len() ==> e.before(#[trigger] self.events@[k]),
            decreases i,
        {
            i = i - 1;
        }
        proof {
            lemma_slot_is(self.events@, e, i as int);
        }
        self.events.insert(i, e);
    }

    /// Removes and returns the next event to deliver. No event that was
    /// pending is before it, and none that is still pending.
    pub fn pop(&mut self) -> (next: Option<LineStateEvent>)
        requires
            old(self).wf(),
        ensures
            final(self).wf(),
            old(self)@.len() == 0 ==> next is None && final(self)@ == old(self)@,
            old(self)@.len() > 0 ==> next == Some(old(self)@[0]) && final(self)@ == old(
                self,
            )@.drop_first(),
            next matches Some(e) ==> forall|i: int|
                0 <= i < old(self)@.len() ==> !(#[trigger] old(self)@[i]).before(e),
            next matches Some(e) ==> forall|i: int|
                0 <= i < final(self)@.len() ==> !(#[trigger] final(self)@[i]).before(e),
    {
        if self.events.len() == 0 {
            None
        } else {
            let e = self.events.remove(0);
            proof {
                let before = old(self).events@;
                let after = self.events@;
                assert(after =~= before.drop_first());
                assert forall|i: int, j: int| 0 <= i < j < after.len() implies !after[j].before(after[i]) by {
                    assert(after[i] == before[i + 1] && after[j] == before[j + 1]);
                }
                assert forall|i: int| 0 <= i < after.len() implies !(#[trigger] after[i]).before(e) by {
                    assert(after[i] == before[i + 1]);
                }
            }
            Some(e)
        }
    }
}

} // verus!
