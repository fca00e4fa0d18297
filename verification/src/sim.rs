//! The data model of the simulator: signal values, identifiers, links,
//! influences, nodes and pending events.

use vstd::prelude::*;

verus! {

/// The four values a wire can carry.
#[derive(Debug, PartialEq, Eq, Clone, Copy, Structural)]
pub enum LineState {
    /// A driver pulls the wire down.
    Low,
    /// A driver pulls the wire up.
    High,
    /// No driver is influencing the wire.
    Floating,
    /// Some driver wants Low while another wants High.
    Conflict,
}

impl LineState {
    /// Whether this value contributes a pull towards Low.
    pub open spec fn pulls_low(self) -> bool {
        self == LineState::Low || self == LineState::Conflict
    }

    /// Whether this value contributes a pull towards High.
    pub open spec fn pulls_high(self) -> bool {
        self == LineState::High || self == LineState::Conflict
    }

    /// The (lows, highs) contribution of this value to a wire.
    pub fn lows_highs_count(self) -> (counts: (u32, u32))
        ensures
            counts.0 == (if self.pulls_low() { 1u32 } else { 0u32 }),
            counts.1 == (if self.pulls_high() { 1u32 } else { 0u32 }),
    {
        match self {
            LineState::Low => (1, 0),
            LineState::High => (0, 1),
            LineState::Floating => (0, 0),
            LineState::Conflict => (1, 1),
        }
    }
}

/// Identifies a node of a circuit.
#[derive(Clone, Copy, PartialEq, Eq, Debug, Structural)]
pub struct NodeIndex(pub usize);

/// Identifies an element of a circuit, by its order of registration.
#[derive(Clone, Copy, PartialEq, Eq, Debug, Structural)]
pub struct ElementIndex(pub usize);

/// The number of ticks a signal needs to cross a link.
#[derive(Clone, Copy, PartialEq, Eq, Debug, Structural)]
pub struct PropogationDelay(pub u32);

/// The delay, in ticks, of every link that the circuit library lays.
pub const STANDARD_DELAY: u32 = 100;

impl PropogationDelay {
    /// The delay of every link that the circuit library lays.
    pub open spec fn spec_standard() -> PropogationDelay {
        PropogationDelay(STANDARD_DELAY)
    }

    #[verifier::when_used_as_spec(spec_standard)]
    pub fn standard() -> (d: PropogationDelay)
        ensures
            d == PropogationDelay(STANDARD_DELAY),
    {
        PropogationDelay(STANDARD_DELAY)
    }

    pub fn get(self) -> (ticks: u32)
        ensures
            ticks == self.0,
    {
        self.0
    }
}

impl ElementIndex {
    pub fn get(self) -> (idx: usize)
        ensures
            idx == self.0,
    {
        self.0
    }
}

impl NodeIndex {
    pub fn get(self) -> (idx: usize)
        ensures
            idx == self.0,
    {
        self.0
    }
}

/// One end of an undirected connection, as stored on the node at the other end.
#[derive(Debug, Clone, Copy, PartialEq, Eq, Structural)]
pub struct Link {
    pub linked_to: NodeIndex,
    pub delay: PropogationDelay,
    pub id: u64,
}

/// The latest value that one forcer has imposed on a node.
#[derive(Debug, Clone, Copy, PartialEq, Eq, Structural)]
pub struct Influence {
    pub force_generator: NodeIndex,
    pub force_kind: LineState,
    pub force_id: u64,
}

/// A scheduled application of an influence to a node.
#[derive(Debug, Clone, Copy, PartialEq, Eq, Structural)]
pub struct LineStateEvent {
    pub node: NodeIndex,
    pub new_state: LineState,
    pub time: u64,
    /// Keeps events of one instant in the order of their creation.
    pub id: u64,
    pub forcer: NodeIndex,
    pub force_id: u64,
}

impl LineStateEvent {
    /// Whether a node that holds `held` from this event's forcer has already
    /// seen this event's forcing or a newer one.
    pub open spec fn superseded_by(self, held: Option<Influence>) -> bool {
        match held {
            Some(h) => h.force_id >= self.force_id,
            None => false,
        }
    }

    /// Strict delivery order: earlier time first, then smaller id.
    pub open spec fn before(self, other: LineStateEvent) -> bool {
        self.time < other.time || (self.time == other.time && self.id < other.id)
    }

    /// Exec form of [`Self::before`].
    pub fn is_before(&self, other: &LineStateEvent) -> (r: bool)
        ensures
            r == self.before(*other),
    {
        self.time < other.time || (self.time == other.time && self.id < other.id)
    }
}

} // verus!
