//! The logical events that the decoders emit.
use vstd::prelude::*;

verus! {

/// One decoded event.
#[derive(Debug, Clone, Copy, PartialEq, Eq, Structural)]
pub enum Event {
    /// A brightness change of polarity `p` at pixel `(x, y)`, time `t` in microseconds.
    CD { x: u16, y: u16, p: u8, t: u64 },
    /// An edge of polarity `p` on trigger channel `id`, time `t` in microseconds.
    ExternalTrigger { id: u8, p: u8, t: u64 },
    /// A word whose type code is reserved or not handled.
    Unknown(),
}

impl Event {
    /// The timestamp of the event, where its variant has one.
    pub open spec fn spec_timestamp(self) -> Option<u64> {
        match self {
            Event::CD { t, .. } => Some(t),
            Event::ExternalTrigger { t, .. } => Some(t),
            Event::Unknown() => None,
        }
    }

    /// The polarity of the event, where its variant has one.
    pub open spec fn spec_polarity(self) -> Option<u8> {
        match self {
            Event::CD { p, .. } => Some(p),
            Event::ExternalTrigger { p, .. } => Some(p),
            Event::Unknown() => None,
        }
    }

    pub fn timestamp(&self) -> (r: Option<u64>)
        ensures
            r == self.spec_timestamp(),
    {
        match self {
            Event::CD { t, .. } => Some(*t),
            Event::ExternalTrigger { t, .. } => Some(*t),
            Event::Unknown() => None,
        }
    }

    pub fn polarity(&self) -> (r: Option<u8>)
        ensures
            r == self.spec_polarity(),
    {
        match self {
            Event::CD { p, .. } => Some(*p),
            Event::ExternalTrigger { p, .. } => Some(*p),
            Event::Unknown() => None,
        }
    }

    pub fn x(&self) -> (r: Option<u16>)
        ensures
            r == (match *self {
                Event::CD { x, .. } => Some(x),
                _ => None,
            }),
    {
        match self {
            Event::CD { x, .. } => Some(*x),
            _ => None,
        }
    }

    pub fn y(&self) -> (r: Option<u16>)
        ensures
            r == (match *self {
                Event::CD { y, .. } => Some(y),
                _ => None,
            }),
    {
        match self {
            Event::CD { y, .. } => Some(*y),
            _ => None,
        }
    }
}

/// The timestamps of `events` never decrease, among the events that have one.
pub open spec fn timestamps_nondecreasing(events: Seq<Event>) -> bool {
    forall|i: int, j: int|
        0 <= i < j < events.len() && (#[trigger] events[i].spec_timestamp()) is Some && (
        #[trigger] events[j].spec_timestamp()) is Some ==> events[i].spec_timestamp()->0
            <= events[j].spec_timestamp()->0
}

/// Every event of `events` that has a polarity has polarity 0 or 1.
pub open spec fn polarities_binary(events: Seq<Event>) -> bool {
    forall|i: int|
        0 <= i < events.len() && (#[trigger] events[i].spec_polarity()) is Some
            ==> events[i].spec_polarity()->0 <= 1
}

} // verus!
