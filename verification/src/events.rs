//! The typed form of one trace record: a timestamp, a code address, an
//! event kind, and an extra word that the aggregation does not use.

use vstd::prelude::*;

verus! {

/// One decoded trace record. Every field is optional on the wire; an absent
/// field means the declared default (0) wherever the value is consumed.
#[derive(Clone, Copy, Debug, PartialEq)]
pub struct ProfileEvent {
    /// Timestamp in microseconds (wire tag 1).
    pub timestamp: Option<i64>,
    /// Code address of the function this event concerns (wire tag 2).
    pub pc: Option<i32>,
    /// Raw event kind code (wire tag 3); see [`EventType`] for the mapping.
    pub event_type: Option<i32>,
    /// Extra data (wire tag 4); carried through but never used downstream.
    pub extra_data: Option<i32>,
}

/// The kind of a trace event. Two distinct wire codes mean "a function
/// started executing": the current one and a legacy alias.
#[derive(Clone, Copy, Debug, PartialEq, Eq, Structural)]
pub enum EventType {
    /// Wire code 0, or any code outside the mapping below.
    Unknown,
    /// Wire code 1: legacy alias for a function entry.
    LegacyEnter,
    /// Wire code 2: a function entry.
    Enter,
    /// Wire code 3: a function exit.
    Exit,
}

/// The decode-time mapping from a raw wire code to an event kind.
pub open spec fn spec_event_type_of(code: i32) -> EventType {
    if code == 1 {
        EventType::LegacyEnter
    } else if code == 2 {
        EventType::Enter
    } else if code == 3 {
        EventType::Exit
    } else {
        EventType::Unknown
    }
}

/// Maps a raw wire code to its event kind.
#[verifier::when_used_as_spec(spec_event_type_of)]
pub fn event_type_of(code: i32) -> (kind: EventType)
    ensures
        kind == spec_event_type_of(code),
{
    if code == 1 {
        EventType::LegacyEnter
    } else if code == 2 {
        EventType::Enter
    } else if code == 3 {
        EventType::Exit
    } else {
        EventType::Unknown
    }
}

impl ProfileEvent {
    /// An event with every field absent: the state a record body starts in
    /// before any tagged field is decoded.
    pub open spec fn spec_empty() -> ProfileEvent {
        ProfileEvent { timestamp: None, pc: None, event_type: None, extra_data: None }
    }

    /// Builds the all-absent event.
    pub fn empty() -> (e: ProfileEvent)
        ensures
            e == ProfileEvent::spec_empty(),
    {
        ProfileEvent { timestamp: None, pc: None, event_type: None, extra_data: None }
    }

    /// The timestamp, with the declared default of 0 when absent.
    pub open spec fn spec_timestamp_or_zero(self) -> i64 {
        match self.timestamp {
            Some(t) => t,
            None => 0,
        }
    }

    /// The code address, with the declared default of 0 when absent.
    pub open spec fn spec_pc_or_zero(self) -> i32 {
        match self.pc {
            Some(p) => p,
            None => 0,
        }
    }

    /// The raw kind code, with the declared default of 0 when absent.
    pub open spec fn spec_kind_code(self) -> i32 {
        match self.event_type {
            Some(k) => k,
            None => 0,
        }
    }

    /// The event kind after the decode-time mapping.
    pub open spec fn spec_kind(self) -> EventType {
        spec_event_type_of(self.spec_kind_code())
    }
}

} // verus!
