use vstd::prelude::*;

verus! {

/// The payload kind an event carries.
pub enum EventBody {
    /// A chat message posted to the room.
    Message { content: String },
    /// A user's first session joined the room.
    Joined,
    /// A user's last session left the room.
    Left,
}

/// Mathematical form of `EventBody`.
#[verifier::ext_equal]
pub enum EventBodyV {
    Message { content: Seq<char> },
    Joined,
    Left,
}

/// The immutable payload carried by both the broadcast and the history
/// path. `seq` is the event's position in the room's broadcast stream:
/// unique within a room, monotonically increasing, usable for ordering
/// and for detecting gaps after a lag.
pub struct Event {
    pub seq: usize,
    pub user_id: String,
    pub body: EventBody,
}

/// Mathematical form of `Event`.
#[verifier::ext_equal]
pub struct EventV {
    pub seq: int,
    pub user_id: Seq<char>,
    pub body: EventBodyV,
}

impl View for EventBody {
    type V = EventBodyV;

    open spec fn view(&self) -> EventBodyV {
        match self {
            EventBody::Message { content } => EventBodyV::Message { content: content@ },
            EventBody::Joined => EventBodyV::Joined,
            EventBody::Left => EventBodyV::Left,
        }
    }
}

impl View for Event {
    type V = EventV;

    open spec fn view(&self) -> EventV {
        EventV { seq: self.seq as int, user_id: self.user_id@, body: self.body@ }
    }
}

impl Event {
    /// An exact copy, used when one event is fanned out to several
    /// subscribers or replayed into a session's outbox.
    pub fn duplicate(&self) -> (r: Event)
        ensures
            r@ == self@,
    {
        let body = match &self.body {
            EventBody::Message { content } => EventBody::Message { content: content.clone() },
            EventBody::Joined => EventBody::Joined,
            EventBody::Left => EventBody::Left,
        };
        Event { seq: self.seq, user_id: self.user_id.clone(), body }
    }
}

/// The typed failures of the directory and the rooms. All are
/// recoverable by the caller; none aborts the room or the process.
#[derive(Clone, Copy, Debug, PartialEq, Eq, Structural)]
pub enum ChatError {
    /// The requested room name is absent from the fixed directory.
    RoomNotFound,
    /// No session with the given id is currently joined to the room.
    SessionNotFound,
}

} // verus!
