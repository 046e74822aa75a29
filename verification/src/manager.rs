use vstd::prelude::*;

use crate::event::{ChatError, Event};
use crate::room::{
    has_session, spec_drain, spec_join, spec_leave, spec_poll, spec_post, spec_replay, sub_wf,
    ChatRoom, RecvV, RoomV, SessionAndUserId, Subscription, SubscriptionRecv, SubscriptionV,
    UserSessionHandle,
};

verus! {

/// Static, immutable description of a room, created once at startup
/// from external configuration and shared read-only.
pub struct ChatRoomMetadata {
    pub name: String,
    pub description: String,
}

/// Mathematical form of `ChatRoomMetadata`.
#[verifier::ext_equal]
pub struct MetadataV {
    pub name: Seq<char>,
    pub description: Seq<char>,
}

impl View for ChatRoomMetadata {
    type V = MetadataV;

    open spec fn view(&self) -> MetadataV {
        MetadataV { name: self.name@, description: self.description@ }
    }
}

impl ChatRoomMetadata {
    /// An exact copy, for listing consumers.
    pub fn duplicate(&self) -> (r: ChatRoomMetadata)
        ensures
            r@ == self@,
    {
        ChatRoomMetadata { name: self.name.clone(), description: self.description.clone() }
    }
}

/// What `join_room` hands back: a live subscription positioned at
/// "now", the handle for a later leave, and the point-in-time snapshot
/// of the unique user ids present after the join.
pub type RoomJoinResult = (Subscription, UserSessionHandle, Vec<String>);

/// Mathematical form of `RoomManager`.
#[verifier::ext_equal]
pub struct ManagerV {
    pub rooms: Seq<RoomV>,
    pub metadata: Seq<MetadataV>,
}

/// The index of the room with this name, if the directory holds one.
pub open spec fn room_index(mv: ManagerV, name: Seq<char>) -> int {
    choose|i: int| 0 <= i < mv.rooms.len() && mv.rooms[i].name == name
}

/// The directory holds a room with this name.
pub open spec fn has_room(mv: ManagerV, name: Seq<char>) -> bool {
    exists|i: int| 0 <= i < mv.rooms.len() && mv.rooms[i].name == name
}

/// The room directory (router): an immutable, built-once mapping from
/// room name to its room state machine. It holds no mutable state of
/// its own beyond the rooms it routes to; every operation resolves a
/// room name and delegates, translating an absent name into
/// `RoomNotFound`.
pub struct RoomManager {
    chat_rooms: Vec<ChatRoom>,
    chat_room_metadata: Vec<ChatRoomMetadata>,
}

impl View for RoomManager {
    type V = ManagerV;

    closed spec fn view(&self) -> ManagerV {
        ManagerV {
            rooms: self.chat_rooms@.map_values(|r: ChatRoom| r@),
            metadata: self.chat_room_metadata@.map_values(|m: ChatRoomMetadata| m@),
        }
    }
}

impl ManagerV {
    /// Well-formedness of the directory: room names are unique, every
    /// room is well formed, and the metadata list describes exactly
    /// the rooms, in order.
    pub open spec fn inv(self) -> bool {
        &&& (forall|i: int, j: int|
            0 <= i < j < self.rooms.len() ==> self.rooms[i].name != self.rooms[j].name)
        &&& (forall|i: int| 0 <= i < self.rooms.len() ==> (#[trigger] self.rooms[i]).inv())
        &&& self.metadata.len() == self.rooms.len()
        &&& (forall|i: int|
            0 <= i < self.rooms.len() ==> (#[trigger] self.metadata[i]).name
                == self.rooms[i].name)
    }
}

/// Under the invariant, a room name determines its index.
pub proof fn lemma_room_index_unique(mv: ManagerV, name: Seq<char>, i: int)
    requires
        mv.inv(),
        0 <= i < mv.rooms.len(),
        mv.rooms[i].name == name,
    ensures
        room_index(mv, name) == i,
{
    assert(has_room(mv, name));
    let j = room_index(mv, name);
    assert(0 <= j < mv.rooms.len() && mv.rooms[j].name == name);
    if i < j {
        assert(mv.rooms[i].name != mv.rooms[j].name);
    } else if j < i {
        assert(mv.rooms[j].name != mv.rooms[i].name);
    }
}

impl RoomManager {
    /// Well-formedness of the directory.
    pub open spec fn inv(&self) -> bool {
        self@.inv()
    }

    /// Builds the fixed directory from the bootstrap list of
    /// `(metadata, room)` pairs. The mapping never changes afterwards:
    /// there is no adding or removing of rooms at runtime.
    pub fn new(chat_rooms: Vec<(ChatRoomMetadata, ChatRoom)>) -> (r: RoomManager)
        requires
            forall|i: int, j: int|
                0 <= i < j < chat_rooms@.len() ==> (#[trigger] chat_rooms@[i]).1@.name
                    != (#[trigger] chat_rooms@[j]).1@.name,
            forall|i: int|
                0 <= i < chat_rooms@.len() ==> (#[trigger] chat_rooms@[i]).0@.name
                    == chat_rooms@[i].1@.name && chat_rooms@[i].1.inv(),
        ensures
            r.inv(),
            r@.rooms.len() == chat_rooms@.len(),
            forall|i: int|
                0 <= i < chat_rooms@.len() ==> r@.rooms[i] == (#[trigger] chat_rooms@[i]).1@
                    && r@.metadata[i] == chat_rooms@[i].0@,
    {
        let ghost input = chat_rooms@;
        let mut rooms: Vec<ChatRoom> = Vec::new();
        let mut metadata: Vec<ChatRoomMetadata> = Vec::new();
        let mut items = chat_rooms;
        let mut k: usize = 0;
        let n = items.len();
        while k < n
            invariant
                0 <= k <= n,
                n == input.len(),
                items@ == input.skip(k as int),
                rooms@.len() == k,
                metadata@.len() == k,
                forall|i: int|
                    0 <= i < k ==> (#[trigger] rooms@[i])@ == input[i].1@ && metadata@[i]@
                        == input[i].0@,
            decreases n - k,
        {
            proof {
                assert(items@[0] == input.skip(k as int)[0]);
            }
            let (meta, room) = items.remove(0);
            proof {
                assert(input[k as int] == (meta, room));
            }
            metadata.push(meta);
            rooms.push(room);
            proof {
                assert(items@ =~= input.skip(k as int + 1));
            }
            k += 1;
        }
        let r = RoomManager { chat_rooms: rooms, chat_room_metadata: metadata };
        proof {
            assert(forall|i: int|
                0 <= i < input.len() ==> r@.rooms[i] == (#[trigger] input[i]).1@ && r@.metadata[i]
                    == input[i].0@);
        }
        r
    }

    /// The immutable list of all room metadata. Never fails.
    pub fn chat_room_metadata(&self) -> (r: &Vec<ChatRoomMetadata>)
        ensures
            r@.map_values(|m: ChatRoomMetadata| m@) == self@.metadata,
    {
        &self.chat_room_metadata
    }

    /// The index of the room with this name, if the directory holds
    /// one.
    fn find_room(&self, room_name: &str) -> (r: Option<usize>)
        requires
            self.inv(),
        ensures
            (match r {
                Some(i) => 0 <= i < self@.rooms.len() && self@.rooms[i as int].name == room_name@
                    && has_room(self@, room_name@) && room_index(self@, room_name@) == i as int,
                None => !has_room(self@, room_name@),
            }),
    {
        let needle = String::from_str(room_name);
        let mut i: usize = 0;
        while i < self.chat_rooms.len()
            invariant
                0 <= i <= self.chat_rooms.len(),
                needle@ == room_name@,
                forall|k: int| 0 <= k < i ==> self@.rooms[k].name != room_name@,
                self@.rooms.len() == self.chat_rooms@.len(),
                forall|k: int|
                    0 <= k < self.chat_rooms@.len() ==> #[trigger] self@.rooms[k]
                        == (self.chat_rooms@[k])@,
                self.inv(),
            decreases self.chat_rooms.len() - i,
        {
            if self.chat_rooms[i].name().eq(&needle) {
                assert(self@.rooms[i as int].name == room_name@);
                proof {
                    lemma_room_index_unique(self@, room_name@, i as int);
                }
                return Some(i);
            }
            i += 1;
        }
        assert(forall|k: int| 0 <= k < self@.rooms.len() ==> self@.rooms[k].name != room_name@);
        None
    }

    /// Joins a session to the named room: resolves the room, delegates
    /// to the room's `join`, and returns the live subscription, the
    /// handle for a later leave, and the post-join snapshot of unique
    /// user ids. Fails with `RoomNotFound` when the name is absent
    /// from the fixed directory. The session id must be fresh in the
    /// room, which the authenticating collaborator guarantees.
    pub fn join_room(&mut self, room_name: &str, session_and_user_id: &SessionAndUserId) -> (r:
        Result<RoomJoinResult, ChatError>)
        requires
            old(self).inv(),
            has_room(old(self)@, room_name@) ==> !has_session(
                old(self)@.rooms[room_index(old(self)@, room_name@)],
                session_and_user_id.session_id@,
            ),
        ensures
            final(self).inv(),
            final(self)@.metadata == old(self)@.metadata,
            !has_room(old(self)@, room_name@) ==> r == Err::<RoomJoinResult, ChatError>(
                ChatError::RoomNotFound,
            ) && final(self)@ == old(self)@,
            has_room(old(self)@, room_name@) ==> ({
                let i = room_index(old(self)@, room_name@);
                let room1 = spec_join(
                    old(self)@.rooms[i],
                    session_and_user_id.session_id@,
                    session_and_user_id.user_id@,
                );
                &&& final(self)@.rooms == old(self)@.rooms.update(i, room1)
                &&& (match r {
                    Ok((subscription, handle, snapshot)) => {
                        &&& subscription@.room == room1.name
                        &&& subscription@.start == room1.log.len()
                        &&& subscription@.cursor == subscription@.start
                        &&& sub_wf(room1, subscription@)
                        &&& handle@.room == room1.name
                        &&& handle@.session_id == session_and_user_id.session_id@
                        &&& snapshot@.map_values(|u: String| u@) == room1.users
                    },
                    Err(_) => false,
                })
            }),
    {
        let ghost pre = self@;
        match self.find_room(room_name) {
            None => Err(ChatError::RoomNotFound),
            Some(i) => {
                let ghost room0 = pre.rooms[i as int];
                let mut room = self.chat_rooms.remove(i);
                proof {
                    assert(room@ == room0);
                }
                let (subscription, handle) = room.join(session_and_user_id);
                let snapshot = clone_string_vec(room.get_unique_user_ids());
                self.chat_rooms.insert(i, room);
                proof {
                    let room1 = spec_join(
                        room0,
                        session_and_user_id.session_id@,
                        session_and_user_id.user_id@,
                    );
                    assert(self@.rooms =~~= pre.rooms.update(i as int, room1));
                    assert(self@.metadata =~~= pre.metadata);
                    lemma_updated_manager_inv(pre, i as int, room1);
                }
                Ok((subscription, handle, snapshot))
            },
        }
    }

    /// Removes the session a handle names, resolving the handle's room
    /// first. Fails with `RoomNotFound` when the room is absent (the
    /// handle is untyped data, so the check is required) and surfaces
    /// a stale or repeated handle as `SessionNotFound`.
    pub fn drop_user_session_handle(&mut self, handle: UserSessionHandle) -> (r: Result<
        (),
        ChatError,
    >)
        requires
            old(self).inv(),
        ensures
            final(self).inv(),
            final(self)@.metadata == old(self)@.metadata,
            !has_room(old(self)@, handle@.room) ==> r == Err::<(), ChatError>(
                ChatError::RoomNotFound,
            ) && final(self)@ == old(self)@,
            has_room(old(self)@, handle@.room) ==> ({
                let i = room_index(old(self)@, handle@.room);
                let room0 = old(self)@.rooms[i];
                &&& final(self)@.rooms == old(self)@.rooms.update(
                    i,
                    spec_leave(room0, handle@.session_id),
                )
                &&& (r is Ok <==> has_session(room0, handle@.session_id))
                &&& (r is Err ==> r == Err::<(), ChatError>(ChatError::SessionNotFound))
            }),
    {
        let ghost pre = self@;
        let found = self.find_room(handle.room().as_str());
        match found {
            None => Err(ChatError::RoomNotFound),
            Some(i) => {
                let ghost room0 = pre.rooms[i as int];
                let mut room = self.chat_rooms.remove(i);
                proof {
                    assert(room@ == room0);
                }
                let ghost sid = handle@.session_id;
                let outcome = room.leave(handle);
                self.chat_rooms.insert(i, room);
                proof {
                    let room1 = spec_leave(room0, sid);
                    assert(self@.rooms =~~= pre.rooms.update(i as int, room1));
                    assert(self@.metadata =~~= pre.metadata);
                    lemma_updated_manager_inv(pre, i as int, room1);
                }
                outcome
            },
        }
    }

    /// Accepts a message for the named room: the room appends it to
    /// its history and broadcasts it. Fails only with `RoomNotFound`;
    /// the poster is not required to hold a session (the permissive
    /// policy, documented on the room).
    pub fn handle_message(&mut self, room_name: &str, user_id: String, content: String) -> (r:
        Result<(), ChatError>)
        requires
            old(self).inv(),
        ensures
            final(self).inv(),
            final(self)@.metadata == old(self)@.metadata,
            !has_room(old(self)@, room_name@) ==> r == Err::<(), ChatError>(
                ChatError::RoomNotFound,
            ) && final(self)@ == old(self)@,
            has_room(old(self)@, room_name@) ==> r is Ok && final(self)@.rooms == old(
                self,
            )@.rooms.update(
                room_index(old(self)@, room_name@),
                spec_post(
                    old(self)@.rooms[room_index(old(self)@, room_name@)],
                    user_id@,
                    content@,
                ),
            ),
    {
        let ghost pre = self@;
        let ghost uid = user_id@;
        let ghost cont = content@;
        match self.find_room(room_name) {
            None => Err(ChatError::RoomNotFound),
            Some(i) => {
                let ghost room0 = pre.rooms[i as int];
                let mut room = self.chat_rooms.remove(i);
                proof {
                    assert(room@ == room0);
                }
                room.handle_message(user_id, content);
                self.chat_rooms.insert(i, room);
                proof {
                    let room1 = spec_post(room0, uid, cont);
                    assert(self@.rooms =~~= pre.rooms.update(i as int, room1));
                    assert(self@.metadata =~~= pre.metadata);
                    lemma_updated_manager_inv(pre, i as int, room1);
                }
                Ok(())
            },
        }
    }

    /// Replays the named room's history to one of its sessions,
    /// through that session's unicast outbox. Fails with
    /// `RoomNotFound` when the room is absent and `SessionNotFound`
    /// when no such session is joined there.
    pub fn get_room_history(&mut self, room_name: &str, session_id: &str) -> (r: Result<
        (),
        ChatError,
    >)
        requires
            old(self).inv(),
        ensures
            final(self).inv(),
            final(self)@.metadata == old(self)@.metadata,
            !has_room(old(self)@, room_name@) ==> r == Err::<(), ChatError>(
                ChatError::RoomNotFound,
            ) && final(self)@ == old(self)@,
            has_room(old(self)@, room_name@) ==> ({
                let i = room_index(old(self)@, room_name@);
                let room0 = old(self)@.rooms[i];
                &&& final(self)@.rooms == old(self)@.rooms.update(
                    i,
                    spec_replay(room0, session_id@),
                )
                &&& (r is Ok <==> has_session(room0, session_id@))
                &&& (r is Err ==> r == Err::<(), ChatError>(ChatError::SessionNotFound))
            }),
    {
        let ghost pre = self@;
        match self.find_room(room_name) {
            None => Err(ChatError::RoomNotFound),
            Some(i) => {
                let ghost room0 = pre.rooms[i as int];
                let mut room = self.chat_rooms.remove(i);
                proof {
                    assert(room@ == room0);
                }
                let sid = String::from_str(session_id);
                let outcome = room.send_history_to_session(&sid);
                self.chat_rooms.insert(i, room);
                proof {
                    let room1 = spec_replay(room0, session_id@);
                    assert(self@.rooms =~~= pre.rooms.update(i as int, room1));
                    assert(self@.metadata =~~= pre.metadata);
                    lemma_updated_manager_inv(pre, i as int, room1);
                }
                outcome
            },
        }
    }

    /// Reads a session's unicast outbox out of the named room, leaving
    /// it empty: the delivery side of a history replay, called by the
    /// session's own connection task.
    pub fn drain_unicast(&mut self, room_name: &str, session_id: &str) -> (r: Result<
        Vec<Event>,
        ChatError,
    >)
        requires
            old(self).inv(),
        ensures
            final(self).inv(),
            final(self)@.metadata == old(self)@.metadata,
            !has_room(old(self)@, room_name@) ==> r == Err::<Vec<Event>, ChatError>(
                ChatError::RoomNotFound,
            ) && final(self)@ == old(self)@,
            has_room(old(self)@, room_name@) ==> ({
                let i = room_index(old(self)@, room_name@);
                let room0 = old(self)@.rooms[i];
                &&& final(self)@.rooms == old(self)@.rooms.update(
                    i,
                    spec_drain(room0, session_id@),
                )
                &&& (r is Ok <==> has_session(room0, session_id@))
                &&& (match r {
                    Ok(events) => events@.map_values(|e: Event| e@) == crate::room::outbox_of(
                        room0,
                        session_id@,
                    ),
                    Err(err) => err == ChatError::SessionNotFound,
                })
            }),
    {
        let ghost pre = self@;
        match self.find_room(room_name) {
            None => Err(ChatError::RoomNotFound),
            Some(i) => {
                let ghost room0 = pre.rooms[i as int];
                let mut room = self.chat_rooms.remove(i);
                proof {
                    assert(room@ == room0);
                }
                let sid = String::from_str(session_id);
                let outcome = room.drain_unicast(&sid);
                self.chat_rooms.insert(i, room);
                proof {
                    let room1 = spec_drain(room0, session_id@);
                    assert(self@.rooms =~~= pre.rooms.update(i as int, room1));
                    assert(self@.metadata =~~= pre.metadata);
                    lemma_updated_manager_inv(pre, i as int, room1);
                }
                outcome
            },
        }
    }

    /// One poll step of a live subscription against the room it
    /// belongs to. Fails with `RoomNotFound` when the subscription's
    /// room is not in the directory.
    pub fn poll_subscription(&self, subscription: &mut Subscription) -> (r: Result<
        Option<SubscriptionRecv>,
        ChatError,
    >)
        requires
            self.inv(),
            has_room(self@, old(subscription)@.room) ==> sub_wf(
                self@.rooms[room_index(self@, old(subscription)@.room)],
                old(subscription)@,
            ),
        ensures
            final(subscription)@.room == old(subscription)@.room,
            final(subscription)@.start == old(subscription)@.start,
            final(subscription)@.cursor >= old(subscription)@.cursor,
            !has_room(self@, old(subscription)@.room) ==> r == Err::<
                Option<SubscriptionRecv>,
                ChatError,
            >(ChatError::RoomNotFound) && final(subscription)@ == old(subscription)@,
            has_room(self@, old(subscription)@.room) ==> ({
                let rv = self@.rooms[room_index(self@, old(subscription)@.room)];
                let (sv2, out) = spec_poll(rv, old(subscription)@);
                &&& final(subscription)@ == sv2
                &&& sub_wf(rv, final(subscription)@)
                &&& (match (r, out) {
                    (Ok(Some(x)), Some(y)) => x@ == y,
                    (Ok(None), None) => true,
                    _ => false,
                })
                &&& (match r {
                    Ok(Some(SubscriptionRecv::Event(e))) => e@.seq >= old(subscription)@.start,
                    _ => true,
                })
            }),
    {
        let found = self.find_room(subscription.room().as_str());
        match found {
            None => Err(ChatError::RoomNotFound),
            Some(i) => {
                let room = &self.chat_rooms[i];
                proof {
                    assert(room@ == self@.rooms[i as int]);
                }
                Ok(room.poll_subscription(subscription))
            },
        }
    }
}

/// An exact copy of a list of strings, for point-in-time snapshots.
fn clone_string_vec(v: &Vec<String>) -> (r: Vec<String>)
    ensures
        r@.map_values(|s: String| s@) == v@.map_values(|s: String| s@),
{
    let mut r: Vec<String> = Vec::new();
    let mut i: usize = 0;
    while i < v.len()
        invariant
            0 <= i <= v.len(),
            r@ =~= v@.take(i as int),
        decreases v.len() - i,
    {
        r.push(v[i].clone());
        proof {
            assert(r@ =~= v@.take(i as int + 1));
        }
        i += 1;
    }
    proof {
        assert(v@.take(v@.len() as int) =~= v@);
    }
    r
}

/// Replacing one room leaves the directory well formed, provided the
/// new state keeps the room's name.
pub proof fn lemma_updated_manager_inv(mv: ManagerV, i: int, room1: RoomV)
    requires
        mv.inv(),
        0 <= i < mv.rooms.len(),
        room1.name == mv.rooms[i].name,
        room1.inv(),
    ensures
        (ManagerV { rooms: mv.rooms.update(i, room1), ..mv }).inv(),
{
}

/// Two sessions joined to different rooms never observe each other's
/// events: an operation routed to one room replaces only that room's
/// state, so every other room — and with it everything any of its
/// subscriptions can observe by polling — is left exactly as it was.
pub proof fn lemma_room_isolation(mv: ManagerV, i: int, room1: RoomV, j: int, sv: SubscriptionV)
    requires
        mv.inv(),
        0 <= i < mv.rooms.len(),
        0 <= j < mv.rooms.len(),
        i != j,
        sub_wf(mv.rooms[j], sv),
    ensures
        ({
            let mv2 = ManagerV { rooms: mv.rooms.update(i, room1), ..mv };
            &&& mv2.rooms[j] == mv.rooms[j]
            &&& spec_poll(mv2.rooms[j], sv) == spec_poll(mv.rooms[j], sv)
        }),
{
}

} // verus!
