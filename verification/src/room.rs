use vstd::prelude::*;

use crate::event::{ChatError, Event, EventBody, EventBodyV, EventV};

verus! {

/// The caller-supplied identity of a joining connection. The session id
/// is assumed globally unique, issued by the external collaborator that
/// authenticates the connection; the same user id may own several
/// concurrent sessions (multi-device).
pub struct SessionAndUserId {
    pub session_id: String,
    pub user_id: String,
}

/// One active join: the room-side record of a session, including the
/// session's dedicated unicast outbox. The outbox carries only targeted
/// history replay, never room-wide broadcast.
pub struct SessionRecord {
    pub session_id: String,
    pub user_id: String,
    pub outbox: Vec<Event>,
}

/// Mathematical form of `SessionRecord`.
#[verifier::ext_equal]
pub struct SessionV {
    pub session_id: Seq<char>,
    pub user_id: Seq<char>,
    pub outbox: Seq<EventV>,
}

impl View for SessionRecord {
    type V = SessionV;

    open spec fn view(&self) -> SessionV {
        SessionV {
            session_id: self.session_id@,
            user_id: self.user_id@,
            outbox: self.outbox@.map_values(|e: Event| e@),
        }
    }
}

/// Opaque token returned by `join`, carrying the room name and the
/// session id, used later to address `leave`. It is an addressing key,
/// not a security boundary.
pub struct UserSessionHandle {
    room: String,
    session_id: String,
}

/// Mathematical form of `UserSessionHandle`.
#[verifier::ext_equal]
pub struct HandleV {
    pub room: Seq<char>,
    pub session_id: Seq<char>,
}

impl View for UserSessionHandle {
    type V = HandleV;

    closed spec fn view(&self) -> HandleV {
        HandleV { room: self.room@, session_id: self.session_id@ }
    }
}

impl UserSessionHandle {
    /// The name of the room this handle's session joined.
    pub fn room(&self) -> (r: &String)
        ensures
            r@ == self@.room,
    {
        &self.room
    }

    /// The session this handle names.
    pub fn session_id(&self) -> (r: &String)
        ensures
            r@ == self@.session_id,
    {
        &self.session_id
    }

    /// An exact copy. The handle is a bearer token trusted by value,
    /// so a copy addresses the same session; a copy used after the
    /// session left surfaces `SessionNotFound`.
    pub fn duplicate(&self) -> (r: UserSessionHandle)
        ensures
            r@ == self@,
    {
        UserSessionHandle { room: self.room.clone(), session_id: self.session_id.clone() }
    }
}

/// A live subscription to a room's broadcast stream: an independent
/// read cursor over the stream, owned by exactly one session. `start`
/// is the stream position at which the subscription was created; the
/// cursor never moves below it, so no event broadcast strictly before
/// the join is ever observed.
pub struct Subscription {
    room: String,
    start: usize,
    cursor: usize,
}

/// Mathematical form of `Subscription`.
#[verifier::ext_equal]
pub struct SubscriptionV {
    pub room: Seq<char>,
    pub start: int,
    pub cursor: int,
}

impl View for Subscription {
    type V = SubscriptionV;

    closed spec fn view(&self) -> SubscriptionV {
        SubscriptionV { room: self.room@, start: self.start as int, cursor: self.cursor as int }
    }
}

impl Subscription {
    /// The name of the room this subscription reads from.
    pub fn room(&self) -> (r: &String)
        ensures
            r@ == self@.room,
    {
        &self.room
    }
}

/// One step of polling a subscription.
pub enum SubscriptionRecv {
    /// The next broadcast event, in broadcast order.
    Event(Event),
    /// The subscriber fell behind the channel capacity: this many
    /// events were dropped. The caller should re-synchronize by
    /// requesting a history replay.
    Lagged(usize),
}

/// Mathematical form of `SubscriptionRecv`.
#[verifier::ext_equal]
pub enum RecvV {
    Event(EventV),
    Lagged(int),
}

impl View for SubscriptionRecv {
    type V = RecvV;

    open spec fn view(&self) -> RecvV {
        match self {
            SubscriptionRecv::Event(e) => RecvV::Event(e@),
            SubscriptionRecv::Lagged(n) => RecvV::Lagged(*n as int),
        }
    }
}

/// One room's state machine: session table, unique-user set, bounded
/// history log, and the broadcast stream. Each operation runs under
/// exclusive access to the whole room (callers hold `&mut` or go
/// through a lock owned by the embedding layer).
pub struct ChatRoom {
    name: String,
    history_capacity: usize,
    channel_capacity: usize,
    sessions: Vec<SessionRecord>,
    unique_user_ids: Vec<String>,
    history: Vec<Event>,
    log: Vec<Event>,
}

/// Mathematical form of `ChatRoom`. `log` is the whole broadcast
/// stream since room creation; subscriptions are cursors into it, and
/// `channel_capacity` bounds how far a subscriber may fall behind
/// before it lags (loses events).
#[verifier::ext_equal]
pub struct RoomV {
    pub name: Seq<char>,
    pub history_capacity: int,
    pub channel_capacity: int,
    pub sessions: Seq<SessionV>,
    pub users: Seq<Seq<char>>,
    pub history: Seq<EventV>,
    pub log: Seq<EventV>,
}

impl View for ChatRoom {
    type V = RoomV;

    closed spec fn view(&self) -> RoomV {
        RoomV {
            name: self.name@,
            history_capacity: self.history_capacity as int,
            channel_capacity: self.channel_capacity as int,
            sessions: self.sessions@.map_values(|s: SessionRecord| s@),
            users: self.unique_user_ids@.map_values(|u: String| u@),
            history: self.history@.map_values(|e: Event| e@),
            log: self.log@.map_values(|e: Event| e@),
        }
    }
}

/// There is a session with this session id in the room.
pub open spec fn has_session(rv: RoomV, sid: Seq<char>) -> bool {
    exists|i: int| 0 <= i < rv.sessions.len() && rv.sessions[i].session_id == sid
}

/// The (unique) index of the session with this session id.
pub open spec fn session_index(rv: RoomV, sid: Seq<char>) -> int {
    choose|i: int| 0 <= i < rv.sessions.len() && rv.sessions[i].session_id == sid
}

/// Some currently-joined session belongs to this user.
pub open spec fn user_present(rv: RoomV, uid: Seq<char>) -> bool {
    exists|i: int| 0 <= i < rv.sessions.len() && rv.sessions[i].user_id == uid
}

/// The unicast outbox of the session with this session id.
pub open spec fn outbox_of(rv: RoomV, sid: Seq<char>) -> Seq<EventV> {
    rv.sessions[session_index(rv, sid)].outbox
}

impl RoomV {
    /// Well-formedness of a room's state.
    pub open spec fn inv(self) -> bool {
        // session ids are unique within the room
        &&& (forall|i: int, j: int|
            0 <= i < j < self.sessions.len() ==> self.sessions[i].session_id
                != self.sessions[j].session_id)
        // the unique-user list holds no duplicates
        &&& (forall|i: int, j: int|
            0 <= i < j < self.users.len() ==> self.users[i] != self.users[j])
        // every listed user owns at least one session
        &&& (forall|i: int|
            0 <= i < self.users.len() ==> user_present(self, #[trigger] self.users[i]))
        // every session's user is listed
        &&& (forall|j: int|
            0 <= j < self.sessions.len() ==> self.users.contains(
                #[trigger] self.sessions[j].user_id,
            ))
        // the history never exceeds its fixed capacity
        &&& self.history.len() <= self.history_capacity
        // the broadcast stream numbers its events by position
        &&& (forall|i: int| 0 <= i < self.log.len() ==> (#[trigger] self.log[i]).seq == i)
        // history entries are drawn from the broadcast stream, in order
        &&& (forall|i: int|
            0 <= i < self.history.len() ==> 0 <= (#[trigger] self.history[i]).seq
                < self.log.len() && self.log[self.history[i].seq] == self.history[i])
        &&& (forall|i: int, j: int|
            0 <= i < j < self.history.len() ==> self.history[i].seq < self.history[j].seq)
        &&& self.channel_capacity >= 1
    }

    /// The unique-user set, as a set.
    pub open spec fn user_id_set(self) -> Set<Seq<char>> {
        Set::new(|u: Seq<char>| self.users.contains(u))
    }

    /// The set of user ids with at least one currently-joined session.
    pub open spec fn session_user_set(self) -> Set<Seq<char>> {
        Set::new(|u: Seq<char>| user_present(self, u))
    }
}

/// A subscription is consistent with the room it reads from.
pub open spec fn sub_wf(rv: RoomV, sv: SubscriptionV) -> bool {
    &&& sv.room == rv.name
    &&& 0 <= sv.start <= sv.cursor <= rv.log.len()
}

/// The room state after `join`: the session is appended with an empty
/// outbox; on the user's first session the user is listed and a join
/// notice is broadcast (on later sessions of the same user neither
/// happens, so existing subscribers get no duplicate notice).
pub open spec fn spec_join(rv: RoomV, sid: Seq<char>, uid: Seq<char>) -> RoomV {
    let first = !rv.users.contains(uid);
    RoomV {
        sessions: rv.sessions.push(SessionV { session_id: sid, user_id: uid, outbox: Seq::empty() }),
        users: if first {
            rv.users.push(uid)
        } else {
            rv.users
        },
        log: if first {
            rv.log.push(EventV { seq: rv.log.len() as int, user_id: uid, body: EventBodyV::Joined })
        } else {
            rv.log
        },
        ..rv
    }
}

impl ChatRoom {
    /// Well-formedness of the room.
    pub open spec fn inv(&self) -> bool {
        self@.inv()
    }

    /// A fresh, empty room. `history_capacity` fixes the bound of the
    /// history log; `channel_capacity` bounds how far a live subscriber
    /// may fall behind the broadcast stream before it lags.
    pub fn new(name: String, history_capacity: usize, channel_capacity: usize) -> (r: ChatRoom)
        requires
            channel_capacity >= 1,
        ensures
            r.inv(),
            r@.name == name@,
            r@.history_capacity == history_capacity as int,
            r@.channel_capacity == channel_capacity as int,
            r@.sessions == Seq::<SessionV>::empty(),
            r@.users == Seq::<Seq<char>>::empty(),
            r@.history == Seq::<EventV>::empty(),
            r@.log == Seq::<EventV>::empty(),
    {
        let r = ChatRoom {
            name,
            history_capacity,
            channel_capacity,
            sessions: Vec::new(),
            unique_user_ids: Vec::new(),
            history: Vec::new(),
            log: Vec::new(),
        };
        proof {
            assert(r@.sessions =~= Seq::<SessionV>::empty());
            assert(r@.users =~= Seq::<Seq<char>>::empty());
            assert(r@.history =~= Seq::<EventV>::empty());
            assert(r@.log =~= Seq::<EventV>::empty());
        }
        r
    }

    /// The room's name.
    pub fn name(&self) -> (r: &String)
        ensures
            r@ == self@.name,
    {
        &self.name
    }

    /// The de-duplicated list of user ids currently present in the
    /// room, derived from the active session records.
    pub fn get_unique_user_ids(&self) -> (r: &Vec<String>)
        ensures
            r@.map_values(|u: String| u@) == self@.users,
    {
        &self.unique_user_ids
    }

    /// The current contents of the bounded history log, oldest first.
    pub fn history(&self) -> (r: &Vec<Event>)
        ensures
            r@.map_values(|e: Event| e@) == self@.history,
    {
        &self.history
    }

    /// Whether this user id is in the unique-user list.
    fn user_listed(&self, user_id: &String) -> (r: bool)
        ensures
            r == self@.users.contains(user_id@),
    {
        let mut i: usize = 0;
        while i < self.unique_user_ids.len()
            invariant
                0 <= i <= self.unique_user_ids.len(),
                forall|k: int| 0 <= k < i ==> self@.users[k] != user_id@,
                self@.users.len() == self.unique_user_ids@.len(),
                forall|k: int|
                    0 <= k < self.unique_user_ids@.len() ==> self@.users[k]
                        == (#[trigger] self.unique_user_ids@[k])@,
            decreases self.unique_user_ids.len() - i,
        {
            if self.unique_user_ids[i].eq(user_id) {
                assert(self@.users[i as int] == user_id@);
                return true;
            }
            i += 1;
        }
        assert(forall|k: int| 0 <= k < self@.users.len() ==> self@.users[k] != user_id@);
        assert(!self@.users.contains(user_id@));
        false
    }

    /// Joins a session to the room: appends the session record, lists
    /// the user on their first session (broadcasting a join notice to
    /// the subscribers that already exist), and returns a live
    /// subscription positioned at "now" together with the handle for a
    /// later `leave`. Any identity pair is accepted; uniqueness of
    /// session ids is the authenticating collaborator's contract.
    pub fn join(&mut self, session_and_user_id: &SessionAndUserId) -> (r: (
        Subscription,
        UserSessionHandle,
    ))
        requires
            old(self).inv(),
            !has_session(old(self)@, session_and_user_id.session_id@),
        ensures
            final(self).inv(),
            final(self)@ == spec_join(
                old(self)@,
                session_and_user_id.session_id@,
                session_and_user_id.user_id@,
            ),
            r.0@.room == final(self)@.name,
            r.0@.start == final(self)@.log.len(),
            r.0@.cursor == r.0@.start,
            sub_wf(final(self)@, r.0@),
            r.1@.room == final(self)@.name,
            r.1@.session_id == session_and_user_id.session_id@,
    {
        let ghost pre = self@;
        let first = !self.user_listed(&session_and_user_id.user_id);
        if first {
            let notice = Event {
                seq: self.log.len(),
                user_id: session_and_user_id.user_id.clone(),
                body: EventBody::Joined,
            };
            self.log.push(notice);
            self.unique_user_ids.push(session_and_user_id.user_id.clone());
        }
        let record = SessionRecord {
            session_id: session_and_user_id.session_id.clone(),
            user_id: session_and_user_id.user_id.clone(),
            outbox: Vec::new(),
        };
        self.sessions.push(record);
        let subscription = Subscription {
            room: self.name.clone(),
            start: self.log.len(),
            cursor: self.log.len(),
        };
        let handle = UserSessionHandle {
            room: self.name.clone(),
            session_id: session_and_user_id.session_id.clone(),
        };
        proof {
            let post = spec_join(
                pre,
                session_and_user_id.session_id@,
                session_and_user_id.user_id@,
            );
            assert(self@.sessions =~~= post.sessions);
            assert(self@.users =~~= post.users);
            assert(self@.log =~~= post.log);
            assert(self@.history =~~= post.history);
            assert(self@ =~~= post);
            lemma_join_preserves_inv(pre, session_and_user_id.session_id@, session_and_user_id.user_id@);
        }
        (subscription, handle)
    }

    /// The index of the session with this session id, if it is joined.
    fn find_session(&self, session_id: &String) -> (r: Option<usize>)
        ensures
            (match r {
                Some(i) => 0 <= i < self@.sessions.len() && self@.sessions[i as int].session_id
                    == session_id@ && has_session(self@, session_id@),
                None => !has_session(self@, session_id@),
            }),
    {
        let mut i: usize = 0;
        while i < self.sessions.len()
            invariant
                0 <= i <= self.sessions.len(),
                forall|k: int| 0 <= k < i ==> self@.sessions[k].session_id != session_id@,
                self@.sessions.len() == self.sessions@.len(),
                forall|k: int|
                    0 <= k < self.sessions@.len() ==> #[trigger] self@.sessions[k]
                        == (self.sessions@[k])@,
            decreases self.sessions.len() - i,
        {
            if self.sessions[i].session_id.eq(session_id) {
                assert(self@.sessions[i as int].session_id == session_id@);
                return Some(i);
            }
            i += 1;
        }
        assert(forall|k: int|
            0 <= k < self@.sessions.len() ==> self@.sessions[k].session_id != session_id@);
        None
    }

    /// The index of the user in the unique-user list, if listed.
    fn find_user(&self, user_id: &String) -> (r: Option<usize>)
        ensures
            (match r {
                Some(i) => 0 <= i < self@.users.len() && self@.users[i as int] == user_id@
                    && self@.users.contains(user_id@),
                None => !self@.users.contains(user_id@),
            }),
    {
        let mut i: usize = 0;
        while i < self.unique_user_ids.len()
            invariant
                0 <= i <= self.unique_user_ids.len(),
                forall|k: int| 0 <= k < i ==> self@.users[k] != user_id@,
                self@.users.len() == self.unique_user_ids@.len(),
                forall|k: int|
                    0 <= k < self.unique_user_ids@.len() ==> self@.users[k]
                        == (#[trigger] self.unique_user_ids@[k])@,
            decreases self.unique_user_ids.len() - i,
        {
            if self.unique_user_ids[i].eq(user_id) {
                assert(self@.users[i as int] == user_id@);
                return Some(i);
            }
            i += 1;
        }
        assert(forall|k: int| 0 <= k < self@.users.len() ==> self@.users[k] != user_id@);
        assert(!self@.users.contains(user_id@));
        None
    }

    /// Whether any remaining session belongs to this user.
    fn user_has_session(&self, user_id: &String) -> (r: bool)
        ensures
            r == user_present(self@, user_id@),
    {
        let mut i: usize = 0;
        while i < self.sessions.len()
            invariant
                0 <= i <= self.sessions.len(),
                forall|k: int| 0 <= k < i ==> self@.sessions[k].user_id != user_id@,
                self@.sessions.len() == self.sessions@.len(),
                forall|k: int|
                    0 <= k < self.sessions@.len() ==> #[trigger] self@.sessions[k]
                        == (self.sessions@[k])@,
            decreases self.sessions.len() - i,
        {
            if self.sessions[i].user_id.eq(user_id) {
                assert(self@.sessions[i as int].user_id == user_id@);
                return true;
            }
            i += 1;
        }
        assert(forall|k: int|
            0 <= k < self@.sessions.len() ==> self@.sessions[k].user_id != user_id@);
        false
    }

    /// Removes the session this handle names. On the user's last
    /// session the user leaves the unique-user set and a leave notice
    /// is broadcast. A stale or repeated handle is surfaced as
    /// `SessionNotFound` rather than silently swallowed, since silent
    /// success could mask a connection-tracking bug in the caller.
    pub fn leave(&mut self, handle: UserSessionHandle) -> (r: Result<(), ChatError>)
        requires
            old(self).inv(),
        ensures
            final(self).inv(),
            final(self)@ == spec_leave(old(self)@, handle@.session_id),
            r is Ok <==> has_session(old(self)@, handle@.session_id),
            r is Err ==> r == Err::<(), ChatError>(ChatError::SessionNotFound) && final(self)@
                == old(self)@,
    {
        let ghost pre = self@;
        let ghost sid = handle@.session_id;
        match self.find_session(&handle.session_id) {
            None => {
                assert(self@ =~~= spec_leave(pre, sid));
                Err(ChatError::SessionNotFound)
            },
            Some(i) => {
                proof {
                    lemma_session_index_unique(pre, sid, i as int);
                }
                let record = self.sessions.remove(i);
                proof {
                    assert(record@ == pre.sessions[i as int]);
                    assert(pre.users.contains(pre.sessions[i as int].user_id));
                }
                let still_present = self.user_has_session(&record.user_id);
                if !still_present {
                    let ghost mid = self@;
                    match self.find_user(&record.user_id) {
                        Some(k) => {
                            proof {
                                lemma_user_index_unique(pre, record.user_id@, k as int);
                            }
                            self.unique_user_ids.remove(k);
                            let notice = Event {
                                seq: self.log.len(),
                                user_id: record.user_id,
                                body: EventBody::Left,
                            };
                            self.log.push(notice);
                        },
                        None => {
                            // cannot happen: the removed session's user was listed
                            proof {
                                assert(pre.users.contains(record.user_id@));
                                assert(mid.users == pre.users);
                                assert(false);
                            }
                        },
                    }
                }
                proof {
                    let post = spec_leave(pre, sid);
                    assert(self@.sessions =~~= post.sessions);
                    assert(self@.users =~~= post.users);
                    assert(self@.log =~~= post.log);
                    assert(self@.history =~~= post.history);
                    assert(self@ =~~= post);
                    lemma_leave_preserves_inv(pre, sid);
                }
                Ok(())
            },
        }
    }

    /// Accepts a message: builds the event carrying the user id, the
    /// content and the next sequence number, appends it to the bounded
    /// history (evicting the oldest entry when full) and broadcasts
    /// it. The poster is not required to hold a session in the room
    /// (the permissive policy: presence checks belong to the
    /// connection layer).
    pub fn handle_message(&mut self, user_id: String, content: String)
        requires
            old(self).inv(),
        ensures
            final(self).inv(),
            final(self)@ == spec_post(old(self)@, user_id@, content@),
    {
        let ghost pre = self@;
        let ghost uid = user_id@;
        let ghost cont = content@;
        let event = Event {
            seq: self.log.len(),
            user_id,
            body: EventBody::Message { content },
        };
        if self.history.len() >= self.history_capacity {
            if self.history.len() > 0 {
                self.history.remove(0);
            }
        }
        if self.history_capacity > 0 {
            self.history.push(event.duplicate());
        }
        self.log.push(event);
        proof {
            let post = spec_post(pre, uid, cont);
            assert(self@.history =~~= post.history);
            assert(self@.log =~~= post.log);
            assert(self@ =~~= post);
            lemma_post_preserves_inv(pre, uid, cont);
        }
    }

    /// Delivers the current history log, in stored order, into the
    /// addressed session's unicast outbox — never onto the broadcast
    /// stream, so other sessions see no duplicate of the replay. Fails
    /// with `SessionNotFound` when no such session is joined.
    pub fn send_history_to_session(&mut self, session_id: &String) -> (r: Result<(), ChatError>)
        requires
            old(self).inv(),
        ensures
            final(self).inv(),
            final(self)@ == spec_replay(old(self)@, session_id@),
            r is Ok <==> has_session(old(self)@, session_id@),
            r is Err ==> r == Err::<(), ChatError>(ChatError::SessionNotFound) && final(self)@
                == old(self)@,
    {
        let ghost pre = self@;
        let ghost sid = session_id@;
        match self.find_session(session_id) {
            None => {
                assert(self@ =~~= spec_replay(pre, sid));
                Err(ChatError::SessionNotFound)
            },
            Some(i) => {
                proof {
                    lemma_session_index_unique(pre, sid, i as int);
                }
                let mut record = self.sessions.remove(i);
                let ghost outbox0 = record@.outbox;
                let mut k: usize = 0;
                while k < self.history.len()
                    invariant
                        0 <= k <= self.history.len(),
                        i < pre.sessions.len(),
                        self@.history == pre.history,
                        record@.outbox == outbox0 + pre.history.take(k as int),
                        record@.session_id == pre.sessions[i as int].session_id,
                        record@.user_id == pre.sessions[i as int].user_id,
                        self@.history.len() == self.history@.len(),
                        forall|m: int|
                            0 <= m < self.history@.len() ==> #[trigger] self@.history[m]
                                == (self.history@[m])@,
                    decreases self.history.len() - k,
                {
                    let e = self.history[k].duplicate();
                    let ghost ob_pre = record@.outbox;
                    let ghost vec_pre = record.outbox@;
                    proof {
                        assert(e@ == pre.history[k as int]);
                    }
                    record.outbox.push(e);
                    proof {
                        assert(record.outbox@ == vec_pre.push(e));
                        assert(ob_pre.len() == vec_pre.len());
                        assert(pre.history.take(k as int).len() == k as int);
                        assert(pre.history.take(k as int + 1).len() == k as int + 1);
                        assert(ob_pre.len() == outbox0.len() + k);
                        assert(record@.outbox.len() == vec_pre.len() + 1);
                        assert forall|m: int|
                            0 <= m < record@.outbox.len() implies #[trigger] record@.outbox[m]
                            == (outbox0 + pre.history.take(k as int + 1))[m] by {
                            assert(record@.outbox[m] == (vec_pre.push(e)[m])@);
                            if m < vec_pre.len() {
                                assert(vec_pre.push(e)[m] == vec_pre[m]);
                                assert((vec_pre[m])@ == ob_pre[m]);
                                assert(ob_pre[m] == (outbox0 + pre.history.take(k as int))[m]);
                                assert((outbox0 + pre.history.take(k as int))[m] == (outbox0
                                    + pre.history.take(k as int + 1))[m]);
                            } else {
                                assert(m == vec_pre.len());
                                assert(vec_pre.push(e)[m] == e);
                                assert((outbox0 + pre.history.take(k as int + 1))[m]
                                    == pre.history.take(k as int + 1)[k as int]);
                            }
                        }
                        assert(record@.outbox =~~= outbox0 + pre.history.take(k as int + 1));
                    }
                    k += 1;
                }
                proof {
                    assert(pre.history.take(pre.history.len() as int) =~~= pre.history);
                    assert(record@.outbox =~~= outbox0 + pre.history);
                }
                self.sessions.insert(i, record);
                proof {
                    let post = spec_replay(pre, sid);
                    assert(self@.sessions =~~= post.sessions);
                    assert(self@ =~~= post);
                    lemma_replay_preserves_inv(pre, sid);
                }
                Ok(())
            },
        }
    }

    /// Reads a session's unicast outbox out of the room, leaving it
    /// empty: the delivery side of history replay, owned by the
    /// session's connection task.
    pub fn drain_unicast(&mut self, session_id: &String) -> (r: Result<Vec<Event>, ChatError>)
        requires
            old(self).inv(),
        ensures
            final(self).inv(),
            final(self)@ == spec_drain(old(self)@, session_id@),
            r is Ok <==> has_session(old(self)@, session_id@),
            (match r {
                Ok(v) => v@.map_values(|e: Event| e@) == outbox_of(old(self)@, session_id@),
                Err(err) => err == ChatError::SessionNotFound && final(self)@ == old(self)@,
            }),
    {
        let ghost pre = self@;
        let ghost sid = session_id@;
        match self.find_session(session_id) {
            None => {
                assert(self@ =~~= spec_drain(pre, sid));
                Err(ChatError::SessionNotFound)
            },
            Some(i) => {
                proof {
                    lemma_session_index_unique(pre, sid, i as int);
                }
                let record = self.sessions.remove(i);
                proof {
                    assert(record@ == pre.sessions[i as int]);
                }
                let SessionRecord { session_id: rec_sid, user_id: rec_uid, outbox } = record;
                let empty_rec = SessionRecord {
                    session_id: rec_sid,
                    user_id: rec_uid,
                    outbox: Vec::new(),
                };
                self.sessions.insert(i, empty_rec);
                proof {
                    let post = spec_drain(pre, sid);
                    assert(empty_rec@.outbox =~~= Seq::<EventV>::empty());
                    assert(self@.sessions =~~= post.sessions);
                    assert(self@ =~~= post);
                    lemma_drain_preserves_inv(pre, sid);
                }
                Ok(outbox)
            },
        }
    }

    /// One poll step of a live subscription: the next broadcast event
    /// in order; a `Lagged` notice (with the cursor resynchronized)
    /// when the subscriber fell more than the channel capacity behind;
    /// or `None` when it is caught up. An event observed here was
    /// never broadcast before the subscription's join point.
    pub fn poll_subscription(&self, subscription: &mut Subscription) -> (r: Option<
        SubscriptionRecv,
    >)
        requires
            self.inv(),
            sub_wf(self@, old(subscription)@),
        ensures
            sub_wf(self@, final(subscription)@),
            final(subscription)@.room == old(subscription)@.room,
            final(subscription)@.start == old(subscription)@.start,
            final(subscription)@.cursor >= old(subscription)@.cursor,
            ({
                let (sv2, out) = spec_poll(self@, old(subscription)@);
                &&& final(subscription)@ == sv2
                &&& (match (r, out) {
                    (Some(x), Some(y)) => x@ == y,
                    (None, None) => true,
                    _ => false,
                })
            }),
            (match r {
                Some(SubscriptionRecv::Event(e)) => e@.seq >= old(subscription)@.start,
                _ => true,
            }),
    {
        if subscription.cursor == self.log.len() {
            None
        } else if self.log.len() - subscription.cursor > self.channel_capacity {
            let newcur = self.log.len() - self.channel_capacity;
            let missed = newcur - subscription.cursor;
            subscription.cursor = newcur;
            Some(SubscriptionRecv::Lagged(missed))
        } else {
            let e = self.log[subscription.cursor].duplicate();
            proof {
                assert(e@ == self@.log[old(subscription)@.cursor]);
                assert(self@.log[old(subscription)@.cursor].seq == old(subscription)@.cursor);
            }
            subscription.cursor = subscription.cursor + 1;
            Some(SubscriptionRecv::Event(e))
        }
    }
}

/// `spec_join` preserves the room invariant.
pub proof fn lemma_join_preserves_inv(rv: RoomV, sid: Seq<char>, uid: Seq<char>)
    requires
        rv.inv(),
        !has_session(rv, sid),
    ensures
        spec_join(rv, sid, uid).inv(),
{
    let post = spec_join(rv, sid, uid);
    let n = rv.sessions.len() as int;
    assert(forall|i: int|
        0 <= i < n ==> post.sessions[i] == rv.sessions[i]);
    assert(forall|i: int|
        0 <= i < post.users.len() ==> user_present(post, #[trigger] post.users[i])) by {
        assert forall|i: int| 0 <= i < post.users.len() implies user_present(
            post,
            #[trigger] post.users[i],
        ) by {
            if i < rv.users.len() {
                assert(user_present(rv, rv.users[i]));
                let w = choose|j: int|
                    0 <= j < rv.sessions.len() && rv.sessions[j].user_id == rv.users[i];
                assert(post.sessions[w].user_id == post.users[i]);
            } else {
                assert(post.users[i] == uid);
                assert(post.sessions[n].user_id == uid);
            }
        }
    }
    assert(forall|j: int|
        0 <= j < post.sessions.len() ==> post.users.contains(
            #[trigger] post.sessions[j].user_id,
        )) by {
        assert forall|j: int| 0 <= j < post.sessions.len() implies post.users.contains(
            #[trigger] post.sessions[j].user_id,
        ) by {
            if j < n {
                let u = rv.sessions[j].user_id;
                assert(rv.users.contains(u));
                let k = choose|k: int| 0 <= k < rv.users.len() && rv.users[k] == u;
                assert(post.users[k] == u);
            } else {
                if rv.users.contains(uid) {
                    let k = choose|k: int| 0 <= k < rv.users.len() && rv.users[k] == uid;
                    assert(post.users[k] == uid);
                } else {
                    assert(post.users[rv.users.len() as int] == uid);
                }
            }
        }
    }
    assert(forall|i: int, j: int|
        0 <= i < j < post.sessions.len() ==> post.sessions[i].session_id
            != post.sessions[j].session_id);
    assert(forall|i: int, j: int| 0 <= i < j < post.users.len() ==> post.users[i] != post.users[j]);
    assert(post.history.len() <= post.history_capacity);
    assert(forall|i: int| 0 <= i < post.log.len() ==> (#[trigger] post.log[i]).seq == i);
    assert(forall|i: int|
        0 <= i < post.history.len() ==> 0 <= (#[trigger] post.history[i]).seq < post.log.len()
            && post.log[post.history[i].seq] == post.history[i]);
    assert(forall|i: int, j: int|
        0 <= i < j < post.history.len() ==> post.history[i].seq < post.history[j].seq);
}

/// The (unique) index of a user id in the unique-user list.
pub open spec fn user_index(rv: RoomV, uid: Seq<char>) -> int {
    choose|k: int| 0 <= k < rv.users.len() && rv.users[k] == uid
}

/// Under the invariant, a session id determines its index.
pub proof fn lemma_session_index_unique(rv: RoomV, sid: Seq<char>, i: int)
    requires
        rv.inv(),
        0 <= i < rv.sessions.len(),
        rv.sessions[i].session_id == sid,
    ensures
        session_index(rv, sid) == i,
{
    assert(has_session(rv, sid));
    let j = session_index(rv, sid);
    assert(0 <= j < rv.sessions.len() && rv.sessions[j].session_id == sid);
    if i < j {
        assert(rv.sessions[i].session_id != rv.sessions[j].session_id);
    } else if j < i {
        assert(rv.sessions[j].session_id != rv.sessions[i].session_id);
    }
}

/// Under the invariant, a listed user id determines its index.
pub proof fn lemma_user_index_unique(rv: RoomV, uid: Seq<char>, k: int)
    requires
        rv.inv(),
        0 <= k < rv.users.len(),
        rv.users[k] == uid,
    ensures
        user_index(rv, uid) == k,
{
    let j = user_index(rv, uid);
    assert(0 <= j < rv.users.len() && rv.users[j] == uid);
    if k < j {
        assert(rv.users[k] != rv.users[j]);
    } else if j < k {
        assert(rv.users[j] != rv.users[k]);
    }
}

/// The room state after `leave`: the session record is removed; on the
/// user's last session the user is un-listed and a leave notice is
/// broadcast (mirroring the first-session policy of `join`). A session
/// id that is not joined leaves the room unchanged.
pub open spec fn spec_leave(rv: RoomV, sid: Seq<char>) -> RoomV {
    if !has_session(rv, sid) {
        rv
    } else {
        let i = session_index(rv, sid);
        let uid = rv.sessions[i].user_id;
        let sessions1 = rv.sessions.remove(i);
        let last = !(exists|j: int| 0 <= j < sessions1.len() && sessions1[j].user_id == uid);
        if last {
            RoomV {
                sessions: sessions1,
                users: rv.users.remove(user_index(rv, uid)),
                log: rv.log.push(
                    EventV { seq: rv.log.len() as int, user_id: uid, body: EventBodyV::Left },
                ),
                ..rv
            }
        } else {
            RoomV { sessions: sessions1, ..rv }
        }
    }
}

/// The room state after a message is accepted: the event is appended
/// to the broadcast stream and to the history log, which evicts its
/// oldest entry when full.
pub open spec fn spec_post(rv: RoomV, uid: Seq<char>, content: Seq<char>) -> RoomV {
    let e = EventV {
        seq: rv.log.len() as int,
        user_id: uid,
        body: EventBodyV::Message { content },
    };
    RoomV {
        history: if rv.history.len() < rv.history_capacity {
            rv.history.push(e)
        } else {
            rv.history.push(e).drop_first()
        },
        log: rv.log.push(e),
        ..rv
    }
}

/// The room state after a history replay: the current history, in
/// stored order, is appended to the addressed session's unicast
/// outbox. Nothing reaches the broadcast stream.
pub open spec fn spec_replay(rv: RoomV, sid: Seq<char>) -> RoomV {
    if !has_session(rv, sid) {
        rv
    } else {
        let i = session_index(rv, sid);
        let s = rv.sessions[i];
        RoomV {
            sessions: rv.sessions.update(
                i,
                SessionV { outbox: s.outbox + rv.history, ..s },
            ),
            ..rv
        }
    }
}

/// The room state after a session's unicast outbox is read out.
pub open spec fn spec_drain(rv: RoomV, sid: Seq<char>) -> RoomV {
    if !has_session(rv, sid) {
        rv
    } else {
        let i = session_index(rv, sid);
        RoomV {
            sessions: rv.sessions.update(
                i,
                SessionV { outbox: Seq::empty(), ..rv.sessions[i] },
            ),
            ..rv
        }
    }
}

/// One poll step of a subscription against the room it reads from: the
/// next event in broadcast order; or a lag notice, with the cursor
/// moved forward past the dropped events, when the subscriber fell
/// more than the channel capacity behind; or nothing when it is caught
/// up.
pub open spec fn spec_poll(rv: RoomV, sv: SubscriptionV) -> (SubscriptionV, Option<RecvV>) {
    if sv.cursor == rv.log.len() {
        (sv, None::<RecvV>)
    } else if rv.log.len() - sv.cursor > rv.channel_capacity {
        let newcur = rv.log.len() - rv.channel_capacity;
        (
            SubscriptionV { cursor: newcur, ..sv },
            Some(RecvV::Lagged(newcur - sv.cursor)),
        )
    } else {
        (
            SubscriptionV { cursor: sv.cursor + 1, ..sv },
            Some(RecvV::Event(rv.log[sv.cursor])),
        )
    }
}

/// `spec_leave` preserves the room invariant.
pub proof fn lemma_leave_preserves_inv(rv: RoomV, sid: Seq<char>)
    requires
        rv.inv(),
    ensures
        spec_leave(rv, sid).inv(),
{
    if has_session(rv, sid) {
        let post = spec_leave(rv, sid);
        let i = session_index(rv, sid);
        assert(0 <= i < rv.sessions.len() && rv.sessions[i].session_id == sid);
        let uid = rv.sessions[i].user_id;
        let sessions1 = rv.sessions.remove(i);
        let last = !(exists|j: int| 0 <= j < sessions1.len() && sessions1[j].user_id == uid);
        assert(forall|k: int|
            0 <= k < sessions1.len() ==> #[trigger] sessions1[k] == (if k < i {
                rv.sessions[k]
            } else {
                rv.sessions[k + 1]
            }));
        if last {
            let k = user_index(rv, uid);
            assert(rv.users.contains(uid));
            assert(0 <= k < rv.users.len() && rv.users[k] == uid);
            let users1 = rv.users.remove(k);
            assert(forall|m: int|
                0 <= m < users1.len() ==> #[trigger] users1[m] == (if m < k {
                    rv.users[m]
                } else {
                    rv.users[m + 1]
                }));
            assert(post.users == users1);
            assert forall|m: int| 0 <= m < post.users.len() implies user_present(
                post,
                #[trigger] post.users[m],
            ) by {
                let u = post.users[m];
                let m0: int = if m < k {
                    m
                } else {
                    m + 1
                };
                assert(rv.users[m0] == u);
                assert(u != uid) by {
                    if m0 < k {
                        assert(rv.users[m0] != rv.users[k]);
                    } else {
                        assert(rv.users[k] != rv.users[m0]);
                    }
                }
                assert(user_present(rv, u));
                let w = choose|j: int|
                    0 <= j < rv.sessions.len() && rv.sessions[j].user_id == u;
                assert(w != i);
                let w1: int = if w < i {
                    w
                } else {
                    w - 1
                };
                assert(post.sessions[w1].user_id == u);
            }
            assert forall|j: int| 0 <= j < post.sessions.len() implies post.users.contains(
                #[trigger] post.sessions[j].user_id,
            ) by {
                let u = post.sessions[j].user_id;
                assert(u != uid);
                assert(rv.users.contains(u));
                let m = choose|m: int| 0 <= m < rv.users.len() && rv.users[m] == u;
                assert(m != k);
                let m1: int = if m < k {
                    m
                } else {
                    m - 1
                };
                assert(post.users[m1] == u);
            }
            assert(forall|x: int|
                0 <= x < post.log.len() ==> (#[trigger] post.log[x]).seq == x);
            assert(forall|x: int|
                0 <= x < post.history.len() ==> 0 <= (#[trigger] post.history[x]).seq
                    < post.log.len() && post.log[post.history[x].seq] == post.history[x]);
        } else {
            let w = choose|j: int| 0 <= j < sessions1.len() && sessions1[j].user_id == uid;
            assert forall|m: int| 0 <= m < post.users.len() implies user_present(
                post,
                #[trigger] post.users[m],
            ) by {
                let u = post.users[m];
                assert(user_present(rv, u));
                if u == uid {
                    assert(post.sessions[w].user_id == uid);
                } else {
                    let w0 = choose|j: int|
                        0 <= j < rv.sessions.len() && rv.sessions[j].user_id == u;
                    assert(w0 != i);
                    let w1: int = if w0 < i {
                        w0
                    } else {
                        w0 - 1
                    };
                    assert(post.sessions[w1].user_id == u);
                }
            }
        }
    }
}

/// `spec_post` preserves the room invariant.
pub proof fn lemma_post_preserves_inv(rv: RoomV, uid: Seq<char>, content: Seq<char>)
    requires
        rv.inv(),
    ensures
        spec_post(rv, uid, content).inv(),
{
    let post = spec_post(rv, uid, content);
    let e = EventV {
        seq: rv.log.len() as int,
        user_id: uid,
        body: EventBodyV::Message { content },
    };
    assert(post.log == rv.log.push(e));
    assert(forall|x: int| 0 <= x < post.log.len() ==> (#[trigger] post.log[x]).seq == x);
    assert forall|m: int| 0 <= m < post.users.len() implies user_present(
        post,
        #[trigger] post.users[m],
    ) by {
        assert(user_present(rv, rv.users[m]));
        let w = choose|j: int|
            0 <= j < rv.sessions.len() && rv.sessions[j].user_id == rv.users[m];
        assert(post.sessions[w].user_id == post.users[m]);
    }
    if rv.history.len() < rv.history_capacity {
        assert(forall|x: int|
            0 <= x < post.history.len() ==> 0 <= (#[trigger] post.history[x]).seq
                < post.log.len() && post.log[post.history[x].seq] == post.history[x]);
    } else {
        assert(post.history == rv.history.push(e).drop_first());
        assert(forall|x: int|
            0 <= x < post.history.len() ==> #[trigger] post.history[x] == rv.history.push(e)[x
                + 1]);
        assert(forall|x: int|
            0 <= x < post.history.len() ==> 0 <= (#[trigger] post.history[x]).seq
                < post.log.len() && post.log[post.history[x].seq] == post.history[x]);
    }
}

/// `spec_replay` preserves the room invariant.
pub proof fn lemma_replay_preserves_inv(rv: RoomV, sid: Seq<char>)
    requires
        rv.inv(),
    ensures
        spec_replay(rv, sid).inv(),
{
    if has_session(rv, sid) {
        let post = spec_replay(rv, sid);
        let i = session_index(rv, sid);
        assert(forall|k: int|
            0 <= k < post.sessions.len() ==> (#[trigger] post.sessions[k]).session_id
                == rv.sessions[k].session_id && post.sessions[k].user_id
                == rv.sessions[k].user_id);
        assert forall|m: int| 0 <= m < post.users.len() implies user_present(
            post,
            #[trigger] post.users[m],
        ) by {
            assert(user_present(rv, rv.users[m]));
            let w = choose|j: int|
                0 <= j < rv.sessions.len() && rv.sessions[j].user_id == rv.users[m];
            assert(post.sessions[w].user_id == post.users[m]);
        }
    }
}

/// `spec_drain` preserves the room invariant.
pub proof fn lemma_drain_preserves_inv(rv: RoomV, sid: Seq<char>)
    requires
        rv.inv(),
    ensures
        spec_drain(rv, sid).inv(),
{
    if has_session(rv, sid) {
        let post = spec_drain(rv, sid);
        let i = session_index(rv, sid);
        assert(forall|k: int|
            0 <= k < post.sessions.len() ==> (#[trigger] post.sessions[k]).session_id
                == rv.sessions[k].session_id && post.sessions[k].user_id
                == rv.sessions[k].user_id);
        assert forall|m: int| 0 <= m < post.users.len() implies user_present(
            post,
            #[trigger] post.users[m],
        ) by {
            assert(user_present(rv, rv.users[m]));
            let w = choose|j: int|
                0 <= j < rv.sessions.len() && rv.sessions[j].user_id == rv.users[m];
            assert(post.sessions[w].user_id == post.users[m]);
        }
    }
}


/// The unique-user set equals exactly the set of user ids with at
/// least one currently-joined session. This holds in every reachable
/// room state: it is part of the invariant that every operation
/// preserves, whatever sequence of joins and leaves produced the
/// state.
pub proof fn lemma_unique_users_exact(rv: RoomV)
    requires
        rv.inv(),
    ensures
        rv.user_id_set() =~= rv.session_user_set(),
{
    assert forall|u: Seq<char>| rv.user_id_set().contains(u) implies rv.session_user_set().contains(
        u,
    ) by {
        assert(rv.users.contains(u));
        let k = choose|k: int| 0 <= k < rv.users.len() && rv.users[k] == u;
        assert(user_present(rv, rv.users[k]));
    }
    assert forall|u: Seq<char>| rv.session_user_set().contains(u) implies rv.user_id_set().contains(
        u,
    ) by {
        assert(user_present(rv, u));
        let w = choose|j: int| 0 <= j < rv.sessions.len() && rv.sessions[j].user_id == u;
        assert(rv.users.contains(rv.sessions[w].user_id));
    }
}

/// `join` followed immediately by a history replay for the same
/// session delivers exactly the history accumulated before the join —
/// never an event broadcast after it, since those arrive through the
/// live subscription instead.
pub proof fn lemma_replay_after_join(rv: RoomV, sid: Seq<char>, uid: Seq<char>)
    requires
        rv.inv(),
        !has_session(rv, sid),
    ensures
        ({
            let r1 = spec_join(rv, sid, uid);
            let r2 = spec_replay(r1, sid);
            &&& has_session(r1, sid)
            &&& r1.history == rv.history
            &&& outbox_of(r2, sid) == rv.history
        }),
{
    let r1 = spec_join(rv, sid, uid);
    let n = rv.sessions.len() as int;
    assert(r1.sessions[n].session_id == sid);
    assert(has_session(r1, sid));
    lemma_join_preserves_inv(rv, sid, uid);
    lemma_session_index_unique(r1, sid, n);
    let r2 = spec_replay(r1, sid);
    assert(r2.sessions[n].session_id == sid);
    lemma_replay_preserves_inv(r1, sid);
    lemma_session_index_unique(r2, sid, n);
    assert(r1.sessions[n].outbox == Seq::<EventV>::empty());
    assert(outbox_of(r2, sid) == Seq::<EventV>::empty() + r1.history);
    assert(Seq::<EventV>::empty() + rv.history =~= rv.history);
}

/// The history log never exceeds its capacity, and a post to a full
/// log evicts exactly the oldest entry, which then appears nowhere in
/// the history a later replay would deliver.
pub proof fn lemma_post_at_capacity_evicts_oldest(rv: RoomV, uid: Seq<char>, content: Seq<char>)
    requires
        rv.inv(),
        rv.history.len() == rv.history_capacity,
        rv.history_capacity >= 1,
    ensures
        ({
            let r1 = spec_post(rv, uid, content);
            &&& r1.history.len() == rv.history_capacity
            &&& !r1.history.contains(rv.history[0])
        }),
{
    let r1 = spec_post(rv, uid, content);
    let e = EventV {
        seq: rv.log.len() as int,
        user_id: uid,
        body: EventBodyV::Message { content },
    };
    assert(r1.history == rv.history.push(e).drop_first());
    assert forall|m: int| 0 <= m < r1.history.len() implies #[trigger] r1.history[m]
        != rv.history[0] by {
        assert(r1.history[m] == rv.history.push(e)[m + 1]);
        if m < rv.history.len() - 1 {
            assert(r1.history[m] == rv.history[m + 1]);
            assert(rv.history[0].seq < rv.history[m + 1].seq);
        } else {
            assert(r1.history[m] == e);
            assert(rv.history[0].seq < rv.log.len() as int);
        }
    }
    if r1.history.contains(rv.history[0]) {
        let w = choose|w: int| 0 <= w < r1.history.len() && r1.history[w] == rv.history[0];
        assert(false);
    }
}

/// Every event broadcast before a join carries a sequence number
/// strictly below the start position of the subscription that the
/// join hands out. Together with `lemma_no_pre_join_events`, no event
/// broadcast strictly before a join is ever observed through the
/// join's subscription.
pub proof fn lemma_join_starts_past_all_prior_events(rv: RoomV, sid: Seq<char>, uid: Seq<char>)
    requires
        rv.inv(),
    ensures
        forall|i: int|
            0 <= i < rv.log.len() ==> (#[trigger] rv.log[i]).seq < spec_join(
                rv,
                sid,
                uid,
            ).log.len(),
{
}

/// A subscription created by `join` never observes an event broadcast
/// strictly before that join: polling only ever yields events whose
/// sequence number is at or past the subscription's start position,
/// which `join` fixed to the broadcast stream's length at join time,
/// and the cursor never moves backwards.
pub proof fn lemma_no_pre_join_events(rv: RoomV, sv: SubscriptionV)
    requires
        rv.inv(),
        sub_wf(rv, sv),
    ensures
        ({
            let (sv2, out) = spec_poll(rv, sv);
            &&& sv2.start == sv.start
            &&& sv2.cursor >= sv.cursor
            &&& (match out {
                Some(RecvV::Event(e)) => e.seq >= sv.start,
                _ => true,
            })
        }),
{
}


/// The events a sequence of posts `(user id, content)` produces when
/// the broadcast stream stands at position `base`.
pub open spec fn posted_events(base: int, msgs: Seq<(Seq<char>, Seq<char>)>) -> Seq<EventV> {
    Seq::new(
        msgs.len(),
        |m: int| EventV {
            seq: base + m,
            user_id: msgs[m].0,
            body: EventBodyV::Message { content: msgs[m].1 },
        },
    )
}

/// The room state after a whole sequence of posts.
pub open spec fn apply_posts(rv: RoomV, msgs: Seq<(Seq<char>, Seq<char>)>) -> RoomV
    decreases msgs.len(),
{
    if msgs.len() == 0 {
        rv
    } else {
        apply_posts(spec_post(rv, msgs[0].0, msgs[0].1), msgs.skip(1))
    }
}

/// What any sequence of posts does to a room: the broadcast stream
/// grows by exactly the posted events, and the history is the tail
/// that fits the capacity of the old history followed by the posted
/// events. Sessions and users are untouched.
pub proof fn lemma_apply_posts(rv: RoomV, msgs: Seq<(Seq<char>, Seq<char>)>)
    requires
        rv.inv(),
    ensures
        ({
            let r1 = apply_posts(rv, msgs);
            let all = rv.history + posted_events(rv.log.len() as int, msgs);
            let cut: int = if rv.history.len() + msgs.len() > rv.history_capacity {
                rv.history.len() + msgs.len() - rv.history_capacity
            } else {
                0
            };
            &&& r1.inv()
            &&& r1.history_capacity == rv.history_capacity
            &&& r1.channel_capacity == rv.channel_capacity
            &&& r1.name == rv.name
            &&& r1.sessions == rv.sessions
            &&& r1.users == rv.users
            &&& r1.log == rv.log + posted_events(rv.log.len() as int, msgs)
            &&& r1.history == all.skip(cut)
        }),
    decreases msgs.len(),
{
    let r1 = apply_posts(rv, msgs);
    let all = rv.history + posted_events(rv.log.len() as int, msgs);
    let cut: int = if rv.history.len() + msgs.len() > rv.history_capacity {
        rv.history.len() + msgs.len() - rv.history_capacity
    } else {
        0
    };
    if msgs.len() == 0 {
        assert(r1.log =~~= rv.log + posted_events(rv.log.len() as int, msgs));
        assert(r1.history =~~= all.skip(cut));
    } else {
        let e0 = EventV {
            seq: rv.log.len() as int,
            user_id: msgs[0].0,
            body: EventBodyV::Message { content: msgs[0].1 },
        };
        let r0 = spec_post(rv, msgs[0].0, msgs[0].1);
        lemma_post_preserves_inv(rv, msgs[0].0, msgs[0].1);
        lemma_apply_posts(r0, msgs.skip(1));
        let rest = msgs.skip(1);
        let all0 = r0.history + posted_events(r0.log.len() as int, rest);
        let cut0: int = if r0.history.len() + rest.len() > r0.history_capacity {
            r0.history.len() + rest.len() - r0.history_capacity
        } else {
            0
        };
        assert(r0.log == rv.log.push(e0));
        assert(posted_events(r0.log.len() as int, rest) =~~= posted_events(
            rv.log.len() as int,
            msgs,
        ).skip(1));
        assert(r1.log =~~= rv.log + posted_events(rv.log.len() as int, msgs));
        // the one post turns the old history into `all` cut at its own step
        if rv.history.len() < rv.history_capacity {
            assert(r0.history == rv.history.push(e0));
            assert(r0.history =~~= all.take(rv.history.len() as int + 1));
        } else {
            assert(r0.history == rv.history.push(e0).drop_first());
            assert(r0.history =~~= all.take(rv.history.len() as int + 1).skip(1));
        }
        assert(r1.history == all0.skip(cut0));
        assert(all0 =~~= (if rv.history.len() < rv.history_capacity {
            all
        } else {
            all.skip(1)
        }));
        assert(r1.history =~~= all.skip(cut));
    }
}

/// After more posts than the history capacity, the history holds
/// exactly the last `capacity` posts, in order: the oldest post of
/// the sequence has been evicted and appears in no subsequent replay.
/// In particular, after `N + 1` posts into a room with capacity `N`,
/// the first of those posts is absent.
pub proof fn lemma_posts_beyond_capacity_evict_oldest(rv: RoomV, msgs: Seq<(Seq<char>, Seq<char>)>)
    requires
        rv.inv(),
        rv.history_capacity >= 1,
        msgs.len() > rv.history_capacity,
    ensures
        ({
            let r1 = apply_posts(rv, msgs);
            let posted = posted_events(rv.log.len() as int, msgs);
            &&& r1.history.len() == rv.history_capacity
            &&& r1.history == posted.skip(msgs.len() - rv.history_capacity)
            &&& !r1.history.contains(posted[0])
        }),
{
    let r1 = apply_posts(rv, msgs);
    let posted = posted_events(rv.log.len() as int, msgs);
    lemma_apply_posts(rv, msgs);
    let all = rv.history + posted;
    let cut: int = rv.history.len() + msgs.len() - rv.history_capacity;
    assert(r1.history == all.skip(cut));
    assert(r1.history =~~= posted.skip(msgs.len() - rv.history_capacity));
    assert forall|m: int| 0 <= m < r1.history.len() implies #[trigger] r1.history[m]
        != posted[0] by {
        assert(r1.history[m] == posted[msgs.len() - rv.history_capacity + m]);
        assert(r1.history[m].seq == rv.log.len() as int + msgs.len() - rv.history_capacity + m);
        assert(posted[0].seq == rv.log.len() as int);
    }
    if r1.history.contains(posted[0]) {
        let w = choose|w: int| 0 <= w < r1.history.len() && r1.history[w] == posted[0];
        assert(false);
    }
}


} // verus!
