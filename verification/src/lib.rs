//! Session-routing and fan-out core of a multi-room chat service.
//!
//! A fixed directory of named rooms lets client sessions join a room,
//! receive all subsequent events for that room through a live
//! subscription, post messages, leave, and re-synchronize on demand by
//! replaying the room's bounded history through a per-session unicast
//! outbox.

mod event;
mod manager;
mod room;

pub use event::{ChatError, Event, EventBody, EventBodyV, EventV};
pub use manager::{
    has_room, lemma_room_index_unique, lemma_room_isolation, lemma_updated_manager_inv,
    room_index, ChatRoomMetadata, ManagerV, MetadataV, RoomJoinResult, RoomManager,
};
pub use room::{
    apply_posts, has_session, lemma_apply_posts, lemma_drain_preserves_inv, lemma_join_preserves_inv,
    lemma_join_starts_past_all_prior_events, lemma_leave_preserves_inv, lemma_no_pre_join_events,
    lemma_post_at_capacity_evicts_oldest, lemma_post_preserves_inv,
    lemma_posts_beyond_capacity_evict_oldest, lemma_replay_after_join,
    lemma_replay_preserves_inv, lemma_session_index_unique, lemma_unique_users_exact,
    lemma_user_index_unique, outbox_of, session_index, spec_drain, spec_join, spec_leave,
    posted_events, spec_poll, spec_post, spec_replay, sub_wf, user_index, user_present, ChatRoom, HandleV, RecvV,
    RoomV, SessionAndUserId, SessionRecord, SessionV, Subscription, SubscriptionRecv,
    SubscriptionV, UserSessionHandle,
};
