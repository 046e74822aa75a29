use chat_core::{
    ChatError, ChatRoom, ChatRoomMetadata, Event, EventBody, RoomManager, SessionAndUserId,
    Subscription, SubscriptionRecv,
};

fn meta(name: &str, description: &str) -> ChatRoomMetadata {
    ChatRoomMetadata { name: name.to_string(), description: description.to_string() }
}

fn manager_with(rooms: Vec<(&str, usize, usize)>) -> RoomManager {
    let mut pairs = Vec::new();
    for (name, history_capacity, channel_capacity) in rooms {
        pairs.push((
            meta(name, name),
            ChatRoom::new(name.to_string(), history_capacity, channel_capacity),
        ));
    }
    RoomManager::new(pairs)
}

fn ids(session_id: &str, user_id: &str) -> SessionAndUserId {
    SessionAndUserId { session_id: session_id.to_string(), user_id: user_id.to_string() }
}

fn message_content(event: &Event) -> &str {
    match &event.body {
        EventBody::Message { content } => content.as_str(),
        _ => panic!("expected a chat message event"),
    }
}

fn poll(manager: &RoomManager, subscription: &mut Subscription) -> Option<SubscriptionRecv> {
    manager.poll_subscription(subscription).expect("subscription names a known room")
}

fn next_message(manager: &RoomManager, subscription: &mut Subscription) -> Event {
    match poll(manager, subscription) {
        Some(SubscriptionRecv::Event(event)) => event,
        other => panic!("expected a live event, got {:?}", other.is_some()),
    }
}

#[test]
fn lobby_scenario() {
    let mut manager = manager_with(vec![("lobby", 3, 16)]);

    let (mut sub_a, _handle_a, snapshot_a) =
        manager.join_room("lobby", &ids("session-a", "alice")).unwrap();
    assert_eq!(snapshot_a, vec!["alice".to_string()]);

    manager.handle_message("lobby", "alice".to_string(), "hi".to_string()).unwrap();
    manager.handle_message("lobby", "alice".to_string(), "there".to_string()).unwrap();

    let (mut sub_b, _handle_b, snapshot_b) =
        manager.join_room("lobby", &ids("session-b", "alice")).unwrap();
    assert_eq!(snapshot_b, vec!["alice".to_string()]);
    assert!(poll(&manager, &mut sub_b).is_none(), "B's live subscription shows nothing yet");

    manager.get_room_history("lobby", "session-b").unwrap();
    let replayed = manager.drain_unicast("lobby", "session-b").unwrap();
    let contents: Vec<&str> = replayed.iter().map(message_content).collect();
    assert_eq!(contents, vec!["hi", "there"]);

    manager.handle_message("lobby", "alice".to_string(), "again".to_string()).unwrap();

    let a_first = next_message(&manager, &mut sub_a);
    let a_second = next_message(&manager, &mut sub_a);
    let a_third = next_message(&manager, &mut sub_a);
    assert_eq!(message_content(&a_first), "hi");
    assert_eq!(message_content(&a_second), "there");
    assert_eq!(message_content(&a_third), "again");
    assert!(poll(&manager, &mut sub_a).is_none());

    let b_live = next_message(&manager, &mut sub_b);
    assert_eq!(message_content(&b_live), "again");
    assert!(poll(&manager, &mut sub_b).is_none());
}

#[test]
fn unknown_room_is_room_not_found() {
    let mut manager = manager_with(vec![("lobby", 3, 16)]);
    let outcome = manager.join_room("unknown-room", &ids("s", "u"));
    assert!(matches!(outcome, Err(ChatError::RoomNotFound)));
    assert!(matches!(
        manager.handle_message("unknown-room", "u".to_string(), "hi".to_string()),
        Err(ChatError::RoomNotFound)
    ));
    assert!(matches!(
        manager.get_room_history("unknown-room", "s"),
        Err(ChatError::RoomNotFound)
    ));
}

#[test]
fn unknown_session_is_session_not_found() {
    let mut manager = manager_with(vec![("lobby", 3, 16)]);
    manager.join_room("lobby", &ids("session-a", "alice")).unwrap();
    assert!(matches!(
        manager.get_room_history("lobby", "nonexistent-session"),
        Err(ChatError::SessionNotFound)
    ));
    assert!(matches!(
        manager.drain_unicast("lobby", "nonexistent-session"),
        Err(ChatError::SessionNotFound)
    ));
}

#[test]
fn history_is_bounded_and_evicts_oldest() {
    let mut manager = manager_with(vec![("lobby", 3, 16)]);
    manager.join_room("lobby", &ids("session-a", "alice")).unwrap();
    for text in ["one", "two", "three", "four"] {
        manager.handle_message("lobby", "alice".to_string(), text.to_string()).unwrap();
    }
    manager.get_room_history("lobby", "session-a").unwrap();
    let replayed = manager.drain_unicast("lobby", "session-a").unwrap();
    let contents: Vec<&str> = replayed.iter().map(message_content).collect();
    assert_eq!(contents, vec!["two", "three", "four"], "oldest post is gone, order kept");
}

#[test]
fn unique_users_follow_sessions() {
    let mut manager = manager_with(vec![("lobby", 3, 16)]);

    let (_, handle_a1, snapshot) = manager.join_room("lobby", &ids("a1", "alice")).unwrap();
    assert_eq!(snapshot, vec!["alice".to_string()]);

    let (_, _handle_a2, snapshot) = manager.join_room("lobby", &ids("a2", "alice")).unwrap();
    assert_eq!(snapshot, vec!["alice".to_string()], "second device adds no duplicate");

    let (_, handle_b, snapshot) = manager.join_room("lobby", &ids("b1", "bob")).unwrap();
    assert_eq!(snapshot, vec!["alice".to_string(), "bob".to_string()]);

    manager.drop_user_session_handle(handle_a1).unwrap();
    let (_, _, snapshot) = manager.join_room("lobby", &ids("c1", "carol")).unwrap();
    assert_eq!(
        snapshot,
        vec!["alice".to_string(), "bob".to_string(), "carol".to_string()],
        "alice still present through her second session"
    );

    manager.drop_user_session_handle(handle_b).unwrap();
    let (_, _, snapshot) = manager.join_room("lobby", &ids("d1", "dave")).unwrap();
    assert_eq!(
        snapshot,
        vec!["alice".to_string(), "carol".to_string(), "dave".to_string()],
        "bob left with his last session"
    );
}

#[test]
fn join_and_leave_notices_follow_first_and_last_session() {
    let mut manager = manager_with(vec![("lobby", 3, 16)]);
    let (mut sub_a, _handle_a, _) = manager.join_room("lobby", &ids("a1", "alice")).unwrap();

    let (_, handle_b1, _) = manager.join_room("lobby", &ids("b1", "bob")).unwrap();
    let (_, handle_b2, _) = manager.join_room("lobby", &ids("b2", "bob")).unwrap();

    let joined = next_message_kind(&manager, &mut sub_a);
    assert!(matches!(joined.body, EventBody::Joined));
    assert_eq!(joined.user_id, "bob");
    assert!(poll(&manager, &mut sub_a).is_none(), "no duplicate notice for a second device");

    manager.drop_user_session_handle(handle_b1).unwrap();
    assert!(poll(&manager, &mut sub_a).is_none(), "no leave notice while a session remains");

    manager.drop_user_session_handle(handle_b2).unwrap();
    let left = next_message_kind(&manager, &mut sub_a);
    assert!(matches!(left.body, EventBody::Left));
    assert_eq!(left.user_id, "bob");
}

fn next_message_kind(manager: &RoomManager, subscription: &mut Subscription) -> Event {
    match poll(manager, subscription) {
        Some(SubscriptionRecv::Event(event)) => event,
        _ => panic!("expected a live event"),
    }
}

#[test]
fn rooms_are_isolated() {
    let mut manager = manager_with(vec![("alpha", 3, 16), ("beta", 3, 16)]);
    let (mut sub_a, _, _) = manager.join_room("alpha", &ids("a1", "alice")).unwrap();
    let (mut sub_b, _, _) = manager.join_room("beta", &ids("b1", "bob")).unwrap();

    manager.handle_message("alpha", "alice".to_string(), "alpha only".to_string()).unwrap();

    assert!(poll(&manager, &mut sub_b).is_none(), "beta's session observes nothing");
    let seen = next_message(&manager, &mut sub_a);
    assert_eq!(message_content(&seen), "alpha only");

    manager.get_room_history("beta", "b1").unwrap();
    let replayed = manager.drain_unicast("beta", "b1").unwrap();
    assert!(replayed.is_empty(), "beta's history holds nothing of alpha's traffic");
}

#[test]
fn subscription_never_sees_events_before_join() {
    let mut manager = manager_with(vec![("lobby", 8, 16)]);
    manager.handle_message("lobby", "alice".to_string(), "before".to_string()).unwrap();
    let (mut sub, _, _) = manager.join_room("lobby", &ids("s1", "bob")).unwrap();
    assert!(poll(&manager, &mut sub).is_none(), "nothing broadcast before the join is seen");
    manager.handle_message("lobby", "alice".to_string(), "after".to_string()).unwrap();
    assert_eq!(message_content(&next_message(&manager, &mut sub)), "after");
}

#[test]
fn replay_right_after_join_returns_pre_join_history() {
    let mut manager = manager_with(vec![("lobby", 8, 16)]);
    manager.handle_message("lobby", "alice".to_string(), "m1".to_string()).unwrap();
    manager.handle_message("lobby", "alice".to_string(), "m2".to_string()).unwrap();
    manager.join_room("lobby", &ids("s1", "bob")).unwrap();
    manager.get_room_history("lobby", "s1").unwrap();
    manager.handle_message("lobby", "alice".to_string(), "m3".to_string()).unwrap();
    let replayed = manager.drain_unicast("lobby", "s1").unwrap();
    let contents: Vec<&str> = replayed.iter().map(message_content).collect();
    assert_eq!(contents, vec!["m1", "m2"], "exactly the history accumulated before the join");
}

#[test]
fn empty_history_replays_empty() {
    let mut manager = manager_with(vec![("lobby", 3, 16)]);
    manager.join_room("lobby", &ids("s1", "alice")).unwrap();
    manager.get_room_history("lobby", "s1").unwrap();
    let replayed = manager.drain_unicast("lobby", "s1").unwrap();
    assert!(replayed.is_empty());
}

#[test]
fn slow_subscriber_lags_and_resynchronizes() {
    let mut manager = manager_with(vec![("lobby", 8, 2)]);
    let (mut sub, _, _) = manager.join_room("lobby", &ids("s1", "alice")).unwrap();
    for text in ["m1", "m2", "m3", "m4", "m5"] {
        manager.handle_message("lobby", "alice".to_string(), text.to_string()).unwrap();
    }
    match poll(&manager, &mut sub) {
        Some(SubscriptionRecv::Lagged(missed)) => assert_eq!(missed, 3),
        _ => panic!("expected a lag notice"),
    }
    assert_eq!(message_content(&next_message(&manager, &mut sub)), "m4");
    assert_eq!(message_content(&next_message(&manager, &mut sub)), "m5");
    assert!(poll(&manager, &mut sub).is_none());
}

#[test]
fn stale_leave_is_surfaced() {
    let mut manager = manager_with(vec![("lobby", 3, 16)]);
    let (_, handle, _) = manager.join_room("lobby", &ids("s1", "alice")).unwrap();
    let stale = handle.duplicate();
    manager.drop_user_session_handle(handle).unwrap();
    assert!(matches!(
        manager.drop_user_session_handle(stale),
        Err(ChatError::SessionNotFound)
    ));
}

#[test]
fn posting_needs_no_session() {
    let mut manager = manager_with(vec![("lobby", 3, 16)]);
    manager.join_room("lobby", &ids("s1", "alice")).unwrap();
    manager.handle_message("lobby", "stranger".to_string(), "hello".to_string()).unwrap();
    manager.get_room_history("lobby", "s1").unwrap();
    let replayed = manager.drain_unicast("lobby", "s1").unwrap();
    assert_eq!(replayed.len(), 1);
    assert_eq!(replayed[0].user_id, "stranger");
    assert_eq!(message_content(&replayed[0]), "hello");
}

#[test]
fn metadata_lists_all_rooms() {
    let manager = manager_with(vec![("alpha", 3, 16), ("beta", 4, 16)]);
    let listing = manager.chat_room_metadata();
    let names: Vec<&str> = listing.iter().map(|m| m.name.as_str()).collect();
    assert_eq!(names, vec!["alpha", "beta"]);
}

#[test]
fn sequence_numbers_increase_and_detect_gaps() {
    let mut manager = manager_with(vec![("lobby", 8, 2)]);
    let (mut sub, _, _) = manager.join_room("lobby", &ids("s1", "alice")).unwrap();
    for text in ["m1", "m2", "m3", "m4"] {
        manager.handle_message("lobby", "alice".to_string(), text.to_string()).unwrap();
    }
    let missed = match poll(&manager, &mut sub) {
        Some(SubscriptionRecv::Lagged(missed)) => missed,
        _ => panic!("expected a lag notice"),
    };
    assert_eq!(missed, 2);
    let first_seen = next_message(&manager, &mut sub);
    let second_seen = next_message(&manager, &mut sub);
    assert_eq!(second_seen.seq, first_seen.seq + 1, "delivered in order without reordering");
}

#[test]
fn drained_outbox_stays_empty_until_next_replay() {
    let mut manager = manager_with(vec![("lobby", 3, 16)]);
    manager.join_room("lobby", &ids("s1", "alice")).unwrap();
    manager.handle_message("lobby", "alice".to_string(), "hi".to_string()).unwrap();
    manager.get_room_history("lobby", "s1").unwrap();
    let first = manager.drain_unicast("lobby", "s1").unwrap();
    assert_eq!(first.len(), 1);
    let second = manager.drain_unicast("lobby", "s1").unwrap();
    assert!(second.is_empty(), "the outbox was read out");
    manager.get_room_history("lobby", "s1").unwrap();
    manager.get_room_history("lobby", "s1").unwrap();
    let doubled = manager.drain_unicast("lobby", "s1").unwrap();
    assert_eq!(doubled.len(), 2, "each replay appends the whole current history");
}
