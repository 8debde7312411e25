use bevy_realtime::channel::{Channel, ChannelBuilder};
use bevy_realtime::channel_model::PresenceEvent;
use bevy_realtime::dispatch::HostEvent;
use bevy_realtime::json::{Json, Member};
use bevy_realtime::message::{
    BroadcastConfig, JoinPayload, Outbound, PostgresChangeFilter, PostgresChangesEvent,
    PostgresSubscription, PresenceConfig, ReplyStatus, ServerEvent,
};
use bevy_realtime::presence::{PresenceDiff, PresenceMeta, PresenceState};
use bevy_realtime::refs::RefAllocator;
use bevy_realtime::status::{ChannelError, ChannelState, RequestError};
use bevy_realtime::wire::Message;

fn obj(members: &[(&str, Json)]) -> Json {
    Json::Object(members.iter().map(|(k, v)| Member { key: k.to_string(), value: v.clone() }).collect())
}

fn text(s: &str) -> Json {
    Json::Text(s.to_string())
}

fn num(n: u64) -> Json {
    Json::Number(n.to_string())
}

fn meta(r: &str) -> PresenceMeta {
    PresenceMeta { phx_ref: r.to_string(), payload: obj(&[("phx_ref", text(r))]) }
}

fn state(entries: &[(&str, &[&str])]) -> PresenceState {
    let mut s = PresenceState::new();
    for (key, refs) in entries {
        for r in refs.iter() {
            assert!(s.track(key, meta(r)));
        }
    }
    s
}

fn reply(reference: u64, status: ReplyStatus, ids: Vec<u64>) -> ServerEvent {
    ServerEvent::Reply { reference, status, response: Json::Object(Vec::new()), postgres_ids: ids }
}

fn join(channel: &mut Channel, refs: &mut RefAllocator, ids: Vec<u64>) -> u64 {
    let reference = match channel.subscribe(refs, 0).unwrap() {
        Outbound::Join { reference, .. } => reference,
        other => panic!("no join: {:?}", other),
    };
    assert_eq!(channel.state(), ChannelState::Joining);
    assert!(channel.receive(reply(reference, ReplyStatus::Accepted, ids)).is_empty());
    assert_eq!(channel.state(), ChannelState::Joined);
    reference
}

fn filter(table: &str) -> PostgresChangeFilter {
    PostgresChangeFilter { schema: "public".to_string(), table: Some(table.to_string()), filter: None }
}

#[test]
fn new_channel_is_closed_and_empty() {
    let channel = Channel::new("room");
    assert_eq!(channel.topic(), "room");
    assert_eq!(channel.state(), ChannelState::Closed);
    assert_eq!(channel.pending_len(), 0);
    assert!(channel.presence().is_empty());
    assert_eq!(channel.postgres_id(0), None);
}

#[test]
fn subscribe_sends_a_join_with_the_configuration_and_a_fresh_ref() {
    let mut refs = RefAllocator::new();
    let mut channel = ChannelBuilder::new()
        .topic("test")
        .set_broadcast_config(BroadcastConfig { broadcast_self: true, ack: false })
        .set_presence_config(PresenceConfig { key: Some("TestPresKey".to_string()) })
        .set_access_token("token")
        .on_postgres_change(PostgresChangesEvent::All, filter("todos"), 9)
        .build();
    let frame = channel.subscribe(&mut refs, 5).unwrap();
    assert_eq!(
        frame,
        Outbound::Join {
            topic: "test".to_string(),
            reference: 1,
            payload: JoinPayload {
                broadcast: BroadcastConfig { broadcast_self: true, ack: false },
                presence_key: Some("TestPresKey".to_string()),
                postgres_changes: vec![PostgresSubscription {
                    event: PostgresChangesEvent::All,
                    filter: filter("todos"),
                }],
                access_token: Some("token".to_string()),
            },
        }
    );
    assert_eq!(channel.state(), ChannelState::Joining);
    assert_eq!(channel.pending_len(), 1);
    assert_eq!(refs.peek(), 2);
}

#[test]
fn joining_twice_is_rejected_and_sends_nothing() {
    let mut refs = RefAllocator::new();
    let mut channel = Channel::new("test");
    channel.subscribe(&mut refs, 0).unwrap();
    assert_eq!(
        channel.subscribe(&mut refs, 0),
        Err(RequestError::InvalidState(ChannelState::Joining))
    );
    assert_eq!(refs.peek(), 2);
    assert_eq!(channel.pending_len(), 1);
    assert!(channel.receive(reply(1, ReplyStatus::Accepted, Vec::new())).is_empty());
    assert_eq!(
        channel.subscribe(&mut refs, 0),
        Err(RequestError::InvalidState(ChannelState::Joined))
    );
    assert_eq!(refs.peek(), 2);
    assert_eq!(channel.state(), ChannelState::Joined);
}

#[test]
fn joining_after_a_completed_leave_uses_a_fresh_ref() {
    let mut refs = RefAllocator::new();
    let mut channel = Channel::new("test");
    let first = join(&mut channel, &mut refs, Vec::new());
    let leave = match channel.unsubscribe(&mut refs, 1).unwrap() {
        Outbound::Leave { topic, reference } => {
            assert_eq!(topic, "test");
            reference
        }
        other => panic!("no leave: {:?}", other),
    };
    assert_eq!(channel.state(), ChannelState::Leaving);
    assert_eq!(
        channel.subscribe(&mut refs, 1),
        Err(RequestError::InvalidState(ChannelState::Leaving))
    );
    assert!(channel.receive(reply(leave, ReplyStatus::Accepted, Vec::new())).is_empty());
    assert_eq!(channel.state(), ChannelState::Closed);
    let second = match channel.subscribe(&mut refs, 2).unwrap() {
        Outbound::Join { reference, .. } => reference,
        other => panic!("no join: {:?}", other),
    };
    assert!(second != first && second != leave);
    assert_eq!((first, leave, second), (1, 2, 3));
    assert_eq!(channel.state(), ChannelState::Joining);
}

#[test]
fn unsubscribe_needs_a_joined_or_joining_channel() {
    let mut refs = RefAllocator::new();
    let mut channel = Channel::new("test");
    assert_eq!(
        channel.unsubscribe(&mut refs, 0),
        Err(RequestError::InvalidState(ChannelState::Closed))
    );
    channel.subscribe(&mut refs, 0).unwrap();
    assert!(channel.unsubscribe(&mut refs, 0).is_ok());
    assert_eq!(channel.state(), ChannelState::Leaving);
    assert_eq!(channel.pending_len(), 1);
    // the reply to the join that was cancelled is dropped
    assert!(channel.receive(reply(1, ReplyStatus::Accepted, Vec::new())).is_empty());
    assert_eq!(channel.state(), ChannelState::Leaving);
}

#[test]
fn rejected_join_ends_in_errored_and_reaches_the_error_callback() {
    let mut refs = RefAllocator::new();
    let mut channel = ChannelBuilder::new().topic("test").on_error(42).build();
    channel.subscribe(&mut refs, 0).unwrap();
    let response = obj(&[("reason", text("unauthorized"))]);
    let out = channel.receive(ServerEvent::Reply {
        reference: 1,
        status: ReplyStatus::Rejected,
        response: response.clone(),
        postgres_ids: Vec::new(),
    });
    assert_eq!(out.len(), 1);
    match &out[0] {
        HostEvent::ChannelFailed { callback, error } => {
            assert_eq!(*callback, 42);
            assert_eq!(*error, ChannelError::JoinRejected(response));
        }
        other => panic!("unexpected {:?}", other),
    }
    assert_eq!(channel.state(), ChannelState::Errored);
    assert_eq!(channel.pending_len(), 0);
    // the host may join again
    assert!(channel.subscribe(&mut refs, 0).is_ok());
}

#[test]
fn rejected_join_without_error_callback_delivers_nothing() {
    let mut refs = RefAllocator::new();
    let mut channel = Channel::new("test");
    channel.subscribe(&mut refs, 0).unwrap();
    assert!(channel.receive(reply(1, ReplyStatus::Rejected, Vec::new())).is_empty());
    assert_eq!(channel.state(), ChannelState::Errored);
}

#[test]
fn reply_with_an_unknown_ref_is_dropped() {
    let mut refs = RefAllocator::new();
    let mut channel = Channel::new("test");
    channel.subscribe(&mut refs, 0).unwrap();
    assert!(channel.receive(reply(77, ReplyStatus::Accepted, vec![1])).is_empty());
    assert_eq!(channel.state(), ChannelState::Joining);
    assert_eq!(channel.pending_len(), 1);
}

#[test]
fn broadcast_self_echo_reaches_the_binding_exactly_once() {
    let mut refs = RefAllocator::new();
    let mut channel = ChannelBuilder::new()
        .topic("test")
        .set_broadcast_config(BroadcastConfig { broadcast_self: true, ack: false })
        .on_broadcast("test", 7)
        .on_broadcast("other", 8)
        .build();
    join(&mut channel, &mut refs, Vec::new());
    let payload = obj(&[("bevy?", text("bavy."))]);
    let sent = channel.broadcast(&mut refs, "test", payload.clone(), None, 0).unwrap();
    assert_eq!(
        sent,
        Outbound::Broadcast {
            topic: "test".to_string(),
            reference: None,
            event: "test".to_string(),
            payload: payload.clone(),
        }
    );
    assert_eq!(channel.pending_len(), 0);
    // the server sends the frame back as it would to any subscriber
    let frame = Message::from_json(&sent.to_message().to_json()).unwrap();
    let echo = frame.to_inbound().unwrap();
    assert_eq!(echo.topic, "test");
    let out = channel.receive(echo.event);
    assert_eq!(out.len(), 1);
    match &out[0] {
        HostEvent::Broadcast { callback, payload: got } => {
            assert_eq!(*callback, 7);
            assert_eq!(*got, payload);
        }
        other => panic!("unexpected {:?}", other),
    }
}

#[test]
fn broadcast_matches_event_names_exactly_and_in_registration_order() {
    let mut refs = RefAllocator::new();
    let mut channel = ChannelBuilder::new()
        .topic("t")
        .on_broadcast("a", 1)
        .on_broadcast("b", 2)
        .on_broadcast("a", 3)
        .on_broadcast("A", 4)
        .build();
    join(&mut channel, &mut refs, Vec::new());
    let out = channel.receive(ServerEvent::Broadcast { event: "a".to_string(), payload: Json::Null });
    let callbacks: Vec<u64> = out
        .iter()
        .map(|e| match e {
            HostEvent::Broadcast { callback, .. } => *callback,
            other => panic!("unexpected {:?}", other),
        })
        .collect();
    assert_eq!(callbacks, vec![1, 3]);
    let out = channel.receive(ServerEvent::Broadcast { event: "nobody".to_string(), payload: Json::Null });
    assert!(out.is_empty());
}

#[test]
fn broadcast_needs_a_joined_channel() {
    let mut refs = RefAllocator::new();
    let mut channel = Channel::new("t");
    assert_eq!(
        channel.broadcast(&mut refs, "e", Json::Null, None, 0),
        Err(RequestError::InvalidState(ChannelState::Closed))
    );
    channel.subscribe(&mut refs, 0).unwrap();
    assert_eq!(
        channel.broadcast(&mut refs, "e", Json::Null, None, 0),
        Err(RequestError::InvalidState(ChannelState::Joining))
    );
    assert_eq!(channel.track_presence(Json::Null), Err(RequestError::InvalidState(ChannelState::Joining)));
    assert_eq!(channel.untrack_presence(), Err(RequestError::InvalidState(ChannelState::Joining)));
}

#[test]
fn broadcast_with_ack_waits_for_its_reply() {
    let mut refs = RefAllocator::new();
    let mut channel = ChannelBuilder::new()
        .topic("t")
        .set_broadcast_config(BroadcastConfig { broadcast_self: false, ack: true })
        .build();
    join(&mut channel, &mut refs, Vec::new());
    let first = channel.broadcast(&mut refs, "e", Json::Null, Some(11), 3).unwrap();
    let second = channel.broadcast(&mut refs, "e", Json::Null, None, 4).unwrap();
    let (r1, r2) = match (first, second) {
        (
            Outbound::Broadcast { reference: Some(a), .. },
            Outbound::Broadcast { reference: Some(b), .. },
        ) => (a, b),
        other => panic!("unexpected {:?}", other),
    };
    assert_eq!((r1, r2), (2, 3));
    assert_eq!(channel.pending_len(), 2);
    let out = channel.receive(reply(r2, ReplyStatus::Accepted, Vec::new()));
    assert!(out.is_empty());
    assert_eq!(channel.pending_len(), 1);
    let out = channel.receive(reply(r1, ReplyStatus::Accepted, Vec::new()));
    assert_eq!(out.len(), 1);
    match &out[0] {
        HostEvent::Reply { callback, status, .. } => {
            assert_eq!(*callback, 11);
            assert_eq!(*status, ReplyStatus::Accepted);
        }
        other => panic!("unexpected {:?}", other),
    }
    assert_eq!(channel.pending_len(), 0);
    // a second reply with the same ref matches nothing
    assert!(channel.receive(reply(r1, ReplyStatus::Accepted, Vec::new())).is_empty());
    assert_eq!(channel.state(), ChannelState::Joined);
}

#[test]
fn join_ack_assigns_indices_in_registration_order_and_changes_route_by_index() {
    let mut refs = RefAllocator::new();
    let mut builder = ChannelBuilder::new().topic("table_inserts");
    for (i, table) in ["one", "two", "three", "four", "five"].iter().enumerate() {
        builder = builder.on_postgres_change(PostgresChangesEvent::All, filter(table), i as u64 + 1);
    }
    let mut channel = builder.build();
    let join_frame = channel.subscribe(&mut refs, 0).unwrap();
    let reference = match join_frame {
        Outbound::Join { reference, .. } => reference,
        other => panic!("unexpected {:?}", other),
    };
    let items: Vec<Json> = (0..5u64)
        .map(|id| obj(&[("id", num(id)), ("event", text("*")), ("schema", text("public"))]))
        .collect();
    let ack = Message {
        topic: "table_inserts".to_string(),
        event: "phx_reply".to_string(),
        payload: obj(&[
            ("status", text("ok")),
            ("response", obj(&[("postgres_changes", Json::Array(items))])),
        ]),
        reference: Some(reference),
    };
    assert!(channel.receive(ack.to_inbound().unwrap().event).is_empty());
    assert_eq!(channel.state(), ChannelState::Joined);
    for i in 0..5usize {
        assert_eq!(channel.postgres_id(i), Some(i as u64));
    }
    assert_eq!(channel.postgres_id(5), None);

    let data = obj(&[("table", text("three")), ("type", text("INSERT"))]);
    let change = Message {
        topic: "table_inserts".to_string(),
        event: "postgres_changes".to_string(),
        payload: obj(&[("ids", Json::Array(vec![num(2)])), ("data", data.clone())]),
        reference: None,
    };
    let out = channel.receive(change.to_inbound().unwrap().event);
    assert_eq!(out.len(), 1);
    match &out[0] {
        HostEvent::PostgresChanges { callback, payload } => {
            assert_eq!(*callback, 3);
            assert_eq!(*payload, data);
        }
        other => panic!("unexpected {:?}", other),
    }
    let out = channel.receive(ServerEvent::PostgresChanges { ids: vec![9], data: Json::Null });
    assert!(out.is_empty());
    let out = channel.receive(ServerEvent::PostgresChanges { ids: vec![4, 0], data: Json::Null });
    let callbacks: Vec<u64> = out
        .iter()
        .map(|e| match e {
            HostEvent::PostgresChanges { callback, .. } => *callback,
            other => panic!("unexpected {:?}", other),
        })
        .collect();
    assert_eq!(callbacks, vec![1, 5]);
}

#[test]
fn fewer_indices_than_bindings_leave_the_rest_unassigned() {
    let mut refs = RefAllocator::new();
    let mut channel = ChannelBuilder::new()
        .topic("t")
        .on_postgres_change(PostgresChangesEvent::Insert, filter("a"), 1)
        .on_postgres_change(PostgresChangesEvent::Delete, filter("b"), 2)
        .build();
    join(&mut channel, &mut refs, vec![50]);
    assert_eq!(channel.postgres_id(0), Some(50));
    assert_eq!(channel.postgres_id(1), None);
    // leaving forgets the indices
    let leave = match channel.unsubscribe(&mut refs, 0).unwrap() {
        Outbound::Leave { reference, .. } => reference,
        other => panic!("unexpected {:?}", other),
    };
    channel.receive(reply(leave, ReplyStatus::Accepted, Vec::new()));
    assert_eq!(channel.postgres_id(0), None);
}

#[test]
fn presence_state_replaces_the_state_and_reaches_sync_bindings() {
    let mut refs = RefAllocator::new();
    let mut channel = ChannelBuilder::new()
        .topic("t")
        .on_presence(PresenceEvent::Sync, 5)
        .on_presence(PresenceEvent::Join, 6)
        .build();
    join(&mut channel, &mut refs, Vec::new());
    let out = channel.receive(ServerEvent::PresenceState(state(&[("u1", &["r1"]), ("u2", &["r2"])])));
    assert_eq!(out.len(), 1);
    match &out[0] {
        HostEvent::PresenceSync { callback, state } => {
            assert_eq!(*callback, 5);
            assert_eq!(state.len(), 2);
        }
        other => panic!("unexpected {:?}", other),
    }
    assert_eq!(channel.presence().len(), 2);
    let out = channel.receive(ServerEvent::PresenceState(state(&[("u3", &["r3"])])));
    assert_eq!(out.len(), 1);
    assert_eq!(channel.presence().len(), 1);
    assert_eq!(channel.presence().get("u3"), Some(&vec![meta("r3")]));
    assert_eq!(channel.presence().get("u1"), None);
}

#[test]
fn presence_diff_is_merged_and_delivered_per_key() {
    let mut refs = RefAllocator::new();
    let mut channel = ChannelBuilder::new()
        .topic("t")
        .on_presence(PresenceEvent::Join, 1)
        .on_presence(PresenceEvent::Leave, 2)
        .on_presence(PresenceEvent::Sync, 3)
        .build();
    join(&mut channel, &mut refs, Vec::new());
    channel.receive(ServerEvent::PresenceState(state(&[("u1", &["r1"])])));
    let diff = PresenceDiff { joins: state(&[("u1", &["r2"])]), leaves: PresenceState::new() };
    let out = channel.receive(ServerEvent::PresenceDiff(diff));
    assert_eq!(out.len(), 2);
    match &out[0] {
        HostEvent::PresenceJoin { callback, key, previous, current } => {
            assert_eq!(*callback, 1);
            assert_eq!(key, "u1");
            assert_eq!(*previous, vec![meta("r1")]);
            assert_eq!(*current, vec![meta("r1"), meta("r2")]);
        }
        other => panic!("unexpected {:?}", other),
    }
    match &out[1] {
        HostEvent::PresenceSync { callback, state } => {
            assert_eq!(*callback, 3);
            assert_eq!(state.get("u1"), Some(&vec![meta("r1"), meta("r2")]));
        }
        other => panic!("unexpected {:?}", other),
    }
    let diff = PresenceDiff {
        joins: PresenceState::new(),
        leaves: state(&[("u1", &["r1", "r2"])]),
    };
    let out = channel.receive(ServerEvent::PresenceDiff(diff));
    assert_eq!(out.len(), 2);
    match &out[0] {
        HostEvent::PresenceLeave { callback, key, current, left } => {
            assert_eq!(*callback, 2);
            assert_eq!(key, "u1");
            assert!(current.is_empty());
            assert_eq!(*left, vec![meta("r1"), meta("r2")]);
        }
        other => panic!("unexpected {:?}", other),
    }
    assert!(channel.presence().is_empty());
}

#[test]
fn first_device_and_additional_device_can_be_told_apart() {
    let mut refs = RefAllocator::new();
    let mut channel = ChannelBuilder::new().topic("t").on_presence(PresenceEvent::Join, 1).build();
    join(&mut channel, &mut refs, Vec::new());
    let out = channel.receive(ServerEvent::PresenceDiff(PresenceDiff {
        joins: state(&[("u1", &["a"])]),
        leaves: PresenceState::new(),
    }));
    match &out[0] {
        HostEvent::PresenceJoin { previous, current, .. } => {
            assert!(previous.is_empty());
            assert_eq!(current.len(), 1);
        }
        other => panic!("unexpected {:?}", other),
    }
    let out = channel.receive(ServerEvent::PresenceDiff(PresenceDiff {
        joins: state(&[("u1", &["b"])]),
        leaves: PresenceState::new(),
    }));
    match &out[0] {
        HostEvent::PresenceJoin { previous, current, .. } => {
            assert_eq!(previous.len(), 1);
            assert_eq!(current.len(), 2);
        }
        other => panic!("unexpected {:?}", other),
    }
}

#[test]
fn events_for_a_channel_that_is_not_joined_are_ignored() {
    let mut refs = RefAllocator::new();
    let mut channel = ChannelBuilder::new()
        .topic("t")
        .on_broadcast("e", 1)
        .on_presence(PresenceEvent::Sync, 2)
        .build();
    assert!(channel.receive(ServerEvent::Broadcast { event: "e".to_string(), payload: Json::Null }).is_empty());
    assert!(channel.receive(ServerEvent::PresenceState(state(&[("u", &["r"])]))).is_empty());
    assert!(channel.presence().is_empty());
    channel.subscribe(&mut refs, 0).unwrap();
    assert!(channel
        .receive(ServerEvent::PresenceDiff(PresenceDiff {
            joins: state(&[("u", &["r"])]),
            leaves: PresenceState::new(),
        }))
        .is_empty());
    assert!(channel.presence().is_empty());
    assert!(channel.receive(ServerEvent::PostgresChanges { ids: vec![1], data: Json::Null }).is_empty());
}

#[test]
fn server_error_takes_the_channel_to_errored() {
    let mut refs = RefAllocator::new();
    let mut channel = Channel::new("t");
    assert!(channel.receive(ServerEvent::Error).is_empty());
    assert_eq!(channel.state(), ChannelState::Closed);
    join(&mut channel, &mut refs, Vec::new());
    channel.receive(ServerEvent::PresenceState(state(&[("u", &["r"])])));
    assert!(channel.receive(ServerEvent::Error).is_empty());
    assert_eq!(channel.state(), ChannelState::Errored);
    assert!(channel.presence().is_empty());
}

#[test]
fn track_and_untrack_change_nothing_locally() {
    let mut refs = RefAllocator::new();
    let mut channel = Channel::new("t");
    join(&mut channel, &mut refs, Vec::new());
    let payload = obj(&[("Location", text("UK"))]);
    assert_eq!(
        channel.track_presence(payload.clone()),
        Ok(Outbound::Track { topic: "t".to_string(), payload })
    );
    assert_eq!(channel.untrack_presence(), Ok(Outbound::Untrack { topic: "t".to_string() }));
    assert!(channel.presence().is_empty());
    assert_eq!(channel.pending_len(), 0);
    assert_eq!(refs.peek(), 2);
}

#[test]
fn state_and_presence_snapshots_go_to_the_asking_callback() {
    let mut refs = RefAllocator::new();
    let mut channel = Channel::new("t");
    match channel.channel_state(4) {
        HostEvent::ChannelStatus { callback, state } => {
            assert_eq!(callback, 4);
            assert_eq!(state, ChannelState::Closed);
        }
        other => panic!("unexpected {:?}", other),
    }
    join(&mut channel, &mut refs, Vec::new());
    channel.receive(ServerEvent::PresenceState(state(&[("u", &["r"])])));
    match channel.presence_state(5) {
        HostEvent::PresenceSnapshot { callback, state } => {
            assert_eq!(callback, 5);
            assert_eq!(state.get("u"), Some(&vec![meta("r")]));
        }
        other => panic!("unexpected {:?}", other),
    }
}

#[test]
fn rejoin_takes_joined_channels_into_a_new_session() {
    let mut refs = RefAllocator::new();
    let mut channel = Channel::new("t");
    join(&mut channel, &mut refs, Vec::new());
    refs.new_session();
    let frame = channel.rejoin(&mut refs, 9).unwrap();
    match frame {
        Outbound::Join { topic, reference, .. } => {
            assert_eq!(topic, "t");
            assert_eq!(reference, 2);
        }
        other => panic!("unexpected {:?}", other),
    }
    assert_eq!(channel.state(), ChannelState::Joining);
    // the reply to the join of the session before is dropped
    assert!(channel.receive(reply(1, ReplyStatus::Accepted, Vec::new())).is_empty());
    assert_eq!(channel.state(), ChannelState::Joining);

    let mut closed = Channel::new("c");
    assert!(closed.rejoin(&mut refs, 9).is_none());
    assert_eq!(closed.state(), ChannelState::Closed);

    let mut leaving = Channel::new("l");
    join(&mut leaving, &mut refs, Vec::new());
    leaving.unsubscribe(&mut refs, 0).unwrap();
    assert!(leaving.rejoin(&mut refs, 9).is_none());
    assert_eq!(leaving.state(), ChannelState::Closed);
}

#[test]
fn access_token_is_resent_only_on_a_joined_channel() {
    let mut refs = RefAllocator::new();
    let mut channel = Channel::new("t");
    assert_eq!(channel.set_access_token("a"), None);
    join(&mut channel, &mut refs, Vec::new());
    assert_eq!(
        channel.set_access_token("b"),
        Some(Outbound::AccessToken { topic: "t".to_string(), token: "b".to_string() })
    );
}

#[test]
fn bindings_registered_after_the_join_count_for_later_messages() {
    let mut refs = RefAllocator::new();
    let mut channel = Channel::new("t");
    join(&mut channel, &mut refs, Vec::new());
    assert!(channel.receive(ServerEvent::Broadcast { event: "e".to_string(), payload: Json::Null }).is_empty());
    channel.on_broadcast("e", 1);
    assert_eq!(
        channel.receive(ServerEvent::Broadcast { event: "e".to_string(), payload: Json::Null }).len(),
        1
    );
}

#[test]
fn overdue_join_ends_in_errored_with_a_timeout() {
    let mut refs = RefAllocator::new();
    let mut channel = ChannelBuilder::new().topic("t").on_error(9).build();
    channel.subscribe(&mut refs, 100).unwrap();
    assert!(channel.expire(1099, 1000).is_empty());
    assert_eq!(channel.state(), ChannelState::Joining);
    let out = channel.expire(1100, 1000);
    assert_eq!(out.len(), 1);
    match &out[0] {
        HostEvent::ChannelFailed { callback, error } => {
            assert_eq!(*callback, 9);
            assert_eq!(*error, ChannelError::RequestTimeout);
        }
        other => panic!("unexpected {:?}", other),
    }
    assert_eq!(channel.state(), ChannelState::Errored);
    assert_eq!(channel.pending_len(), 0);
    // the late reply matches nothing
    assert!(channel.receive(reply(1, ReplyStatus::Accepted, Vec::new())).is_empty());
    assert_eq!(channel.state(), ChannelState::Errored);
}

#[test]
fn overdue_leave_closes_the_channel() {
    let mut refs = RefAllocator::new();
    let mut channel = Channel::new("t");
    join(&mut channel, &mut refs, Vec::new());
    channel.unsubscribe(&mut refs, 50).unwrap();
    assert!(channel.expire(60, 10).is_empty());
    assert_eq!(channel.state(), ChannelState::Closed);
}

#[test]
fn overdue_broadcasts_are_given_up_one_by_one() {
    let mut refs = RefAllocator::new();
    let mut channel = ChannelBuilder::new()
        .topic("t")
        .set_broadcast_config(BroadcastConfig { broadcast_self: false, ack: true })
        .on_error(3)
        .build();
    join(&mut channel, &mut refs, Vec::new());
    channel.broadcast(&mut refs, "e", Json::Null, None, 10).unwrap();
    channel.broadcast(&mut refs, "e", Json::Null, None, 20).unwrap();
    channel.broadcast(&mut refs, "e", Json::Null, None, 30).unwrap();
    assert_eq!(channel.pending_len(), 3);
    assert_eq!(channel.expire(119, 100).len(), 1);
    assert_eq!(channel.pending_len(), 2);
    assert_eq!(channel.state(), ChannelState::Joined);
    // a clock that stands before the sending counts as no wait at all
    assert!(channel.expire(0, 100).is_empty());
    assert_eq!(channel.expire(500, 100).len(), 2);
    assert_eq!(channel.pending_len(), 0);
    assert!(channel.expire(500, 100).is_empty());
    assert_eq!(channel.state(), ChannelState::Joined);
}
