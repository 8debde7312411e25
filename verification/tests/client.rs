use bevy_realtime::channel::{Channel, ChannelBuilder};
use bevy_realtime::channel_model::PresenceEvent;
use bevy_realtime::client::{Client, ClientBuilder, SocketEvent, Step};
use bevy_realtime::client_model::Action;
use bevy_realtime::dispatch::HostEvent;
use bevy_realtime::json::Json;
use bevy_realtime::message::{
    BroadcastConfig, Inbound, Outbound, ReplyStatus, ServerEvent,
};
use bevy_realtime::status::{
    ChannelState, ConnectError, ConnectionState, NextMessageError, RequestError,
};

fn client(max_attempts: Option<u64>) -> Client {
    let mut builder = ClientBuilder::new("http://host".to_string(), "key".to_string());
    builder.reconnect_interval(100, 1000);
    builder.heartbeat(5000, 2000);
    if let Some(n) = max_attempts {
        builder.reconnect_max_attempts(n);
    }
    builder.build()
}

fn open(c: &mut Client, now: u64) -> Step {
    assert_eq!(c.connect(1), Action::OpenSocket);
    assert_eq!(c.state(), ConnectionState::Connecting);
    let step = c.step(SocketEvent::Opened, now);
    assert_eq!(c.state(), ConnectionState::Open);
    step
}

fn reply(topic: &str, reference: u64, status: ReplyStatus) -> SocketEvent {
    SocketEvent::Frame(Inbound {
        topic: topic.to_string(),
        event: ServerEvent::Reply {
            reference,
            status,
            response: Json::Object(Vec::new()),
            postgres_ids: Vec::new(),
        },
    })
}

fn join_ref(frame: &Outbound) -> u64 {
    match frame {
        Outbound::Join { reference, .. } => *reference,
        other => panic!("no join: {:?}", other),
    }
}

#[test]
fn connect_opens_a_socket_and_reports_success_once() {
    let mut c = client(None);
    assert_eq!(c.state(), ConnectionState::Closed);
    let step = open(&mut c, 10);
    assert_eq!(step.result, Ok(()));
    assert_eq!(step.action, Action::Nothing);
    assert!(step.send.is_empty());
    assert_eq!(step.deliver.len(), 1);
    match &step.deliver[0] {
        HostEvent::ConnectResult { callback, result } => {
            assert_eq!(*callback, 1);
            assert_eq!(*result, Ok(()));
        }
        other => panic!("unexpected {:?}", other),
    }
    // connecting again while open does nothing
    assert_eq!(c.connect(2), Action::Nothing);
    assert_eq!(c.state(), ConnectionState::Open);
}

#[test]
fn would_block_and_malformed_change_nothing() {
    let mut c = client(None);
    open(&mut c, 0);
    let step = c.step(SocketEvent::WouldBlock, 1);
    assert_eq!(step.result, Err(NextMessageError::WouldBlock));
    assert!(step.send.is_empty() && step.deliver.is_empty());
    let step = c.step(SocketEvent::Malformed, 2);
    assert_eq!(step.result, Err(NextMessageError::Malformed));
    assert!(step.send.is_empty() && step.deliver.is_empty());
    assert_eq!(c.state(), ConnectionState::Open);
}

#[test]
fn channels_have_unique_topics() {
    let mut c = client(None);
    assert_eq!(c.channel(Channel::new("a")), Some(0));
    assert_eq!(c.channel(Channel::new("b")), Some(1));
    assert_eq!(c.subscribe(0, 0), Ok(None));
    // a topic that a channel holds which is not closed is taken
    assert_eq!(c.channel(Channel::new("a")), None);
    assert_eq!(c.channel_count(), 2);
    // a closed channel gives way to a new one on its topic, under its handle
    assert_eq!(c.channel(ChannelBuilder::new().topic("b").on_broadcast("e", 1).build()), Some(1));
    assert_eq!(c.channel_count(), 2);
    assert_eq!(c.find_channel(&"b".to_string()), Some(1));
    assert_eq!(c.find_channel(&"c".to_string()), None);
    assert_eq!(c.get_channel(0).unwrap().state(), ChannelState::Joining);
    assert_eq!(c.get_channel(1).unwrap().state(), ChannelState::Closed);
    assert!(c.get_channel(2).is_none());
}

#[test]
fn subscribe_while_open_sends_the_join() {
    let mut c = client(None);
    open(&mut c, 0);
    let h = c.channel(Channel::new("room")).unwrap();
    let frame = c.subscribe(h, 1).unwrap().unwrap();
    assert_eq!(join_ref(&frame), 1);
    assert_eq!(c.get_channel(h).unwrap().state(), ChannelState::Joining);
    assert_eq!(
        c.subscribe(h, 1),
        Err(RequestError::InvalidState(ChannelState::Joining))
    );
    let step = c.step(reply("room", 1, ReplyStatus::Accepted), 2);
    assert_eq!(step.result, Ok(()));
    assert_eq!(c.get_channel(h).unwrap().state(), ChannelState::Joined);
    assert_eq!(c.subscribe(9, 1), Err(RequestError::UnknownChannel));
}

#[test]
fn subscribe_before_the_connection_is_joined_when_it_opens() {
    let mut c = client(None);
    let a = c.channel(Channel::new("a")).unwrap();
    let b = c.channel(Channel::new("b")).unwrap();
    let idle = c.channel(Channel::new("idle")).unwrap();
    assert_eq!(c.subscribe(a, 0), Ok(None));
    assert_eq!(c.subscribe(b, 0), Ok(None));
    let step = open(&mut c, 5);
    assert_eq!(step.send.len(), 2);
    let refs: Vec<u64> = step.send.iter().map(join_ref).collect();
    // the refs of the joins that were never sent are not used again
    assert_eq!(refs, vec![3, 4]);
    assert_eq!(c.get_channel(a).unwrap().state(), ChannelState::Joining);
    assert_eq!(c.get_channel(idle).unwrap().state(), ChannelState::Closed);
    // replies to the refs of the session before match nothing
    c.step(reply("a", 1, ReplyStatus::Accepted), 6);
    assert_eq!(c.get_channel(a).unwrap().state(), ChannelState::Joining);
    c.step(reply("a", 3, ReplyStatus::Accepted), 6);
    assert_eq!(c.get_channel(a).unwrap().state(), ChannelState::Joined);
    c.step(reply("b", 3, ReplyStatus::Accepted), 6);
    assert_eq!(c.get_channel(b).unwrap().state(), ChannelState::Joining);
}

#[test]
fn frames_are_routed_by_topic() {
    let mut c = client(None);
    open(&mut c, 0);
    let a = c
        .channel(ChannelBuilder::new().topic("a").on_broadcast("e", 10).build())
        .unwrap();
    let b = c
        .channel(ChannelBuilder::new().topic("b").on_broadcast("e", 20).build())
        .unwrap();
    let ra = join_ref(&c.subscribe(a, 0).unwrap().unwrap());
    let rb = join_ref(&c.subscribe(b, 0).unwrap().unwrap());
    c.step(reply("a", ra, ReplyStatus::Accepted), 1);
    c.step(reply("b", rb, ReplyStatus::Rejected), 1);
    assert_eq!(c.get_channel(a).unwrap().state(), ChannelState::Joined);
    // an error on one channel does not touch the other
    assert_eq!(c.get_channel(b).unwrap().state(), ChannelState::Errored);
    let frame = |topic: &str| {
        SocketEvent::Frame(Inbound {
            topic: topic.to_string(),
            event: ServerEvent::Broadcast { event: "e".to_string(), payload: Json::Bool(true) },
        })
    };
    let step = c.step(frame("a"), 2);
    assert_eq!(step.deliver.len(), 1);
    match &step.deliver[0] {
        HostEvent::Broadcast { callback, payload } => {
            assert_eq!(*callback, 10);
            assert_eq!(*payload, Json::Bool(true));
        }
        other => panic!("unexpected {:?}", other),
    }
    assert!(c.step(frame("b"), 2).deliver.is_empty());
    assert!(c.step(frame("nowhere"), 2).deliver.is_empty());
}

#[test]
fn lost_connection_backs_off_and_gives_up_at_the_cap() {
    let mut c = client(Some(3));
    open(&mut c, 0);
    let mut now = 10;
    let step = c.step(SocketEvent::Closed, now);
    assert_eq!(step.result, Err(NextMessageError::Closed));
    assert_eq!(c.state(), ConnectionState::Reconnecting);
    assert!(step.deliver.is_empty());
    let mut delays = Vec::new();
    for attempt in 0..3 {
        // nothing happens before the delay is over
        let expected = 100u64 << attempt;
        let step = c.step(SocketEvent::WouldBlock, now + expected - 1);
        assert_eq!(step.action, Action::Nothing);
        assert_eq!(c.state(), ConnectionState::Reconnecting);
        now += expected;
        let step = c.step(SocketEvent::WouldBlock, now);
        assert_eq!(step.action, Action::OpenSocket);
        assert_eq!(c.state(), ConnectionState::Connecting);
        delays.push(expected);
        let step = c.step(SocketEvent::Failed(ConnectError::Unreachable), now);
        if attempt < 2 {
            assert_eq!(c.state(), ConnectionState::Reconnecting);
            assert!(step.deliver.is_empty());
        } else {
            // the callback that asked for the connection hears that it is gone for good
            assert_eq!(c.state(), ConnectionState::Closed);
            assert_eq!(step.deliver.len(), 1);
            match &step.deliver[0] {
                HostEvent::ConnectResult { callback, result } => {
                    assert_eq!(*callback, 1);
                    assert_eq!(*result, Err(ConnectError::Unreachable));
                }
                other => panic!("unexpected {:?}", other),
            }
        }
    }
    assert_eq!(delays, vec![100, 200, 400]);
    // closed for good: time alone does not bring it back
    let step = c.step(SocketEvent::WouldBlock, now + 100_000);
    assert_eq!(step.action, Action::Nothing);
    assert_eq!(c.state(), ConnectionState::Closed);
}

#[test]
fn exhausted_attempts_surface_the_error_to_the_connect_callback() {
    let mut c = client(Some(1));
    assert_eq!(c.connect(7), Action::OpenSocket);
    let step = c.step(SocketEvent::Failed(ConnectError::HandshakeFailed), 0);
    assert_eq!(c.state(), ConnectionState::Reconnecting);
    assert!(step.deliver.is_empty());
    let step = c.step(SocketEvent::WouldBlock, 100);
    assert_eq!(step.action, Action::OpenSocket);
    let step = c.step(SocketEvent::Failed(ConnectError::Unreachable), 100);
    assert_eq!(c.state(), ConnectionState::Closed);
    assert_eq!(step.deliver.len(), 1);
    match &step.deliver[0] {
        HostEvent::ConnectResult { callback, result } => {
            assert_eq!(*callback, 7);
            assert_eq!(*result, Err(ConnectError::Unreachable));
        }
        other => panic!("unexpected {:?}", other),
    }
}

#[test]
fn rejected_credentials_are_terminal_at_once() {
    let mut c = client(None);
    assert_eq!(c.connect(7), Action::OpenSocket);
    let step = c.step(SocketEvent::Failed(ConnectError::AuthRejected), 0);
    assert_eq!(c.state(), ConnectionState::Closed);
    assert_eq!(step.deliver.len(), 1);
    match &step.deliver[0] {
        HostEvent::ConnectResult { callback, result } => {
            assert_eq!(*callback, 7);
            assert_eq!(*result, Err(ConnectError::AuthRejected));
        }
        other => panic!("unexpected {:?}", other),
    }
    assert_eq!(c.step(SocketEvent::WouldBlock, 1_000_000).action, Action::Nothing);
    assert_eq!(c.state(), ConnectionState::Closed);
}

#[test]
fn successful_reconnection_resets_the_backoff_and_rejoins_with_fresh_refs() {
    let mut c = client(None);
    open(&mut c, 0);
    let h = c.channel(Channel::new("room")).unwrap();
    let first = join_ref(&c.subscribe(h, 0).unwrap().unwrap());
    c.step(reply("room", first, ReplyStatus::Accepted), 1);
    assert_eq!(c.get_channel(h).unwrap().state(), ChannelState::Joined);

    // two failures in a row: delays 100, then 200
    c.step(SocketEvent::Closed, 10);
    assert_eq!(c.step(SocketEvent::WouldBlock, 109).action, Action::Nothing);
    assert_eq!(c.step(SocketEvent::WouldBlock, 110).action, Action::OpenSocket);
    c.step(SocketEvent::Failed(ConnectError::Unreachable), 110);
    assert_eq!(c.step(SocketEvent::WouldBlock, 309).action, Action::Nothing);
    assert_eq!(c.step(SocketEvent::WouldBlock, 310).action, Action::OpenSocket);
    let step = c.step(SocketEvent::Opened, 320);
    assert_eq!(c.state(), ConnectionState::Open);
    // the connect callback has heard once already
    assert!(step.deliver.is_empty());
    assert_eq!(step.send.len(), 1);
    let second = join_ref(&step.send[0]);
    assert!(second > first);
    assert_eq!(c.get_channel(h).unwrap().state(), ChannelState::Joining);
    // a late reply for the old ref is dropped
    c.step(reply("room", first, ReplyStatus::Accepted), 321);
    assert_eq!(c.get_channel(h).unwrap().state(), ChannelState::Joining);
    c.step(reply("room", second, ReplyStatus::Accepted), 322);
    assert_eq!(c.get_channel(h).unwrap().state(), ChannelState::Joined);

    // the next loss starts at the base delay again
    c.step(SocketEvent::Closed, 400);
    assert_eq!(c.step(SocketEvent::WouldBlock, 499).action, Action::Nothing);
    assert_eq!(c.step(SocketEvent::WouldBlock, 500).action, Action::OpenSocket);
}

#[test]
fn heartbeat_is_sent_on_the_interval_and_its_reply_is_taken() {
    let mut c = client(None);
    open(&mut c, 0);
    assert!(c.step(SocketEvent::WouldBlock, 4999).send.is_empty());
    let step = c.step(SocketEvent::WouldBlock, 5000);
    assert_eq!(step.send, vec![Outbound::Heartbeat { reference: 1 }]);
    // no second heartbeat while one waits
    assert!(c.step(SocketEvent::WouldBlock, 6000).send.is_empty());
    let step = c.step(reply("phoenix", 1, ReplyStatus::Accepted), 6500);
    assert!(step.deliver.is_empty());
    assert_eq!(c.state(), ConnectionState::Open);
    // well past the timeout of the first one, nothing is lost
    assert!(c.step(SocketEvent::WouldBlock, 9999).send.is_empty());
    assert_eq!(c.state(), ConnectionState::Open);
    let step = c.step(SocketEvent::WouldBlock, 10000);
    assert_eq!(step.send, vec![Outbound::Heartbeat { reference: 2 }]);
}

#[test]
fn heartbeat_without_reply_counts_as_a_lost_connection() {
    let mut c = client(None);
    open(&mut c, 0);
    c.step(SocketEvent::WouldBlock, 5000);
    // a reply with another ref does not count
    c.step(reply("phoenix", 99, ReplyStatus::Accepted), 5500);
    assert_eq!(c.step(SocketEvent::WouldBlock, 6999).action, Action::Nothing);
    assert_eq!(c.state(), ConnectionState::Open);
    let step = c.step(SocketEvent::WouldBlock, 7000);
    assert_eq!(step.action, Action::CloseSocket);
    assert_eq!(c.state(), ConnectionState::Reconnecting);
    assert_eq!(c.step(SocketEvent::WouldBlock, 7100).action, Action::OpenSocket);
}

#[test]
fn broadcast_and_presence_need_an_open_connection() {
    let mut c = client(None);
    let h = c.channel(Channel::new("t")).unwrap();
    assert_eq!(c.broadcast(h, "e", Json::Null, None, 0), Err(RequestError::NotConnected));
    assert_eq!(c.track_presence(h, Json::Null), Err(RequestError::NotConnected));
    assert_eq!(c.untrack_presence(h), Err(RequestError::NotConnected));
    assert_eq!(c.broadcast(5, "e", Json::Null, None, 0), Err(RequestError::UnknownChannel));
    open(&mut c, 0);
    assert_eq!(
        c.broadcast(h, "e", Json::Null, None, 0),
        Err(RequestError::InvalidState(ChannelState::Closed))
    );
    let r = join_ref(&c.subscribe(h, 0).unwrap().unwrap());
    c.step(reply("t", r, ReplyStatus::Accepted), 1);
    assert_eq!(
        c.broadcast(h, "e", Json::Bool(false), None, 2),
        Ok(Outbound::Broadcast {
            topic: "t".to_string(),
            reference: None,
            event: "e".to_string(),
            payload: Json::Bool(false),
        })
    );
    assert_eq!(
        c.track_presence(h, Json::Null),
        Ok(Outbound::Track { topic: "t".to_string(), payload: Json::Null })
    );
    assert_eq!(c.untrack_presence(h), Ok(Outbound::Untrack { topic: "t".to_string() }));
}

#[test]
fn acknowledged_broadcast_through_the_client() {
    let mut c = client(None);
    open(&mut c, 0);
    let channel = ChannelBuilder::new()
        .topic("t")
        .set_broadcast_config(BroadcastConfig { broadcast_self: false, ack: true })
        .build();
    let (h, frame) = c.open_channel(channel, 0).unwrap();
    let r = join_ref(&frame.unwrap());
    c.step(reply("t", r, ReplyStatus::Accepted), 1);
    let sent = c.broadcast(h, "e", Json::Null, Some(77), 2).unwrap();
    let br = match sent {
        Outbound::Broadcast { reference: Some(br), .. } => br,
        other => panic!("unexpected {:?}", other),
    };
    assert!(br > r);
    assert_eq!(c.get_channel(h).unwrap().pending_len(), 1);
    let step = c.step(reply("t", br, ReplyStatus::Accepted), 3);
    assert_eq!(step.deliver.len(), 1);
    match &step.deliver[0] {
        HostEvent::Reply { callback, .. } => assert_eq!(*callback, 77),
        other => panic!("unexpected {:?}", other),
    }
    assert_eq!(c.get_channel(h).unwrap().pending_len(), 0);
}

#[test]
fn open_channel_registers_and_joins() {
    let mut c = client(None);
    let (h, frame) = c.open_channel(Channel::new("a"), 0).unwrap();
    assert_eq!(h, 0);
    assert_eq!(frame, None);
    assert_eq!(c.get_channel(h).unwrap().state(), ChannelState::Joining);
    assert_eq!(c.open_channel(Channel::new("a"), 0), Err(RequestError::DuplicateTopic));
    assert_eq!(c.channel_count(), 1);
    open(&mut c, 1);
    let (h2, frame) = c.open_channel(Channel::new("b"), 2).unwrap();
    assert_eq!(h2, 1);
    match frame {
        Some(Outbound::Join { topic, .. }) => assert_eq!(topic, "b"),
        other => panic!("unexpected {:?}", other),
    }
}

#[test]
fn disconnect_closes_the_socket_and_the_channels() {
    let mut c = client(None);
    open(&mut c, 0);
    let h = c.channel(Channel::new("t")).unwrap();
    let r = join_ref(&c.subscribe(h, 0).unwrap().unwrap());
    c.step(reply("t", r, ReplyStatus::Accepted), 1);
    assert_eq!(c.disconnect(), Action::CloseSocket);
    assert_eq!(c.state(), ConnectionState::Closing);
    // frames that still arrive are ignored
    let step = c.step(reply("t", r, ReplyStatus::Accepted), 2);
    assert!(step.deliver.is_empty());
    let step = c.step(SocketEvent::Closed, 3);
    assert_eq!(step.result, Err(NextMessageError::Closed));
    assert_eq!(c.state(), ConnectionState::Closed);
    assert_eq!(c.get_channel(h).unwrap().state(), ChannelState::Closed);
    assert_eq!(c.disconnect(), Action::Nothing);
    // no reconnection after an asked-for end
    assert_eq!(c.step(SocketEvent::WouldBlock, 1_000_000).action, Action::Nothing);
}

#[test]
fn disconnect_while_reconnecting_closes_at_once() {
    let mut c = client(None);
    open(&mut c, 0);
    c.step(SocketEvent::Closed, 1);
    assert_eq!(c.state(), ConnectionState::Reconnecting);
    assert_eq!(c.disconnect(), Action::Nothing);
    assert_eq!(c.state(), ConnectionState::Closed);
}

#[test]
fn access_token_goes_to_joined_channels_only() {
    let mut c = client(None);
    let a = c.channel(Channel::new("a")).unwrap();
    let _b = c.channel(Channel::new("b")).unwrap();
    assert!(c.set_access_token("t0").is_empty());
    open(&mut c, 0);
    let r = join_ref(&c.subscribe(a, 0).unwrap().unwrap());
    c.step(reply("a", r, ReplyStatus::Accepted), 1);
    assert_eq!(
        c.set_access_token("t1"),
        vec![Outbound::AccessToken { topic: "a".to_string(), token: "t1".to_string() }]
    );
}

#[test]
fn state_queries_answer_through_events() {
    let mut c = client(None);
    match c.connection_state(3) {
        HostEvent::ConnectionStatus { callback, state } => {
            assert_eq!(callback, 3);
            assert_eq!(state, ConnectionState::Closed);
        }
        other => panic!("unexpected {:?}", other),
    }
    let h = c.channel(Channel::new("a")).unwrap();
    match c.channel_state(h, 4) {
        Some(HostEvent::ChannelStatus { callback, state }) => {
            assert_eq!(callback, 4);
            assert_eq!(state, ChannelState::Closed);
        }
        other => panic!("unexpected {:?}", other),
    }
    assert!(c.channel_state(9, 4).is_none());
    match c.presence_state(h, 5) {
        Some(HostEvent::PresenceSnapshot { callback, state }) => {
            assert_eq!(callback, 5);
            assert!(state.is_empty());
        }
        other => panic!("unexpected {:?}", other),
    }
    assert!(c.presence_state(9, 5).is_none());
}

#[test]
fn bindings_can_be_added_through_the_client() {
    let mut c = client(None);
    open(&mut c, 0);
    let h = c.channel(Channel::new("a")).unwrap();
    assert!(c.on_broadcast(h, "e", 1));
    assert!(c.on_presence(h, PresenceEvent::Sync, 2));
    assert!(!c.on_broadcast(7, "e", 1));
    let r = join_ref(&c.subscribe(h, 0).unwrap().unwrap());
    c.step(reply("a", r, ReplyStatus::Accepted), 1);
    let step = c.step(
        SocketEvent::Frame(Inbound {
            topic: "a".to_string(),
            event: ServerEvent::Broadcast { event: "e".to_string(), payload: Json::Null },
        }),
        2,
    );
    assert_eq!(step.deliver.len(), 1);
}

#[test]
fn frames_before_the_connection_is_open_are_ignored() {
    let mut c = client(None);
    let h = c.channel(ChannelBuilder::new().topic("a").on_broadcast("e", 1).build()).unwrap();
    c.subscribe(h, 0).unwrap();
    let step = c.step(reply("a", 1, ReplyStatus::Accepted), 0);
    assert_eq!(step.result, Ok(()));
    assert_eq!(c.get_channel(h).unwrap().state(), ChannelState::Joining);
}

#[test]
fn overdue_requests_are_given_up_on_every_channel() {
    let mut c = client(None);
    open(&mut c, 0);
    let a = c.channel(ChannelBuilder::new().topic("a").on_error(1).build()).unwrap();
    let b = c.channel(ChannelBuilder::new().topic("b").on_error(2).build()).unwrap();
    let idle = c.channel(Channel::new("idle")).unwrap();
    c.subscribe(a, 10).unwrap();
    c.subscribe(b, 500).unwrap();
    assert!(c.expire_requests(1009, 1000).is_empty());
    let out = c.expire_requests(1010, 1000);
    assert_eq!(out.len(), 1);
    match &out[0] {
        HostEvent::ChannelFailed { callback, .. } => assert_eq!(*callback, 1),
        other => panic!("unexpected {:?}", other),
    }
    assert_eq!(c.get_channel(a).unwrap().state(), ChannelState::Errored);
    assert_eq!(c.get_channel(b).unwrap().state(), ChannelState::Joining);
    assert_eq!(c.get_channel(idle).unwrap().state(), ChannelState::Closed);
    let out = c.expire_requests(2000, 1000);
    assert_eq!(out.len(), 1);
    assert_eq!(c.get_channel(b).unwrap().state(), ChannelState::Errored);
}

#[test]
fn a_left_channel_can_be_opened_again_on_its_topic() {
    let mut c = client(None);
    open(&mut c, 0);
    let (h, frame) = c.open_channel(Channel::new("t"), 1).unwrap();
    let first = join_ref(&frame.unwrap());
    c.step(reply("t", first, ReplyStatus::Accepted), 2);
    // while the channel is joined its topic is taken
    assert_eq!(c.open_channel(Channel::new("t"), 3), Err(RequestError::DuplicateTopic));
    let leave = match c.unsubscribe(h, 3).unwrap().unwrap() {
        Outbound::Leave { reference, .. } => reference,
        other => panic!("unexpected {:?}", other),
    };
    // so it is while the leave is not answered
    assert_eq!(c.open_channel(Channel::new("t"), 3), Err(RequestError::DuplicateTopic));
    c.step(reply("t", leave, ReplyStatus::Accepted), 4);
    assert_eq!(c.get_channel(h).unwrap().state(), ChannelState::Closed);
    // once the leave is answered a new channel on the topic is joined, with a fresh ref
    let fresh = ChannelBuilder::new().topic("t").on_broadcast("e", 5).build();
    let (again, frame) = c.open_channel(fresh, 5).unwrap();
    assert_eq!(again, h);
    assert_eq!(c.channel_count(), 1);
    let second = join_ref(&frame.unwrap());
    assert!(second != first && second != leave);
    assert_eq!((first, leave, second), (1, 2, 3));
    assert_eq!(c.get_channel(h).unwrap().state(), ChannelState::Joining);
    c.step(reply("t", second, ReplyStatus::Accepted), 6);
    assert_eq!(c.get_channel(h).unwrap().state(), ChannelState::Joined);
    // the new channel's bindings are the ones that count
    let step = c.step(
        SocketEvent::Frame(Inbound {
            topic: "t".to_string(),
            event: ServerEvent::Broadcast { event: "e".to_string(), payload: Json::Null },
        }),
        7,
    );
    assert_eq!(step.deliver.len(), 1);
}

#[test]
fn every_fresh_builder_is_joined_also_after_a_leave() {
    let mut c = client(None);
    open(&mut c, 0);
    for round in 0..3u64 {
        let (h, frame) = c.open_channel(ChannelBuilder::new().topic("room").build(), round).unwrap();
        assert_eq!(h, 0);
        let r = join_ref(&frame.unwrap());
        c.step(reply("room", r, ReplyStatus::Accepted), round);
        let leave = match c.unsubscribe(h, round).unwrap().unwrap() {
            Outbound::Leave { reference, .. } => reference,
            other => panic!("unexpected {:?}", other),
        };
        c.step(reply("room", leave, ReplyStatus::Accepted), round);
        assert_eq!(c.get_channel(h).unwrap().state(), ChannelState::Closed);
    }
    assert_eq!(c.channel_count(), 1);
}

#[test]
fn giving_up_after_the_connection_was_open_tells_the_callback_and_closes_the_channels() {
    let mut c = client(Some(1));
    let step = open(&mut c, 0);
    assert_eq!(step.deliver.len(), 1);
    let (h, frame) = c.open_channel(Channel::new("t"), 1).unwrap();
    c.step(reply("t", join_ref(&frame.unwrap()), ReplyStatus::Accepted), 2);
    assert_eq!(c.get_channel(h).unwrap().state(), ChannelState::Joined);
    // the socket drops: one attempt may be made
    let step = c.step(SocketEvent::Closed, 10);
    assert!(step.deliver.is_empty());
    assert_eq!(c.state(), ConnectionState::Reconnecting);
    assert_eq!(c.get_channel(h).unwrap().state(), ChannelState::Joined);
    assert_eq!(c.step(SocketEvent::WouldBlock, 110).action, Action::OpenSocket);
    let step = c.step(SocketEvent::Failed(ConnectError::HandshakeFailed), 110);
    assert_eq!(c.state(), ConnectionState::Closed);
    assert_eq!(step.deliver.len(), 1);
    match &step.deliver[0] {
        HostEvent::ConnectResult { callback, result } => {
            assert_eq!(*callback, 1);
            assert_eq!(*result, Err(ConnectError::HandshakeFailed));
        }
        other => panic!("unexpected {:?}", other),
    }
    // the connection is gone for good, and the channels with it
    assert_eq!(c.get_channel(h).unwrap().state(), ChannelState::Closed);
    assert_eq!(c.step(SocketEvent::WouldBlock, 1_000_000).action, Action::Nothing);
    // nobody hears of it twice
    assert!(c.step(SocketEvent::Closed, 1_000_001).deliver.is_empty());
    // a new request to connect starts afresh and hears of success again
    assert_eq!(c.connect(2), Action::OpenSocket);
    let step = c.step(SocketEvent::Opened, 1_000_002);
    assert_eq!(step.deliver.len(), 1);
    match &step.deliver[0] {
        HostEvent::ConnectResult { callback, result } => {
            assert_eq!(*callback, 2);
            assert_eq!(*result, Ok(()));
        }
        other => panic!("unexpected {:?}", other),
    }
    assert!(step.send.is_empty());
}

#[test]
fn a_lost_heartbeat_that_uses_up_the_attempts_tells_the_callback() {
    let mut c = client(Some(0));
    open(&mut c, 0);
    c.step(SocketEvent::WouldBlock, 5000);
    let step = c.step(SocketEvent::WouldBlock, 7000);
    assert_eq!(step.action, Action::CloseSocket);
    assert_eq!(c.state(), ConnectionState::Closed);
    assert_eq!(step.deliver.len(), 1);
    match &step.deliver[0] {
        HostEvent::ConnectResult { callback, result } => {
            assert_eq!(*callback, 1);
            assert_eq!(*result, Err(ConnectError::Unreachable));
        }
        other => panic!("unexpected {:?}", other),
    }
}

#[test]
fn rejected_credentials_close_the_channels_too() {
    let mut c = client(None);
    let h = c.channel(Channel::new("t")).unwrap();
    assert_eq!(c.subscribe(h, 0), Ok(None));
    assert_eq!(c.connect(7), Action::OpenSocket);
    c.step(SocketEvent::Failed(ConnectError::AuthRejected), 0);
    assert_eq!(c.state(), ConnectionState::Closed);
    assert_eq!(c.get_channel(h).unwrap().state(), ChannelState::Closed);
}

#[test]
fn the_step_decides_about_the_socket_before_the_host() {
    for asked in [Action::Nothing, Action::OpenSocket, Action::CloseSocket] {
        assert_eq!(Client::next_action(Action::Nothing, asked), asked);
        assert_eq!(Client::next_action(Action::OpenSocket, asked), Action::OpenSocket);
        assert_eq!(Client::next_action(Action::CloseSocket, asked), Action::CloseSocket);
    }
}
