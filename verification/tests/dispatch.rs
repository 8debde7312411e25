use bevy_realtime::dispatch::{Dispatcher, HostEvent};
use bevy_realtime::json::Json;
use bevy_realtime::status::{ChannelState, ConnectionState};

fn callback_of(event: &HostEvent) -> u64 {
    match event {
        HostEvent::ConnectResult { callback, .. }
        | HostEvent::ConnectionStatus { callback, .. }
        | HostEvent::ChannelStatus { callback, .. }
        | HostEvent::PresenceSnapshot { callback, .. }
        | HostEvent::Broadcast { callback, .. }
        | HostEvent::PresenceJoin { callback, .. }
        | HostEvent::PresenceLeave { callback, .. }
        | HostEvent::PresenceSync { callback, .. }
        | HostEvent::PostgresChanges { callback, .. }
        | HostEvent::ChannelFailed { callback, .. }
        | HostEvent::Reply { callback, .. } => *callback,
    }
}

#[test]
fn events_come_out_in_the_order_they_went_in() {
    let mut d = Dispatcher::new();
    assert!(d.is_empty());
    d.push(HostEvent::ConnectionStatus { callback: 1, state: ConnectionState::Open });
    d.push(HostEvent::Broadcast { callback: 2, payload: Json::Null });
    d.push_all(vec![
        HostEvent::ChannelStatus { callback: 3, state: ChannelState::Joined },
        HostEvent::PostgresChanges { callback: 4, payload: Json::Bool(true) },
    ]);
    d.push(HostEvent::ConnectResult { callback: 5, result: Ok(()) });
    assert_eq!(d.len(), 5);
    assert!(!d.is_empty());
    let out = d.drain();
    let order: Vec<u64> = out.iter().map(callback_of).collect();
    assert_eq!(order, vec![1, 2, 3, 4, 5]);
    assert!(d.is_empty());
    assert_eq!(d.len(), 0);
    assert!(d.drain().is_empty());
}

#[test]
fn draining_an_empty_queue_gives_nothing() {
    let mut d = Dispatcher::new();
    assert!(d.drain().is_empty());
    d.push_all(Vec::new());
    assert!(d.is_empty());
}
