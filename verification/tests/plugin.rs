use bevy_realtime::status::ConnectionState;
use bevy_realtime::{client_ready, RealtimePlugin, RECONNECT_MAX_ATTEMPTS};

#[test]
fn plugin_keeps_endpoint_and_key() {
    let plugin = RealtimePlugin::new("http://127.0.0.1:54321/realtime/v1".to_string(), "key".to_string());
    assert_eq!(plugin.endpoint(), "http://127.0.0.1:54321/realtime/v1");
    assert_eq!(plugin.apikey(), "key");
}

#[test]
fn plugin_client_is_closed_and_bounded_to_three_attempts() {
    assert_eq!(RECONNECT_MAX_ATTEMPTS, 3);
    let plugin = RealtimePlugin::new("http://host/realtime/v1".to_string(), "anon".to_string());
    let client = plugin.build_client();
    assert_eq!(client.state(), ConnectionState::Closed);
    assert_eq!(client.channel_count(), 0);
    assert_eq!(client.endpoint(), "http://host/realtime/v1");
    assert_eq!(client.apikey(), "anon");
}

#[test]
fn client_ready_follows_the_newest_state() {
    let mut last = ConnectionState::default();
    assert_eq!(last, ConnectionState::Closed);
    assert!(!client_ready(&Vec::new(), &mut last));
    assert_eq!(last, ConnectionState::Closed);
    assert!(client_ready(&vec![ConnectionState::Connecting, ConnectionState::Open], &mut last));
    assert_eq!(last, ConnectionState::Open);
    assert!(client_ready(&Vec::new(), &mut last));
    assert!(!client_ready(&vec![ConnectionState::Open, ConnectionState::Reconnecting], &mut last));
    assert_eq!(last, ConnectionState::Reconnecting);
    assert!(!client_ready(&vec![ConnectionState::Closing], &mut last));
}
