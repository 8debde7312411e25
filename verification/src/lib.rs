//! A client for realtime servers that speak the Phoenix channel protocol:
//! one connection that carries many channels, each with broadcasts, shared
//! presence and database changes.
//!
//! The library is the protocol engine and does no input or output. The
//! caller owns the socket and the clock: it tells the [`Client`] what the
//! socket did and what time it is, sends the frames that the client hands
//! back, and passes on what the client delivers to the host's callbacks.

use vstd::prelude::*;

pub mod backoff;
pub mod channel;
pub mod channel_model;
pub mod client;
pub mod client_model;
pub mod decimal;
pub mod decode;
pub mod dispatch;
pub mod encode;
pub mod json;
pub mod message;
pub mod presence;
pub mod presence_model;
pub mod refs;
pub mod status;
pub mod wire;

pub use crate::channel::{Channel, ChannelBuilder};
use crate::backoff::BackoffView;
pub use crate::client::{Client, ClientBuilder};
use crate::client::{
    DEFAULT_HEARTBEAT_INTERVAL, DEFAULT_HEARTBEAT_TIMEOUT, DEFAULT_RECONNECT_INTERVAL,
    DEFAULT_RECONNECT_MAX_DELAY,
};
use crate::client_model::ClientView;
use crate::refs::RefsView;
use crate::status::ConnectionState;

verus! {

/// The number of attempts to reconnect in a row that may fail before a
/// client made by the plugin gives up.
pub const RECONNECT_MAX_ATTEMPTS: u64 = 3;

/// What is needed to reach the realtime server.
#[derive(Debug)]
pub struct RealtimePlugin {
    endpoint: String,
    apikey: String,
}

impl RealtimePlugin {
    /// The address of the server.
    pub closed spec fn endpoint_view(&self) -> Seq<char> {
        self.endpoint@
    }

    /// The key that the server asks for.
    pub closed spec fn apikey_view(&self) -> Seq<char> {
        self.apikey@
    }

    /// The plugin for the server at `endpoint`, with the key that the
    /// server asks for.
    pub fn new(endpoint: String, apikey: String) -> (out: RealtimePlugin)
        ensures
            out.endpoint_view() == endpoint@,
            out.apikey_view() == apikey@,
    {
        RealtimePlugin { endpoint, apikey }
    }

    /// The address of the server.
    pub fn endpoint(&self) -> (out: &String)
        ensures
            out@ == self.endpoint_view(),
    {
        &self.endpoint
    }

    /// The key that the server asks for.
    pub fn apikey(&self) -> (out: &String)
        ensures
            out@ == self.apikey_view(),
    {
        &self.apikey
    }

    /// The client that the plugin runs: closed, without a channel, for the
    /// plugin's server, and giving up after `RECONNECT_MAX_ATTEMPTS`
    /// attempts to reconnect have failed in a row.
    pub fn build_client(&self) -> (out: Client)
        ensures
            out.wf(),
            out.endpoint_view() == self.endpoint_view(),
            out.apikey_view() == self.apikey_view(),
            out@ == (ClientView {
                state: ConnectionState::Closed,
                backoff: BackoffView {
                    base: DEFAULT_RECONNECT_INTERVAL as nat,
                    cap: DEFAULT_RECONNECT_MAX_DELAY as nat,
                    max_attempts: Some(RECONNECT_MAX_ATTEMPTS as nat),
                    failures: 0,
                },
                refs: RefsView { next: 1, session_start: 1 },
                channels: Seq::empty(),
                heartbeat: None,
                last_heartbeat: 0,
                reconnect_at: 0,
                connect_callback: None,
                connect_announced: false,
                heartbeat_interval: DEFAULT_HEARTBEAT_INTERVAL,
                heartbeat_timeout: DEFAULT_HEARTBEAT_TIMEOUT,
            }),
    {
        let mut builder = ClientBuilder::new(self.endpoint.clone(), self.apikey.clone());
        builder.reconnect_max_attempts(RECONNECT_MAX_ATTEMPTS);
        builder.build()
    }
}

/// The state that a host holds after it has seen `events`, in order, having
/// held `last` before: the newest event, or `last` where there is none.
pub open spec fn latest_state(last: ConnectionState, events: Seq<ConnectionState>) -> ConnectionState {
    if events.len() == 0 {
        last
    } else {
        events.last()
    }
}

/// Folds the connection states reported since the last call into `last_state`
/// and says whether the connection is open.
pub fn client_ready(events: &Vec<ConnectionState>, last_state: &mut ConnectionState) -> (ready: bool)
    ensures
        *final(last_state) == latest_state(*old(last_state), events@),
        ready == (*final(last_state) == ConnectionState::Open),
{
    let mut i: usize = 0;
    while i < events.len()
        invariant
            i <= events.len(),
            *last_state == latest_state(*old(last_state), events@.take(i as int)),
        decreases events.len() - i,
    {
        *last_state = events[i];
        i += 1;
    }
    assert(events@.take(events.len() as int) =~= events@);
    *last_state == ConnectionState::Open
}

} // verus!
