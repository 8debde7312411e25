//! The client: one connection, its reconnection and heartbeat, and the
//! channels that share it. It does no input or output of its own: the
//! caller owns the socket, tells the client what the socket did, and does
//! what the client asks in return.

use vstd::prelude::*;
use crate::backoff::Backoff;
use crate::channel::Channel;
use crate::channel_model::{
    can_subscribe, can_unsubscribe, lemma_expired_inv, pending_live, ChannelView, PresenceEvent,
};
use crate::client_model::{closed_all, expired_all, expired_all_events, handle_for, has_topic, lemma_closed_topic_is_free, registered, topic_taken, lemma_rejoin_all, lemma_rejoined_index, lemma_update_channel, refs_after_rejoin, rejoin_frames, rejoined_all, step_result, token_frames, topic_index, with_token, Action, ClientView, PendingHeartbeat, SocketEventView};
use crate::json::Json;
use crate::dispatch::{events_view, lemma_events_push, HostEvent, HostEventView};
use crate::message::{outbound_view, Inbound, Outbound, OutboundView, ServerEvent};
use crate::refs::{RefAllocator, RefsView};
use crate::status::{
    CallbackId, ChannelState, ConnectError, ConnectionState, NextMessageError, RequestError,
};

verus! {

/// What the socket has to say.
#[derive(Debug)]
pub enum SocketEvent {
    /// The socket is connected and the handshake is done.
    Opened,
    /// The attempt to connect failed.
    Failed(ConnectError),
    /// A frame came in.
    Frame(Inbound),
    /// A frame came in that could not be understood.
    Malformed,
    /// Nothing is there to read.
    WouldBlock,
    /// The socket has ended.
    Closed,
}

impl View for SocketEvent {
    type V = SocketEventView;

    open spec fn view(&self) -> SocketEventView {
        match self {
            SocketEvent::Opened => SocketEventView::Opened,
            SocketEvent::Failed(error) => SocketEventView::Failed(*error),
            SocketEvent::Frame(inbound) => SocketEventView::Frame {
                topic: inbound.topic@,
                event: inbound.event@,
            },
            SocketEvent::Malformed => SocketEventView::Malformed,
            SocketEvent::WouldBlock => SocketEventView::WouldBlock,
            SocketEvent::Closed => SocketEventView::Closed,
        }
    }
}

impl SocketEvent {
    /// Whether the presence data of the frame, if it is one, is in order.
    pub open spec fn wf(&self) -> bool {
        match self {
            SocketEvent::Frame(inbound) => inbound.event.wf(),
            _ => true,
        }
    }
}

/// What one step of the client comes to.
#[derive(Debug)]
pub struct Step {
    /// `Ok` where the step took something in; otherwise why it did not.
    pub result: Result<(), NextMessageError>,
    /// What the caller is to do with the socket.
    pub action: Action,
    /// What the caller is to send, in order.
    pub send: Vec<Outbound>,
    /// What the caller is to hand to the host, in order.
    pub deliver: Vec<HostEvent>,
}

/// The settings of a client.
#[derive(Debug)]
pub struct ClientBuilder {
    endpoint: String,
    apikey: String,
    reconnect_interval: u64,
    reconnect_max_delay: u64,
    reconnect_max_attempts: Option<u64>,
    heartbeat_interval: u64,
    heartbeat_timeout: u64,
}

/// The delay before the first attempt to reconnect, in milliseconds, where
/// none is set.
pub const DEFAULT_RECONNECT_INTERVAL: u64 = 1000;

/// The longest delay between two attempts to reconnect, in milliseconds,
/// where none is set.
pub const DEFAULT_RECONNECT_MAX_DELAY: u64 = 10000;

/// The time between two heartbeats, in milliseconds, where none is set.
pub const DEFAULT_HEARTBEAT_INTERVAL: u64 = 29000;

/// The time that the answer to a heartbeat may take, in milliseconds, where
/// none is set.
pub const DEFAULT_HEARTBEAT_TIMEOUT: u64 = 10000;

/// The time that the answer to a request may take, in milliseconds, as the
/// caller may hand it to `expire_requests`.
pub const DEFAULT_REQUEST_TIMEOUT: u64 = 10000;

/// The channels of a list, each by its view.
pub open spec fn channels_view(channels: Seq<Channel>) -> Seq<ChannelView> {
    Seq::new(channels.len(), |i: int| channels[i]@)
}

/// The client.
#[derive(Debug)]
pub struct Client {
    endpoint: String,
    apikey: String,
    state: ConnectionState,
    backoff: Backoff,
    refs: RefAllocator,
    channels: Vec<Channel>,
    heartbeat: Option<PendingHeartbeat>,
    last_heartbeat: u64,
    reconnect_at: u64,
    connect_callback: Option<CallbackId>,
    connect_announced: bool,
    heartbeat_interval: u64,
    heartbeat_timeout: u64,
}

impl View for Client {
    type V = ClientView;

    closed spec fn view(&self) -> ClientView {
        ClientView {
            state: self.state,
            backoff: self.backoff@,
            refs: self.refs@,
            channels: channels_view(self.channels@),
            heartbeat: self.heartbeat,
            last_heartbeat: self.last_heartbeat,
            reconnect_at: self.reconnect_at,
            connect_callback: self.connect_callback,
            connect_announced: self.connect_announced,
            heartbeat_interval: self.heartbeat_interval,
            heartbeat_timeout: self.heartbeat_timeout,
        }
    }
}

impl ClientBuilder {
    /// The settings for a client of the server at `endpoint`, with the
    /// defaults: reconnection without a bound on the attempts.
    pub fn new(endpoint: String, apikey: String) -> (out: ClientBuilder)
        ensures
            out.endpoint_view() == endpoint@,
            out.apikey_view() == apikey@,
            out.max_attempts() is None,
            out.reconnect_interval_spec() == DEFAULT_RECONNECT_INTERVAL,
            out.reconnect_max_delay_spec() == DEFAULT_RECONNECT_MAX_DELAY,
            out.heartbeat_interval_spec() == DEFAULT_HEARTBEAT_INTERVAL,
            out.heartbeat_timeout_spec() == DEFAULT_HEARTBEAT_TIMEOUT,
    {
        ClientBuilder {
            endpoint,
            apikey,
            reconnect_interval: DEFAULT_RECONNECT_INTERVAL,
            reconnect_max_delay: DEFAULT_RECONNECT_MAX_DELAY,
            reconnect_max_attempts: None,
            heartbeat_interval: DEFAULT_HEARTBEAT_INTERVAL,
            heartbeat_timeout: DEFAULT_HEARTBEAT_TIMEOUT,
        }
    }

    /// The address of the server.
    pub closed spec fn endpoint_view(&self) -> Seq<char> {
        self.endpoint@
    }

    /// The key that the server asks for.
    pub closed spec fn apikey_view(&self) -> Seq<char> {
        self.apikey@
    }

    /// The bound on the attempts to reconnect that may fail in a row.
    pub closed spec fn max_attempts(&self) -> Option<u64> {
        self.reconnect_max_attempts
    }

    /// The delay before the first attempt to reconnect.
    pub closed spec fn reconnect_interval_spec(&self) -> u64 {
        self.reconnect_interval
    }

    /// The longest delay between two attempts to reconnect.
    pub closed spec fn reconnect_max_delay_spec(&self) -> u64 {
        self.reconnect_max_delay
    }

    /// The time between two heartbeats.
    pub closed spec fn heartbeat_interval_spec(&self) -> u64 {
        self.heartbeat_interval
    }

    /// The time that the answer to a heartbeat may take.
    pub closed spec fn heartbeat_timeout_spec(&self) -> u64 {
        self.heartbeat_timeout
    }

    /// Bounds the attempts to reconnect that may fail in a row.
    pub fn reconnect_max_attempts(&mut self, attempts: u64)
        ensures
            final(self).max_attempts() == Some(attempts),
            final(self).endpoint_view() == old(self).endpoint_view(),
            final(self).apikey_view() == old(self).apikey_view(),
            final(self).reconnect_interval_spec() == old(self).reconnect_interval_spec(),
            final(self).reconnect_max_delay_spec() == old(self).reconnect_max_delay_spec(),
            final(self).heartbeat_interval_spec() == old(self).heartbeat_interval_spec(),
            final(self).heartbeat_timeout_spec() == old(self).heartbeat_timeout_spec(),
    {
        self.reconnect_max_attempts = Some(attempts);
    }

    /// Sets the delay before the first attempt to reconnect and the longest
    /// delay between two attempts, in milliseconds.
    pub fn reconnect_interval(&mut self, base: u64, max_delay: u64)
        ensures
            final(self).reconnect_interval_spec() == base,
            final(self).reconnect_max_delay_spec() == max_delay,
            final(self).max_attempts() == old(self).max_attempts(),
            final(self).endpoint_view() == old(self).endpoint_view(),
            final(self).apikey_view() == old(self).apikey_view(),
            final(self).heartbeat_interval_spec() == old(self).heartbeat_interval_spec(),
            final(self).heartbeat_timeout_spec() == old(self).heartbeat_timeout_spec(),
    {
        self.reconnect_interval = base;
        self.reconnect_max_delay = max_delay;
    }

    /// Sets the time between two heartbeats and the time that an answer may
    /// take, in milliseconds.
    pub fn heartbeat(&mut self, interval: u64, timeout: u64)
        ensures
            final(self).heartbeat_interval_spec() == interval,
            final(self).heartbeat_timeout_spec() == timeout,
            final(self).max_attempts() == old(self).max_attempts(),
            final(self).endpoint_view() == old(self).endpoint_view(),
            final(self).apikey_view() == old(self).apikey_view(),
            final(self).reconnect_interval_spec() == old(self).reconnect_interval_spec(),
            final(self).reconnect_max_delay_spec() == old(self).reconnect_max_delay_spec(),
    {
        self.heartbeat_interval = interval;
        self.heartbeat_timeout = timeout;
    }

    /// A closed client with these settings and no channel.
    pub fn build(&self) -> (out: Client)
        ensures
            out.wf(),
            out.endpoint_view() == self.endpoint_view(),
            out.apikey_view() == self.apikey_view(),
            out@ == (ClientView {
                state: ConnectionState::Closed,
                backoff: crate::backoff::BackoffView {
                    base: self.reconnect_interval_spec() as nat,
                    cap: self.reconnect_max_delay_spec() as nat,
                    max_attempts: match self.max_attempts() {
                        Some(max) => Some(max as nat),
                        None => None,
                    },
                    failures: 0,
                },
                refs: RefsView { next: 1, session_start: 1 },
                channels: Seq::empty(),
                heartbeat: None,
                last_heartbeat: 0,
                reconnect_at: 0,
                connect_callback: None,
                connect_announced: false,
                heartbeat_interval: self.heartbeat_interval_spec(),
                heartbeat_timeout: self.heartbeat_timeout_spec(),
            }),
    {
        let out = Client {
            endpoint: self.endpoint.clone(),
            apikey: self.apikey.clone(),
            state: ConnectionState::Closed,
            backoff: Backoff::new(
                self.reconnect_interval,
                self.reconnect_max_delay,
                self.reconnect_max_attempts,
            ),
            refs: RefAllocator::new(),
            channels: Vec::new(),
            heartbeat: None,
            last_heartbeat: 0,
            reconnect_at: 0,
            connect_callback: None,
            connect_announced: false,
            heartbeat_interval: self.heartbeat_interval,
            heartbeat_timeout: self.heartbeat_timeout,
        };
        assert(out@.channels =~= Seq::empty());
        out
    }
}

impl Client {
    /// Whether the client is in order.
    pub closed spec fn wf(&self) -> bool {
        &&& self.backoff.wf()
        &&& self.refs.wf()
        &&& forall|i: int| 0 <= i < self.channels.len() ==> (#[trigger] self.channels[i]).wf()
        &&& self@.inv()
    }

    /// What `wf` says of the view.
    pub proof fn lemma_wf(&self)
        requires
            self.wf(),
        ensures
            self@.inv(),
    {
    }

    /// The address of the server.
    pub closed spec fn endpoint_view(&self) -> Seq<char> {
        self.endpoint@
    }

    /// The key that the server asks for.
    pub closed spec fn apikey_view(&self) -> Seq<char> {
        self.apikey@
    }

    /// The address of the server.
    pub fn endpoint(&self) -> (out: &String)
        ensures
            out@ == self.endpoint_view(),
    {
        &self.endpoint
    }

    /// The key that the server asks for.
    pub fn apikey(&self) -> (out: &String)
        ensures
            out@ == self.apikey_view(),
    {
        &self.apikey
    }

    /// The state of the connection.
    pub fn state(&self) -> (state: ConnectionState)
        ensures
            state == self@.state,
    {
        self.state
    }

    /// The number of channels.
    pub fn channel_count(&self) -> (n: usize)
        ensures
            n == self@.channels.len(),
    {
        self.channels.len()
    }

    /// The channel under `handle`, if there is one.
    pub fn get_channel(&self, handle: usize) -> (out: Option<&Channel>)
        requires
            self.wf(),
        ensures
            match out {
                Some(channel) => handle < self@.channels.len() && channel@ == self@.channels[handle as int]
                    && channel.wf(),
                None => handle >= self@.channels.len(),
            },
    {
        if handle < self.channels.len() {
            Some(&self.channels[handle])
        } else {
            None
        }
    }

    /// The state of the connection, for the callback that asked for it.
    pub fn connection_state(&self, callback: CallbackId) -> (out: HostEvent)
        ensures
            out@ == (HostEventView::ConnectionStatus { callback, state: self@.state }),
    {
        HostEvent::ConnectionStatus { callback, state: self.state }
    }

    /// Where the channel with the topic `topic` stands, if there is one.
    pub fn find_channel(&self, topic: &String) -> (found: Option<usize>)
        requires
            self.wf(),
        ensures
            match found {
                Some(i) => has_topic(self@.channels, topic@) && i as int == topic_index(
                    self@.channels,
                    topic@,
                ) && i < self@.channels.len() && self@.channels[i as int].topic == topic@,
                None => !has_topic(self@.channels, topic@),
            },
    {
        let mut i: usize = 0;
        while i < self.channels.len()
            invariant
                i <= self.channels.len(),
                self.wf(),
                forall|j: int| 0 <= j < i ==> (#[trigger] self@.channels[j]).topic != topic@,
            decreases self.channels.len() - i,
        {
            if *self.channels[i].topic() == *topic {
                proof {
                    let channels = self@.channels;
                    assert(channels[i as int].topic == topic@);
                    let index = topic_index(channels, topic@);
                    if index < i {
                        assert(channels[index].topic != channels[i as int].topic);
                    }
                    if index > i {
                        assert(channels[i as int].topic != channels[index].topic);
                    }
                }
                return Some(i);
            }
            i += 1;
        }
        None
    }

    /// Takes a closed channel into the client and hands back its handle.
    /// Where a closed channel of the client has the topic already, as
    /// after a leave, the new channel takes its place under its handle;
    /// otherwise it gets the next handle. A channel that is not closed is
    /// not taken, nor one whose topic a channel holds that is not closed:
    /// the answer is `None`.
    pub fn channel(&mut self, channel: Channel) -> (handle: Option<usize>)
        requires
            old(self).wf(),
            channel.wf(),
        ensures
            final(self).wf(),
            final(self).endpoint_view() == old(self).endpoint_view(),
            final(self).apikey_view() == old(self).apikey_view(),
            match handle {
                Some(i) => {
                    &&& channel@.state == ChannelState::Closed
                    &&& !topic_taken(old(self)@.channels, channel@.topic)
                    &&& i == handle_for(old(self)@.channels, channel@.topic)
                    &&& final(self)@ == (ClientView {
                        channels: registered(old(self)@.channels, channel@),
                        ..old(self)@
                    })
                },
                None => {
                    &&& channel@.state != ChannelState::Closed || topic_taken(
                        old(self)@.channels,
                        channel@.topic,
                    )
                    &&& final(self)@ == old(self)@
                },
            },
    {
        match channel.state() {
            ChannelState::Closed => {},
            _ => {
                return None;
            },
        }
        proof {
            channel.lemma_wf();
            self.refs.lemma_bounded();
        }
        let ghost before = self@;
        let ghost added = channel@;
        match self.find_channel(channel.topic()) {
            Some(index) => {
                match self.channels[index].state() {
                    ChannelState::Closed => {
                        proof {
                            lemma_closed_topic_is_free(before, index as int);
                            lemma_update_channel(before, index as int, added, before.refs);
                        }
                        self.channels.set(index, channel);
                        assert(self@.channels =~= before.channels.update(index as int, added));
                        Some(index)
                    },
                    _ => {
                        assert(before.channels[index as int].topic == added.topic);
                        None
                    },
                }
            },
            None => {
                let handle = self.channels.len();
                self.channels.push(channel);
                proof {
                    let after = self@.channels;
                    assert(after =~= before.channels.push(added));
                    assert forall|i: int, j: int| 0 <= i < j < after.len() implies (
                    #[trigger] after[i]).topic != (#[trigger] after[j]).topic by {
                        if j < before.channels.len() {
                            assert(before.channels[i].topic != before.channels[j].topic);
                        } else {
                            assert(before.channels[i].topic != added.topic);
                        }
                    }
                    assert forall|i: int| 0 <= i < after.len() implies (#[trigger] after[i]).inv()
                        && pending_live(after[i].pending, self@.refs) by {
                        if i < before.channels.len() {
                            assert(before.channels[i].inv());
                            assert(pending_live(before.channels[i].pending, self@.refs));
                        }
                    }
                    if topic_taken(before.channels, added.topic) {
                        let i = choose|i: int|
                            0 <= i < before.channels.len() && (#[trigger] before.channels[i]).topic
                                == added.topic && before.channels[i].state != ChannelState::Closed;
                        assert(has_topic(before.channels, added.topic));
                    }
                }
                Some(handle)
            },
        }
    }

    /// Asks for a connection. A client that is closed or waits to
    /// reconnect goes to `Connecting` and the caller is to open a socket;
    /// `callback` hears once how the attempt ended. Any other client stays
    /// as it is.
    pub fn connect(&mut self, callback: CallbackId) -> (action: Action)
        requires
            old(self).wf(),
        ensures
            final(self).wf(),
            final(self).endpoint_view() == old(self).endpoint_view(),
            final(self).apikey_view() == old(self).apikey_view(),
            final(self)@ == old(self)@.connecting(callback),
            action == if old(self)@.can_connect() {
                Action::OpenSocket
            } else {
                Action::Nothing
            },
    {
        match self.state {
            ConnectionState::Closed | ConnectionState::Reconnecting => {
                self.state = ConnectionState::Connecting;
                self.connect_callback = Some(callback);
                self.connect_announced = false;
                Action::OpenSocket
            },
            _ => Action::Nothing,
        }
    }

    /// Gives up: the client is closed with its channels, and the callback
    /// that asked for the connection hears of `error`.
    fn give_up(&mut self, error: ConnectError) -> (out: Vec<HostEvent>)
        requires
            old(self).wf(),
        ensures
            final(self).wf(),
            final(self).endpoint_view() == old(self).endpoint_view(),
            final(self).apikey_view() == old(self).apikey_view(),
            final(self)@ == old(self)@.ended(),
            events_view(out@) == old(self)@.give_up_events(error),
    {
        let mut out: Vec<HostEvent> = Vec::new();
        assert(events_view(out@) =~= Seq::empty());
        match self.connect_callback {
            Some(callback) => {
                let delivery = HostEvent::ConnectResult { callback, result: Err(error) };
                proof {
                    lemma_events_push(out@, delivery);
                }
                out.push(delivery);
            },
            None => {},
        }
        self.end();
        out
    }

    /// Takes the loss of the connection: the client waits for the next
    /// attempt, or gives up where none may be made.
    fn lose(&mut self, error: ConnectError, now: u64) -> (out: Vec<HostEvent>)
        requires
            old(self).wf(),
        ensures
            final(self).wf(),
            final(self).endpoint_view() == old(self).endpoint_view(),
            final(self).apikey_view() == old(self).apikey_view(),
            final(self)@ == old(self)@.lost(now),
            events_view(out@) == old(self)@.lost_events(error),
    {
        if self.backoff.may_retry() {
            let delay = self.backoff.delay();
            self.reconnect_at = if delay <= u64::MAX - now {
                now + delay
            } else {
                u64::MAX
            };
            self.backoff.record_failure();
            self.state = ConnectionState::Reconnecting;
            self.heartbeat = None;
            let out: Vec<HostEvent> = Vec::new();
            assert(events_view(out@) =~= Seq::empty());
            out
        } else {
            self.give_up(error)
        }
    }

    /// Looks at the timers. A heartbeat that has waited too long for its
    /// answer counts as the loss of the connection, and the caller is to
    /// close the socket. Where a heartbeat is due one is sent. Where the
    /// wait before the next attempt to connect is over the caller is to
    /// open a socket.
    pub fn tick(&mut self, now: u64) -> (out: Step)
        requires
            old(self).wf(),
        ensures
            final(self).wf(),
            final(self).endpoint_view() == old(self).endpoint_view(),
            final(self).apikey_view() == old(self).apikey_view(),
            final(self)@ == old(self)@.ticked(now),
            out.result == Ok::<(), NextMessageError>(()),
            out.action == old(self)@.ticked_action(now),
            outbound_view(out.send@) == old(self)@.ticked_frames(now),
            events_view(out.deliver@) == old(self)@.ticked_events(now),
    {
        let mut send: Vec<Outbound> = Vec::new();
        let mut deliver: Vec<HostEvent> = Vec::new();
        let mut action = Action::Nothing;
        assert(outbound_view(send@) =~= Seq::empty());
        assert(events_view(deliver@) =~= Seq::empty());
        match self.state {
            ConnectionState::Open => {
                match self.heartbeat {
                    Some(heartbeat) => {
                        let waited = if now >= heartbeat.sent_at {
                            now - heartbeat.sent_at
                        } else {
                            0
                        };
                        if waited >= self.heartbeat_timeout {
                            deliver = self.lose(ConnectError::Unreachable, now);
                            action = Action::CloseSocket;
                        }
                    },
                    None => {
                        let waited = if now >= self.last_heartbeat {
                            now - self.last_heartbeat
                        } else {
                            0
                        };
                        if waited >= self.heartbeat_interval {
                            match self.refs.allocate() {
                                Some(reference) => {
                                    self.heartbeat = Some(PendingHeartbeat { reference, sent_at: now });
                                    self.last_heartbeat = now;
                                    send.push(Outbound::Heartbeat { reference });
                                    proof {
                                        assert(outbound_view(send@) =~= seq![
                                            OutboundView::Heartbeat { reference },
                                        ]);
                                        let refs = self@.refs;
                                        assert forall|i: int| 0 <= i < self@.channels.len() implies pending_live(
                                            (#[trigger] self@.channels[i]).pending,
                                            refs,
                                        ) by {
                                            let channel = self@.channels[i];
                                            assert(pending_live(channel.pending, old(self)@.refs));
                                            assert forall|k: int|
                                                0 <= k < channel.pending.len() implies refs.is_live(
                                                (#[trigger] channel.pending[k]).reference as nat,
                                            ) by {
                                                assert(old(self)@.refs.is_live(
                                                    channel.pending[k].reference as nat,
                                                ));
                                            }
                                        }
                                    }
                                },
                                None => {},
                            }
                        }
                    },
                }
            },
            ConnectionState::Reconnecting => {
                if now >= self.reconnect_at {
                    self.state = ConnectionState::Connecting;
                    action = Action::OpenSocket;
                }
            },
            _ => {},
        }
        Step { result: Ok(()), action, send, deliver }
    }
}

impl Client {
    /// Closes every channel.
    fn close_channels(&mut self)
        requires
            old(self).wf(),
        ensures
            final(self)@ == (ClientView { channels: closed_all(old(self)@.channels), ..old(self)@ }),
            final(self).backoff == old(self).backoff,
            final(self).refs == old(self).refs,
            final(self).endpoint == old(self).endpoint,
            final(self).apikey == old(self).apikey,
            forall|i: int| 0 <= i < final(self).channels.len() ==> (#[trigger] final(self).channels[i]).wf(),
    {
        let ghost before = old(self)@.channels;
        let mut i: usize = 0;
        while i < self.channels.len()
            invariant
                i <= self.channels.len(),
                self.channels.len() == before.len(),
                before == old(self)@.channels,
                forall|j: int|
                    0 <= j < i ==> (#[trigger] self.channels[j])@ == before[j].cleared(ChannelState::Closed),
                forall|j: int| i <= j < self.channels.len() ==> (#[trigger] self.channels[j])@ == before[j],
                forall|j: int| 0 <= j < self.channels.len() ==> (#[trigger] self.channels[j]).wf(),
                self.endpoint == old(self).endpoint,
                self.apikey == old(self).apikey,
                self.state == old(self).state,
                self.backoff == old(self).backoff,
                self.refs == old(self).refs,
                self.heartbeat == old(self).heartbeat,
                self.last_heartbeat == old(self).last_heartbeat,
                self.reconnect_at == old(self).reconnect_at,
                self.connect_callback == old(self).connect_callback,
                self.connect_announced == old(self).connect_announced,
                self.heartbeat_interval == old(self).heartbeat_interval,
                self.heartbeat_timeout == old(self).heartbeat_timeout,
            decreases self.channels.len() - i,
        {
            self.channels[i].close();
            i += 1;
        }
        assert(self@.channels =~= closed_all(before));
    }

    /// Takes the end of the connection: the client is closed, and every
    /// channel with it.
    fn end(&mut self)
        requires
            old(self).wf(),
        ensures
            final(self).wf(),
            final(self).endpoint_view() == old(self).endpoint_view(),
            final(self).apikey_view() == old(self).apikey_view(),
            final(self)@ == old(self)@.ended(),
    {
        self.close_channels();
        self.state = ConnectionState::Closed;
        self.heartbeat = None;
        self.connect_callback = None;
        self.connect_announced = false;
        self.backoff.record_success();
        proof {
            let before = old(self)@.channels;
            let after = self@.channels;
            assert forall|i: int, j: int| 0 <= i < j < after.len() implies (#[trigger] after[i]).topic != (
            #[trigger] after[j]).topic by {
                assert(before[i].topic != before[j].topic);
            }
            assert forall|i: int| 0 <= i < after.len() implies (#[trigger] after[i]).inv() && pending_live(
                after[i].pending,
                self@.refs,
            ) by {
                self.channels[i].lemma_wf();
            }
        }
    }

    /// Asks to end the connection. With a socket at hand the client goes
    /// to `Closing` and the caller is to close the socket; a client that
    /// waits to reconnect is closed at once, with its channels.
    pub fn disconnect(&mut self) -> (action: Action)
        requires
            old(self).wf(),
        ensures
            final(self).wf(),
            final(self).endpoint_view() == old(self).endpoint_view(),
            final(self).apikey_view() == old(self).apikey_view(),
            final(self)@ == old(self)@.disconnecting(),
            action == if old(self)@.can_disconnect() {
                Action::CloseSocket
            } else {
                Action::Nothing
            },
    {
        match self.state {
            ConnectionState::Open | ConnectionState::Connecting => {
                self.state = ConnectionState::Closing;
                self.heartbeat = None;
                Action::CloseSocket
            },
            ConnectionState::Reconnecting => {
                self.end();
                Action::Nothing
            },
            _ => Action::Nothing,
        }
    }

    /// Takes the opening of the socket: a new session begins, and every
    /// channel that was joined or being joined is joined anew.
    fn open(&mut self, now: u64) -> (out: (Vec<Outbound>, Vec<HostEvent>))
        requires
            old(self).wf(),
            old(self)@.state == ConnectionState::Connecting,
        ensures
            final(self).wf(),
            final(self).endpoint_view() == old(self).endpoint_view(),
            final(self).apikey_view() == old(self).apikey_view(),
            final(self)@ == old(self)@.opened(now),
            outbound_view(out.0@) == rejoin_frames(old(self)@.channels, old(self)@.refs.next),
            events_view(out.1@) == old(self)@.opened_events(),
    {
        let mut send: Vec<Outbound> = Vec::new();
        let mut deliver: Vec<HostEvent> = Vec::new();
        assert(outbound_view(send@) =~= Seq::empty());
        assert(events_view(deliver@) =~= Seq::empty());
        match self.connect_callback {
            Some(callback) => {
                if !self.connect_announced {
                    deliver.push(HostEvent::ConnectResult { callback, result: Ok(()) });
                    assert(events_view(deliver@) =~= seq![
                        HostEventView::ConnectResult { callback, result: Ok(()) },
                    ]);
                }
            },
            None => {},
        }
        self.state = ConnectionState::Open;
        self.backoff.record_success();
        self.refs.new_session();
        self.heartbeat = None;
        self.last_heartbeat = now;
        self.connect_announced = true;
        let ghost before = old(self)@.channels;
        let ghost start = old(self)@.refs.next;
        proof {
            old(self).refs.lemma_bounded();
            assert(before.take(0) =~= Seq::empty());
        }
        let mut i: usize = 0;
        while i < self.channels.len()
            invariant
                i <= self.channels.len(),
                self.channels.len() == before.len(),
                before == old(self)@.channels,
                start == old(self)@.refs.next,
                start <= u64::MAX,
                forall|j: int|
                    0 <= j < i ==> (#[trigger] self.channels[j])@ == before[j].rejoined(
                        refs_after_rejoin(before.take(j), start),
                        now,
                    ),
                forall|j: int| i <= j < self.channels.len() ==> (#[trigger] self.channels[j])@ == before[j],
                forall|j: int| 0 <= j < self.channels.len() ==> (#[trigger] self.channels[j]).wf(),
                self.refs.wf(),
                self.refs@ == (RefsView {
                    next: refs_after_rejoin(before.take(i as int), start),
                    session_start: start,
                }),
                outbound_view(send@) == rejoin_frames(before.take(i as int), start),
                self.endpoint == old(self).endpoint,
                self.apikey == old(self).apikey,
                self.state == ConnectionState::Open,
                self.backoff.wf(),
                self.backoff@ == old(self)@.backoff.succeeded(),
                self.heartbeat is None,
                self.last_heartbeat == now,
                self.reconnect_at == old(self).reconnect_at,
                self.connect_callback == old(self).connect_callback,
                self.connect_announced,
                self.heartbeat_interval == old(self).heartbeat_interval,
                self.heartbeat_timeout == old(self).heartbeat_timeout,
            decreases self.channels.len() - i,
        {
            let ghost sent = outbound_view(send@);
            let frame = self.channels[i].rejoin(&mut self.refs, now);
            proof {
                assert(before.take(i + 1).drop_last() =~= before.take(i as int));
                assert(before.take(i + 1).last() == before[i as int]);
                self.refs.lemma_bounded();
            }
            match frame {
                Some(frame) => {
                    send.push(frame);
                    assert(outbound_view(send@) =~= sent.push(frame@));
                },
                None => {},
            }
            i += 1;
        }
        proof {
            assert(before.take(before.len() as int) =~= before);
            assert forall|j: int| 0 <= j < before.len() implies self@.channels[j] == rejoined_all(
                before,
                start,
                now,
            )[j] by {
                lemma_rejoined_index(before, start, now, j);
            }
            crate::client_model::lemma_rejoined_len(before, start, now);
            assert(self@.channels =~= rejoined_all(before, start, now));
            lemma_rejoin_all(before, start, now);
        }
        (send, deliver)
    }

    /// Takes a frame in while the connection is open: the answer to the
    /// heartbeat that waits ends that wait, and anything else goes to the
    /// channel with the frame's topic, if there is one.
    fn route(&mut self, inbound: Inbound) -> (out: Vec<HostEvent>)
        requires
            old(self).wf(),
            inbound.event.wf(),
            old(self)@.state == ConnectionState::Open,
        ensures
            final(self).wf(),
            final(self).endpoint_view() == old(self).endpoint_view(),
            final(self).apikey_view() == old(self).apikey_view(),
            final(self)@ == old(self)@.handled(
                SocketEventView::Frame { topic: inbound.topic@, event: inbound.event@ },
                0,
            ),
            old(self)@.handled_delivers(
                SocketEventView::Frame { topic: inbound.topic@, event: inbound.event@ },
                events_view(out@),
            ),
    {
        let Inbound { topic, event } = inbound;
        let phoenix = "phoenix".to_owned();
        let answers = topic == phoenix && match (&event, self.heartbeat) {
            (ServerEvent::Reply { reference, .. }, Some(heartbeat)) => *reference == heartbeat.reference,
            _ => false,
        };
        assert(answers == old(self)@.answers_heartbeat(topic@, event@));
        if answers {
            self.heartbeat = None;
            let out: Vec<HostEvent> = Vec::new();
            assert(events_view(out@) =~= Seq::empty());
            return out;
        }
        match self.find_channel(&topic) {
            Some(index) => {
                let ghost before = self@.channels;
                let ghost ev = event@;
                let out = self.channels[index].receive(event);
                proof {
                    let after = self@.channels;
                    let changed = before[index as int].received(ev);
                    assert(after =~= before.update(index as int, changed));
                    self.channels[index as int].lemma_wf();
                    assert forall|i: int, j: int| 0 <= i < j < after.len() implies (
                    #[trigger] after[i]).topic != (#[trigger] after[j]).topic by {
                        assert(before[i].topic != before[j].topic);
                    }
                    assert forall|i: int| 0 <= i < after.len() implies (#[trigger] after[i]).inv()
                        && pending_live(after[i].pending, self@.refs) by {
                        assert(before[i].inv());
                        assert(pending_live(before[i].pending, self@.refs));
                        if i == index {
                            assert forall|k: int| 0 <= k < changed.pending.len() implies self@.refs.is_live(
                                (#[trigger] changed.pending[k]).reference as nat,
                            ) by {
                                assert(before[i].pending.contains(changed.pending[k]));
                                let m = choose|m: int|
                                    0 <= m < before[i].pending.len() && before[i].pending[m]
                                        == changed.pending[k];
                                assert(self@.refs.is_live(before[i].pending[m].reference as nat));
                            }
                        }
                    }
                }
                out
            },
            None => {
                let out: Vec<HostEvent> = Vec::new();
                assert(events_view(out@) =~= Seq::empty());
                out
            },
        }
    }

    /// Takes in what the socket did. The opening of the socket begins a
    /// session; a failure or the end of the socket leads to the next
    /// attempt or, where none may be made or the server refused the
    /// credentials, to the end; a frame goes to its channel. What could
    /// not be read or understood changes nothing.
    pub fn handle(&mut self, event: SocketEvent, now: u64) -> (out: Step)
        requires
            old(self).wf(),
            event.wf(),
        ensures
            final(self).wf(),
            final(self).endpoint_view() == old(self).endpoint_view(),
            final(self).apikey_view() == old(self).apikey_view(),
            final(self)@ == old(self)@.handled(event@, now),
            out.result == step_result(event@),
            out.action == Action::Nothing,
            outbound_view(out.send@) == old(self)@.handled_frames(event@),
            old(self)@.handled_delivers(event@, events_view(out.deliver@)),
    {
        let mut send: Vec<Outbound> = Vec::new();
        let mut deliver: Vec<HostEvent> = Vec::new();
        assert(outbound_view(send@) =~= Seq::empty());
        assert(events_view(deliver@) =~= Seq::empty());
        let result = match event {
            SocketEvent::Opened => {
                match self.state {
                    ConnectionState::Connecting => {
                        let (frames, events) = self.open(now);
                        send = frames;
                        deliver = events;
                    },
                    _ => {},
                }
                Ok(())
            },
            SocketEvent::Failed(error) => {
                match self.state {
                    ConnectionState::Connecting => {
                        match error {
                            ConnectError::AuthRejected => {
                                deliver = self.give_up(error);
                            },
                            _ => {
                                deliver = self.lose(error, now);
                            },
                        }
                    },
                    _ => {},
                }
                Ok(())
            },
            SocketEvent::Frame(inbound) => {
                match self.state {
                    ConnectionState::Open => {
                        deliver = self.route(inbound);
                    },
                    _ => {},
                }
                Ok(())
            },
            SocketEvent::Malformed => Err(NextMessageError::Malformed),
            SocketEvent::WouldBlock => Err(NextMessageError::WouldBlock),
            SocketEvent::Closed => {
                match self.state {
                    ConnectionState::Open | ConnectionState::Connecting => {
                        deliver = self.lose(ConnectError::Unreachable, now);
                    },
                    ConnectionState::Closing => {
                        self.end();
                    },
                    _ => {},
                }
                Err(NextMessageError::Closed)
            },
        };
        Step { result, action: Action::Nothing, send, deliver }
    }

    /// One step of the client: what the socket did is taken in, then the
    /// timers are looked at. The answer says what became of the socket's
    /// event; what is to be sent and delivered comes from both, in that
    /// order.
    pub fn step(&mut self, event: SocketEvent, now: u64) -> (out: Step)
        requires
            old(self).wf(),
            event.wf(),
        ensures
            final(self).wf(),
            final(self).endpoint_view() == old(self).endpoint_view(),
            final(self).apikey_view() == old(self).apikey_view(),
            final(self)@ == old(self)@.stepped(event@, now),
            out.result == step_result(event@),
            out.action == old(self)@.handled(event@, now).ticked_action(now),
            outbound_view(out.send@) == old(self)@.handled_frames(event@) + old(self)@.handled(
                event@,
                now,
            ).ticked_frames(now),
            exists|first: Seq<HostEventView>|
                #![trigger old(self)@.handled_delivers(event@, first)]
                {
                    &&& old(self)@.handled_delivers(event@, first)
                    &&& events_view(out.deliver@) == first + old(self)@.handled(event@, now).ticked_events(
                        now,
                    )
                },
    {
        let ghost ev = event@;
        let mut taken = self.handle(event, now);
        let mut timed = self.tick(now);
        let ghost first = events_view(taken.deliver@);
        proof {
            crate::dispatch::lemma_events_concat(taken.deliver@, timed.deliver@);
            assert(outbound_view(taken.send@ + timed.send@) =~= outbound_view(taken.send@) + outbound_view(
                timed.send@,
            ));
        }
        taken.send.append(&mut timed.send);
        taken.deliver.append(&mut timed.deliver);
        proof {
            assert(old(self)@.handled_delivers(ev, first));
        }
        Step { result: taken.result, action: timed.action, send: taken.send, deliver: taken.deliver }
    }
}

impl Client {
    /// Joins the channel under `handle`. With the connection open the join
    /// is handed back to be sent; otherwise the channel waits in `Joining`
    /// and is joined when the connection opens.
    pub fn subscribe(&mut self, handle: usize, now: u64) -> (out: Result<Option<Outbound>, RequestError>)
        requires
            old(self).wf(),
        ensures
            final(self).wf(),
            final(self).endpoint_view() == old(self).endpoint_view(),
            final(self).apikey_view() == old(self).apikey_view(),
            match out {
                Ok(frame) => {
                    let channel = old(self)@.channels[handle as int];
                    let reference = old(self)@.refs.next as u64;
                    &&& handle < old(self)@.channels.len()
                    &&& can_subscribe(channel.state)
                    &&& old(self)@.refs.next < u64::MAX
                    &&& final(self)@ == (ClientView {
                        channels: old(self)@.channels.update(handle as int, channel.joining(reference, now)),
                        refs: old(self)@.refs.allocated(),
                        ..old(self)@
                    })
                    &&& match frame {
                        Some(frame) => old(self)@.state == ConnectionState::Open && frame@ == (
                        OutboundView::Join {
                            topic: channel.topic,
                            reference,
                            payload: channel.join_payload(),
                        }),
                        None => old(self)@.state != ConnectionState::Open,
                    }
                },
                Err(RequestError::UnknownChannel) => handle >= old(self)@.channels.len() && final(self)@
                    == old(self)@,
                Err(RequestError::InvalidState(state)) => {
                    &&& handle < old(self)@.channels.len()
                    &&& !can_subscribe(old(self)@.channels[handle as int].state)
                    &&& state == old(self)@.channels[handle as int].state
                    &&& final(self)@ == old(self)@
                },
                Err(RequestError::RefsExhausted) => {
                    &&& handle < old(self)@.channels.len()
                    &&& can_subscribe(old(self)@.channels[handle as int].state)
                    &&& old(self)@.refs.next == u64::MAX
                    &&& final(self)@ == old(self)@
                },
                Err(_) => false,
            },
    {
        if handle >= self.channels.len() {
            return Err(RequestError::UnknownChannel);
        }
        let ghost before = self@;
        let out = self.channels[handle].subscribe(&mut self.refs, now);
        proof {
            self.refs.lemma_bounded();
            self.channels[handle as int].lemma_wf();
            assert(pending_live(before.channels[handle as int].pending, before.refs));
        }
        match out {
            Ok(frame) => {
                proof {
                    let changed = before.channels[handle as int].joining(before.refs.next as u64, now);
                    assert(self@.channels =~= before.channels.update(handle as int, changed));
                    lemma_update_channel(before, handle as int, changed, self@.refs);
                }
                match self.state {
                    ConnectionState::Open => Ok(Some(frame)),
                    _ => Ok(None),
                }
            },
            Err(error) => {
                proof {
                    assert(self@.channels =~= before.channels);
                }
                Err(error)
            },
        }
    }

    /// Leaves the channel under `handle`. With the connection open the
    /// leave is handed back to be sent; otherwise the channel waits in
    /// `Leaving` and is closed when the connection opens.
    pub fn unsubscribe(&mut self, handle: usize, now: u64) -> (out: Result<Option<Outbound>, RequestError>)
        requires
            old(self).wf(),
        ensures
            final(self).wf(),
            final(self).endpoint_view() == old(self).endpoint_view(),
            final(self).apikey_view() == old(self).apikey_view(),
            match out {
                Ok(frame) => {
                    let channel = old(self)@.channels[handle as int];
                    let reference = old(self)@.refs.next as u64;
                    &&& handle < old(self)@.channels.len()
                    &&& can_unsubscribe(channel.state)
                    &&& old(self)@.refs.next < u64::MAX
                    &&& final(self)@ == (ClientView {
                        channels: old(self)@.channels.update(handle as int, channel.leaving(reference, now)),
                        refs: old(self)@.refs.allocated(),
                        ..old(self)@
                    })
                    &&& match frame {
                        Some(frame) => old(self)@.state == ConnectionState::Open && frame@ == (
                        OutboundView::Leave { topic: channel.topic, reference }),
                        None => old(self)@.state != ConnectionState::Open,
                    }
                },
                Err(RequestError::UnknownChannel) => handle >= old(self)@.channels.len() && final(self)@
                    == old(self)@,
                Err(RequestError::InvalidState(state)) => {
                    &&& handle < old(self)@.channels.len()
                    &&& !can_unsubscribe(old(self)@.channels[handle as int].state)
                    &&& state == old(self)@.channels[handle as int].state
                    &&& final(self)@ == old(self)@
                },
                Err(RequestError::RefsExhausted) => {
                    &&& handle < old(self)@.channels.len()
                    &&& can_unsubscribe(old(self)@.channels[handle as int].state)
                    &&& old(self)@.refs.next == u64::MAX
                    &&& final(self)@ == old(self)@
                },
                Err(_) => false,
            },
    {
        if handle >= self.channels.len() {
            return Err(RequestError::UnknownChannel);
        }
        let ghost before = self@;
        let out = self.channels[handle].unsubscribe(&mut self.refs, now);
        proof {
            self.refs.lemma_bounded();
            self.channels[handle as int].lemma_wf();
            assert(pending_live(before.channels[handle as int].pending, before.refs));
        }
        match out {
            Ok(frame) => {
                proof {
                    let changed = before.channels[handle as int].leaving(before.refs.next as u64, now);
                    assert(self@.channels =~= before.channels.update(handle as int, changed));
                    lemma_update_channel(before, handle as int, changed, self@.refs);
                }
                match self.state {
                    ConnectionState::Open => Ok(Some(frame)),
                    _ => Ok(None),
                }
            },
            Err(error) => {
                proof {
                    assert(self@.channels =~= before.channels);
                }
                Err(error)
            },
        }
    }

    /// Sends a broadcast on the channel under `handle`. The connection
    /// must be open and the channel joined. The broadcast is handed back
    /// to be sent; where the channel asks for acknowledgements it waits
    /// for its answer, which `callback` hears of if there is one.
    pub fn broadcast(
        &mut self,
        handle: usize,
        event: &str,
        payload: Json,
        callback: Option<CallbackId>,
        now: u64,
    ) -> (out: Result<Outbound, RequestError>)
        requires
            old(self).wf(),
        ensures
            final(self).wf(),
            final(self).endpoint_view() == old(self).endpoint_view(),
            final(self).apikey_view() == old(self).apikey_view(),
            match out {
                Ok(frame) => {
                    let channel = old(self)@.channels[handle as int];
                    let reference = old(self)@.refs.next as u64;
                    &&& handle < old(self)@.channels.len()
                    &&& old(self)@.state == ConnectionState::Open
                    &&& channel.state == ChannelState::Joined
                    &&& if channel.broadcast.ack {
                        &&& old(self)@.refs.next < u64::MAX
                        &&& frame@ == (OutboundView::Broadcast {
                            topic: channel.topic,
                            reference: Some(reference),
                            event: event@,
                            payload: payload@,
                        })
                        &&& final(self)@ == (ClientView {
                            channels: old(self)@.channels.update(
                                handle as int,
                                channel.awaiting_ack(reference, callback, now),
                            ),
                            refs: old(self)@.refs.allocated(),
                            ..old(self)@
                        })
                    } else {
                        &&& frame@ == (OutboundView::Broadcast {
                            topic: channel.topic,
                            reference: None,
                            event: event@,
                            payload: payload@,
                        })
                        &&& final(self)@ == old(self)@
                    }
                },
                Err(RequestError::UnknownChannel) => handle >= old(self)@.channels.len() && final(self)@
                    == old(self)@,
                Err(RequestError::NotConnected) => {
                    &&& handle < old(self)@.channels.len()
                    &&& old(self)@.state != ConnectionState::Open
                    &&& final(self)@ == old(self)@
                },
                Err(RequestError::InvalidState(state)) => {
                    &&& handle < old(self)@.channels.len()
                    &&& old(self)@.state == ConnectionState::Open
                    &&& old(self)@.channels[handle as int].state != ChannelState::Joined
                    &&& state == old(self)@.channels[handle as int].state
                    &&& final(self)@ == old(self)@
                },
                Err(RequestError::RefsExhausted) => {
                    &&& handle < old(self)@.channels.len()
                    &&& old(self)@.state == ConnectionState::Open
                    &&& old(self)@.channels[handle as int].state == ChannelState::Joined
                    &&& old(self)@.channels[handle as int].broadcast.ack
                    &&& old(self)@.refs.next == u64::MAX
                    &&& final(self)@ == old(self)@
                },
                Err(_) => false,
            },
    {
        if handle >= self.channels.len() {
            return Err(RequestError::UnknownChannel);
        }
        match self.state {
            ConnectionState::Open => {},
            _ => {
                return Err(RequestError::NotConnected);
            },
        }
        let ghost before = self@;
        assert(pending_live(before.channels[handle as int].pending, before.refs));
        let out = self.channels[handle].broadcast(&mut self.refs, event, payload, callback, now);
        proof {
            self.refs.lemma_bounded();
            self.channels[handle as int].lemma_wf();
            let changed = self@.channels[handle as int];
            assert(self@.channels =~= before.channels.update(handle as int, changed));
            if out is Ok && before.channels[handle as int].broadcast.ack {
                lemma_update_channel(before, handle as int, changed, self@.refs);
            } else {
                assert(self@.channels =~= before.channels);
            }
        }
        out
    }

    /// Asks the server to track `payload` as this client's presence on the
    /// channel under `handle`. The connection must be open and the channel
    /// joined. Nothing changes here.
    pub fn track_presence(&self, handle: usize, payload: Json) -> (out: Result<Outbound, RequestError>)
        requires
            self.wf(),
        ensures
            match out {
                Ok(frame) => {
                    &&& handle < self@.channels.len()
                    &&& self@.state == ConnectionState::Open
                    &&& self@.channels[handle as int].state == ChannelState::Joined
                    &&& frame@ == (OutboundView::Track {
                        topic: self@.channels[handle as int].topic,
                        payload: payload@,
                    })
                },
                Err(RequestError::UnknownChannel) => handle >= self@.channels.len(),
                Err(RequestError::NotConnected) => handle < self@.channels.len() && self@.state
                    != ConnectionState::Open,
                Err(RequestError::InvalidState(state)) => {
                    &&& handle < self@.channels.len()
                    &&& self@.state == ConnectionState::Open
                    &&& self@.channels[handle as int].state != ChannelState::Joined
                    &&& state == self@.channels[handle as int].state
                },
                Err(_) => false,
            },
    {
        if handle >= self.channels.len() {
            return Err(RequestError::UnknownChannel);
        }
        match self.state {
            ConnectionState::Open => self.channels[handle].track_presence(payload),
            _ => Err(RequestError::NotConnected),
        }
    }

    /// Asks the server to track this client's presence on the channel
    /// under `handle` no longer. The connection must be open and the
    /// channel joined. Nothing changes here.
    pub fn untrack_presence(&self, handle: usize) -> (out: Result<Outbound, RequestError>)
        requires
            self.wf(),
        ensures
            match out {
                Ok(frame) => {
                    &&& handle < self@.channels.len()
                    &&& self@.state == ConnectionState::Open
                    &&& self@.channels[handle as int].state == ChannelState::Joined
                    &&& frame@ == (OutboundView::Untrack { topic: self@.channels[handle as int].topic })
                },
                Err(RequestError::UnknownChannel) => handle >= self@.channels.len(),
                Err(RequestError::NotConnected) => handle < self@.channels.len() && self@.state
                    != ConnectionState::Open,
                Err(RequestError::InvalidState(state)) => {
                    &&& handle < self@.channels.len()
                    &&& self@.state == ConnectionState::Open
                    &&& self@.channels[handle as int].state != ChannelState::Joined
                    &&& state == self@.channels[handle as int].state
                },
                Err(_) => false,
            },
    {
        if handle >= self.channels.len() {
            return Err(RequestError::UnknownChannel);
        }
        match self.state {
            ConnectionState::Open => self.channels[handle].untrack_presence(),
            _ => Err(RequestError::NotConnected),
        }
    }

    /// The state of the channel under `handle`, for the callback that
    /// asked for it; `None` where there is no such channel.
    pub fn channel_state(&self, handle: usize, callback: CallbackId) -> (out: Option<HostEvent>)
        ensures
            match out {
                Some(event) => handle < self@.channels.len() && event@ == (HostEventView::ChannelStatus {
                    callback,
                    state: self@.channels[handle as int].state,
                }),
                None => handle >= self@.channels.len(),
            },
    {
        if handle < self.channels.len() {
            Some(self.channels[handle].channel_state(callback))
        } else {
            None
        }
    }

    /// Who is present on the channel under `handle`, for the callback that
    /// asked for it; `None` where there is no such channel.
    pub fn presence_state(&self, handle: usize, callback: CallbackId) -> (out: Option<HostEvent>)
        ensures
            match out {
                Some(event) => handle < self@.channels.len() && event@ == (
                HostEventView::PresenceSnapshot { callback, state: self@.channels[handle as int].presence }),
                None => handle >= self@.channels.len(),
            },
    {
        if handle < self.channels.len() {
            Some(self.channels[handle].presence_state(callback))
        } else {
            None
        }
    }

    /// Takes a new access token for all channels. With the connection
    /// open, the requests that tell the server of it are handed back, one
    /// for each channel that is joined; the other channels send the token
    /// with their next join.
    pub fn set_access_token(&mut self, token: &str) -> (out: Vec<Outbound>)
        requires
            old(self).wf(),
        ensures
            final(self).wf(),
            final(self).endpoint_view() == old(self).endpoint_view(),
            final(self).apikey_view() == old(self).apikey_view(),
            final(self)@ == (ClientView {
                channels: with_token(old(self)@.channels, token@),
                ..old(self)@
            }),
            outbound_view(out@) == if old(self)@.state == ConnectionState::Open {
                token_frames(old(self)@.channels, token@)
            } else {
                Seq::empty()
            },
    {
        let ghost before = old(self)@.channels;
        let mut send: Vec<Outbound> = Vec::new();
        assert(outbound_view(send@) =~= Seq::empty());
        assert(before.take(0) =~= Seq::empty());
        let open = match self.state {
            ConnectionState::Open => true,
            _ => false,
        };
        let mut i: usize = 0;
        while i < self.channels.len()
            invariant
                i <= self.channels.len(),
                self.channels.len() == before.len(),
                before == old(self)@.channels,
                open == (old(self)@.state == ConnectionState::Open),
                forall|j: int|
                    0 <= j < i ==> (#[trigger] self.channels[j])@ == (ChannelView {
                        access_token: Some(token@),
                        ..before[j]
                    }),
                forall|j: int| i <= j < self.channels.len() ==> (#[trigger] self.channels[j])@ == before[j],
                forall|j: int| 0 <= j < self.channels.len() ==> (#[trigger] self.channels[j]).wf(),
                outbound_view(send@) == if open {
                    token_frames(before.take(i as int), token@)
                } else {
                    Seq::empty()
                },
                self.endpoint == old(self).endpoint,
                self.apikey == old(self).apikey,
                self.state == old(self).state,
                self.backoff == old(self).backoff,
                self.refs == old(self).refs,
                self.heartbeat == old(self).heartbeat,
                self.last_heartbeat == old(self).last_heartbeat,
                self.reconnect_at == old(self).reconnect_at,
                self.connect_callback == old(self).connect_callback,
                self.connect_announced == old(self).connect_announced,
                self.heartbeat_interval == old(self).heartbeat_interval,
                self.heartbeat_timeout == old(self).heartbeat_timeout,
            decreases self.channels.len() - i,
        {
            let ghost sent = outbound_view(send@);
            let frame = self.channels[i].set_access_token(token);
            proof {
                assert(before.take(i + 1).drop_last() =~= before.take(i as int));
                assert(before.take(i + 1).last() == before[i as int]);
            }
            match frame {
                Some(frame) => {
                    if open {
                        send.push(frame);
                        assert(outbound_view(send@) =~= sent.push(frame@));
                    }
                },
                None => {},
            }
            i += 1;
        }
        proof {
            assert(before.take(before.len() as int) =~= before);
            let after = self@.channels;
            assert(after =~= with_token(before, token@));
            assert forall|a: int, b: int| 0 <= a < b < after.len() implies (#[trigger] after[a]).topic != (
            #[trigger] after[b]).topic by {
                assert(before[a].topic != before[b].topic);
            }
            assert forall|a: int| 0 <= a < after.len() implies (#[trigger] after[a]).inv() && pending_live(
                after[a].pending,
                self@.refs,
            ) by {
                self.channels[a].lemma_wf();
                assert(pending_live(before[a].pending, self@.refs));
            }
        }
        send
    }

    /// Registers a callback for the broadcasts under the name `event` on
    /// the channel under `handle`; `false` where there is no such channel.
    pub fn on_broadcast(&mut self, handle: usize, event: &str, callback: CallbackId) -> (done: bool)
        requires
            old(self).wf(),
        ensures
            final(self).wf(),
            final(self).endpoint_view() == old(self).endpoint_view(),
            final(self).apikey_view() == old(self).apikey_view(),
            done == (handle < old(self)@.channels.len()),
            final(self)@ == if done {
                let channel = old(self)@.channels[handle as int];
                ClientView {
                    channels: old(self)@.channels.update(
                        handle as int,
                        ChannelView { broadcasts: channel.broadcasts.push((event@, callback)), ..channel },
                    ),
                    ..old(self)@
                }
            } else {
                old(self)@
            },
    {
        if handle >= self.channels.len() {
            return false;
        }
        let ghost before = self@;
        self.channels[handle].on_broadcast(event, callback);
        proof {
            self.refs.lemma_bounded();
            self.channels[handle as int].lemma_wf();
            let changed = self@.channels[handle as int];
            assert(self@.channels =~= before.channels.update(handle as int, changed));
            assert(pending_live(before.channels[handle as int].pending, before.refs));
            lemma_update_channel(before, handle as int, changed, self@.refs);
        }
        true
    }

    /// Registers a callback for presence events of one kind on the channel
    /// under `handle`; `false` where there is no such channel.
    pub fn on_presence(&mut self, handle: usize, event: PresenceEvent, callback: CallbackId) -> (done: bool)
        requires
            old(self).wf(),
        ensures
            final(self).wf(),
            final(self).endpoint_view() == old(self).endpoint_view(),
            final(self).apikey_view() == old(self).apikey_view(),
            done == (handle < old(self)@.channels.len()),
            final(self)@ == if done {
                let channel = old(self)@.channels[handle as int];
                ClientView {
                    channels: old(self)@.channels.update(
                        handle as int,
                        ChannelView {
                            presences: channel.presences.push(
                                crate::channel_model::PresenceBinding { event, callback },
                            ),
                            ..channel
                        },
                    ),
                    ..old(self)@
                }
            } else {
                old(self)@
            },
    {
        if handle >= self.channels.len() {
            return false;
        }
        let ghost before = self@;
        self.channels[handle].on_presence(event, callback);
        proof {
            self.refs.lemma_bounded();
            self.channels[handle as int].lemma_wf();
            let changed = self@.channels[handle as int];
            assert(self@.channels =~= before.channels.update(handle as int, changed));
            assert(pending_live(before.channels[handle as int].pending, before.refs));
            lemma_update_channel(before, handle as int, changed, self@.refs);
        }
        true
    }
}

impl Client {
    /// Takes a closed channel into the client and joins it at once. The
    /// answer is the channel's handle and, with the connection open, the
    /// join to be sent. The topic of a channel that was left is free: the
    /// new channel takes the place of a closed channel with its topic.
    /// Not taken are a channel that is not closed, one whose topic a
    /// channel holds that is not closed, and any when no reference is
    /// left.
    pub fn open_channel(&mut self, channel: Channel, now: u64) -> (out: Result<
        (usize, Option<Outbound>),
        RequestError,
    >)
        requires
            old(self).wf(),
            channel.wf(),
        ensures
            final(self).wf(),
            final(self).endpoint_view() == old(self).endpoint_view(),
            final(self).apikey_view() == old(self).apikey_view(),
            match out {
                Ok((handle, frame)) => {
                    let reference = old(self)@.refs.next as u64;
                    &&& channel@.state == ChannelState::Closed
                    &&& !topic_taken(old(self)@.channels, channel@.topic)
                    &&& old(self)@.refs.next < u64::MAX
                    &&& handle == handle_for(old(self)@.channels, channel@.topic)
                    &&& final(self)@ == (ClientView {
                        channels: registered(old(self)@.channels, channel@.joining(reference, now)),
                        refs: old(self)@.refs.allocated(),
                        ..old(self)@
                    })
                    &&& match frame {
                        Some(frame) => old(self)@.state == ConnectionState::Open && frame@ == (
                        OutboundView::Join {
                            topic: channel@.topic,
                            reference,
                            payload: channel@.join_payload(),
                        }),
                        None => old(self)@.state != ConnectionState::Open,
                    }
                },
                Err(RequestError::InvalidState(state)) => {
                    &&& channel@.state != ChannelState::Closed
                    &&& state == channel@.state
                    &&& final(self)@ == old(self)@
                },
                Err(RequestError::DuplicateTopic) => {
                    &&& channel@.state == ChannelState::Closed
                    &&& topic_taken(old(self)@.channels, channel@.topic)
                    &&& final(self)@ == old(self)@
                },
                Err(RequestError::RefsExhausted) => {
                    &&& channel@.state == ChannelState::Closed
                    &&& !topic_taken(old(self)@.channels, channel@.topic)
                    &&& old(self)@.refs.next == u64::MAX
                    &&& final(self)@ == old(self)@
                },
                Err(_) => false,
            },
    {
        match channel.state() {
            ChannelState::Closed => {},
            state => {
                return Err(RequestError::InvalidState(state));
            },
        }
        let ghost before = self@;
        let ghost added = channel@;
        match self.find_channel(channel.topic()) {
            Some(index) => {
                match self.channels[index].state() {
                    ChannelState::Closed => {
                        proof {
                            lemma_closed_topic_is_free(before, index as int);
                        }
                    },
                    _ => {
                        assert(before.channels[index as int].topic == added.topic);
                        return Err(RequestError::DuplicateTopic);
                    },
                }
            },
            None => {
                proof {
                    if topic_taken(before.channels, added.topic) {
                        let i = choose|i: int|
                            0 <= i < before.channels.len() && (#[trigger] before.channels[i]).topic
                                == added.topic && before.channels[i].state != ChannelState::Closed;
                        assert(has_topic(before.channels, added.topic));
                    }
                }
            },
        }
        proof {
            self.refs.lemma_bounded();
        }
        if self.refs.peek() == u64::MAX {
            return Err(RequestError::RefsExhausted);
        }
        let handle = match self.channel(channel) {
            Some(handle) => handle,
            None => {
                return Err(RequestError::DuplicateTopic);
            },
        };
        match self.subscribe(handle, now) {
            Ok(frame) => {
                proof {
                    assert(self@.channels =~= registered(
                        before.channels,
                        added.joining(before.refs.next as u64, now),
                    ));
                }
                Ok((handle, frame))
            },
            Err(error) => Err(error),
        }
    }

    /// What is to be done with the socket when a step of the client and
    /// the host may both have asked for something: what the step asks
    /// for, and what the host asked for where the step asks for nothing.
    pub fn next_action(stepped: Action, asked: Action) -> (out: Action)
        ensures
            out == if stepped == Action::Nothing {
                asked
            } else {
                stepped
            },
    {
        match stepped {
            Action::Nothing => asked,
            _ => stepped,
        }
    }
}

impl Client {
    /// Gives up, on every channel, the requests that have waited for
    /// `timeout` or longer, and hands back what that delivers, channel by
    /// channel.
    pub fn expire_requests(&mut self, now: u64, timeout: u64) -> (out: Vec<HostEvent>)
        requires
            old(self).wf(),
        ensures
            final(self).wf(),
            final(self).endpoint_view() == old(self).endpoint_view(),
            final(self).apikey_view() == old(self).apikey_view(),
            final(self)@ == (ClientView {
                channels: expired_all(old(self)@.channels, now, timeout),
                ..old(self)@
            }),
            events_view(out@) == expired_all_events(old(self)@.channels, now, timeout),
    {
        let ghost before = old(self)@.channels;
        let mut out: Vec<HostEvent> = Vec::new();
        assert(events_view(out@) =~= Seq::empty());
        assert(before.take(0) =~= Seq::empty());
        let mut i: usize = 0;
        while i < self.channels.len()
            invariant
                i <= self.channels.len(),
                self.channels.len() == before.len(),
                before == old(self)@.channels,
                forall|j: int| 0 <= j < i ==> (#[trigger] self.channels[j])@ == before[j].expired(now, timeout),
                forall|j: int| i <= j < self.channels.len() ==> (#[trigger] self.channels[j])@ == before[j],
                forall|j: int| 0 <= j < self.channels.len() ==> (#[trigger] self.channels[j]).wf(),
                events_view(out@) == expired_all_events(before.take(i as int), now, timeout),
                self.endpoint == old(self).endpoint,
                self.apikey == old(self).apikey,
                self.state == old(self).state,
                self.backoff == old(self).backoff,
                self.refs == old(self).refs,
                self.heartbeat == old(self).heartbeat,
                self.last_heartbeat == old(self).last_heartbeat,
                self.reconnect_at == old(self).reconnect_at,
                self.connect_callback == old(self).connect_callback,
                self.connect_announced == old(self).connect_announced,
                self.heartbeat_interval == old(self).heartbeat_interval,
                self.heartbeat_timeout == old(self).heartbeat_timeout,
            decreases self.channels.len() - i,
        {
            let mut events = self.channels[i].expire(now, timeout);
            proof {
                assert(before.take(i + 1).drop_last() =~= before.take(i as int));
                assert(before.take(i + 1).last() == before[i as int]);
                crate::dispatch::lemma_events_concat(out@, events@);
            }
            out.append(&mut events);
            i += 1;
        }
        proof {
            assert(before.take(before.len() as int) =~= before);
            let after = self@.channels;
            assert(after =~= expired_all(before, now, timeout));
            assert forall|a: int, b: int| 0 <= a < b < after.len() implies (#[trigger] after[a]).topic != (
            #[trigger] after[b]).topic by {
                lemma_expired_inv(before[a], now, timeout);
                lemma_expired_inv(before[b], now, timeout);
                assert(before[a].topic != before[b].topic);
            }
            assert forall|a: int| 0 <= a < after.len() implies (#[trigger] after[a]).inv() && pending_live(
                after[a].pending,
                self@.refs,
            ) by {
                assert(before[a].inv());
                lemma_expired_inv(before[a], now, timeout);
                assert(pending_live(before[a].pending, self@.refs));
            }
        }
        out
    }
}

} // verus!
