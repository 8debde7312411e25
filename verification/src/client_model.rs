//! The connection as a state machine over plain values: what a request of
//! the host, an event of the socket and the passing of time make of the
//! client, what is to be sent, and what is delivered to the host.

use vstd::prelude::*;
use crate::backoff::{delay_after, lemma_delay_monotonic, BackoffView};
use crate::channel_model::{can_unsubscribe, elapsed, has_pending, pending_live, ChannelView};
use crate::dispatch::HostEventView;
use crate::message::{OutboundView, ReplyStatus, ServerEventView};
use crate::refs::RefsView;
use crate::status::{CallbackId, ChannelState, ConnectError, ConnectionState, NextMessageError};

verus! {

/// What the socket has to say.
pub enum SocketEventView {
    /// The socket is connected and the handshake is done.
    Opened,
    /// The attempt to connect failed.
    Failed(ConnectError),
    /// A frame came in for `topic`.
    Frame { topic: Seq<char>, event: ServerEventView },
    /// A frame came in that could not be understood.
    Malformed,
    /// Nothing is there to read.
    WouldBlock,
    /// The socket has ended.
    Closed,
}

/// What the caller is to do with the socket.
#[derive(Clone, Copy, Debug, PartialEq, Eq, Structural)]
pub enum Action {
    Nothing,
    /// Open a socket and report `Opened` or `Failed`.
    OpenSocket,
    /// Close the socket and report `Closed`.
    CloseSocket,
}

/// A heartbeat that was sent and not answered yet.
#[derive(Clone, Copy, Debug, PartialEq, Eq, Structural)]
pub struct PendingHeartbeat {
    pub reference: u64,
    pub sent_at: u64,
}

/// The client.
pub struct ClientView {
    pub state: ConnectionState,
    pub backoff: BackoffView,
    pub refs: RefsView,
    pub channels: Seq<ChannelView>,
    pub heartbeat: Option<PendingHeartbeat>,
    /// When the last heartbeat was sent, or the connection opened.
    pub last_heartbeat: u64,
    /// When the next attempt to connect is due, while reconnecting.
    pub reconnect_at: u64,
    /// The callback that hears how the connection fares: once that it was
    /// made, and once that it has failed for good.
    pub connect_callback: Option<CallbackId>,
    /// Whether that callback has heard that the connection was made.
    pub connect_announced: bool,
    pub heartbeat_interval: u64,
    pub heartbeat_timeout: u64,
}

/// The topic on which heartbeats go.
pub open spec fn phoenix_topic() -> Seq<char> {
    "phoenix"@
}

/// `a + b`, held at the largest time that fits.
pub open spec fn time_after(a: u64, b: nat) -> u64 {
    if a + b <= u64::MAX {
        (a + b) as u64
    } else {
        u64::MAX
    }
}

/// Whether one of `channels` has the topic `topic`.
pub open spec fn has_topic(channels: Seq<ChannelView>, topic: Seq<char>) -> bool {
    exists|i: int| 0 <= i < channels.len() && (#[trigger] channels[i]).topic == topic
}

/// Where the channel with the topic `topic` stands.
pub open spec fn topic_index(channels: Seq<ChannelView>, topic: Seq<char>) -> int {
    choose|i: int| 0 <= i < channels.len() && (#[trigger] channels[i]).topic == topic
}

/// Whether a channel that is not closed has the topic `topic`. A channel
/// that was left, or never joined, holds its topic no longer.
pub open spec fn topic_taken(channels: Seq<ChannelView>, topic: Seq<char>) -> bool {
    exists|i: int|
        0 <= i < channels.len() && (#[trigger] channels[i]).topic == topic && channels[i].state
            != ChannelState::Closed
}

/// The handle under which a channel with the topic `topic` is taken in:
/// that of the channel that has the topic, or the next free one.
pub open spec fn handle_for(channels: Seq<ChannelView>, topic: Seq<char>) -> int {
    if has_topic(channels, topic) {
        topic_index(channels, topic)
    } else {
        channels.len() as int
    }
}

/// The channels after `channel` was taken in: it takes the place of the
/// channel that has its topic, or comes last where none has.
pub open spec fn registered(channels: Seq<ChannelView>, channel: ChannelView) -> Seq<ChannelView> {
    if has_topic(channels, channel.topic) {
        channels.update(topic_index(channels, channel.topic), channel)
    } else {
        channels.push(channel)
    }
}

/// Whether no two channels have the same topic.
pub open spec fn distinct_topics(channels: Seq<ChannelView>) -> bool {
    forall|i: int, j: int|
        0 <= i < j < channels.len() ==> (#[trigger] channels[i]).topic != (#[trigger] channels[j]).topic
}

impl ChannelView {
    /// Whether the channel is joined anew when a session begins.
    pub open spec fn rejoins(self) -> bool {
        can_unsubscribe(self.state)
    }

    /// The channel in a new session whose next reference is `next`.
    pub open spec fn rejoined(self, next: nat, now: u64) -> ChannelView {
        if self.rejoins() {
            if next < u64::MAX {
                self.joining(next as u64, now)
            } else {
                self.cleared(ChannelState::Errored)
            }
        } else if self.state == ChannelState::Leaving {
            self.cleared(ChannelState::Closed)
        } else {
            self
        }
    }

    /// The join that a new session sends for the channel, if it sends one.
    pub open spec fn rejoin_frame(self, next: nat) -> Option<OutboundView> {
        if self.rejoins() && next < u64::MAX {
            Some(
                OutboundView::Join {
                    topic: self.topic,
                    reference: next as u64,
                    payload: self.join_payload(),
                },
            )
        } else {
            None
        }
    }
}

/// The next reference after the channels of `channels` were taken into a
/// new session, one after the other, starting at `next`.
pub open spec fn refs_after_rejoin(channels: Seq<ChannelView>, next: nat) -> nat
    decreases channels.len(),
{
    if channels.len() == 0 {
        next
    } else {
        let before = refs_after_rejoin(channels.drop_last(), next);
        if channels.last().rejoins() && before < u64::MAX {
            before + 1
        } else {
            before
        }
    }
}

/// The channels after each was taken into a new session.
pub open spec fn rejoined_all(channels: Seq<ChannelView>, next: nat, now: u64) -> Seq<ChannelView>
    decreases channels.len(),
{
    if channels.len() == 0 {
        Seq::empty()
    } else {
        rejoined_all(channels.drop_last(), next, now).push(
            channels.last().rejoined(refs_after_rejoin(channels.drop_last(), next), now),
        )
    }
}

/// The joins that a new session sends, in the order of the channels.
pub open spec fn rejoin_frames(channels: Seq<ChannelView>, next: nat) -> Seq<OutboundView>
    decreases channels.len(),
{
    if channels.len() == 0 {
        Seq::empty()
    } else {
        let rest = rejoin_frames(channels.drop_last(), next);
        match channels.last().rejoin_frame(refs_after_rejoin(channels.drop_last(), next)) {
            Some(frame) => rest.push(frame),
            None => rest,
        }
    }
}

/// The channels, each closed with nothing waiting.
pub open spec fn closed_all(channels: Seq<ChannelView>) -> Seq<ChannelView> {
    Seq::new(channels.len(), |i: int| channels[i].cleared(ChannelState::Closed))
}

impl ClientView {
    /// Whether the client is in order: its channels are, no two of them
    /// share a topic, and whatever waits for an answer has a reference of
    /// the present session.
    pub open spec fn inv(self) -> bool {
        &&& self.refs.session_start <= self.refs.next <= u64::MAX
        &&& distinct_topics(self.channels)
        &&& forall|i: int| 0 <= i < self.channels.len() ==> (#[trigger] self.channels[i]).inv()
        &&& forall|i: int|
            0 <= i < self.channels.len() ==> pending_live((#[trigger] self.channels[i]).pending, self.refs)
        &&& match self.heartbeat {
            Some(heartbeat) => self.state == ConnectionState::Open && self.refs.is_live(
                heartbeat.reference as nat,
            ),
            None => true,
        }
    }

    /// Whether a connection may be asked for.
    pub open spec fn can_connect(self) -> bool {
        self.state == ConnectionState::Closed || self.state == ConnectionState::Reconnecting
    }

    /// The client after the host asked for a connection.
    pub open spec fn connecting(self, callback: CallbackId) -> ClientView {
        if self.can_connect() {
            ClientView {
                state: ConnectionState::Connecting,
                connect_callback: Some(callback),
                connect_announced: false,
                ..self
            }
        } else {
            self
        }
    }

    /// The client after the socket opened: a new session begins, the
    /// backoff starts over, and every channel that was joined or being
    /// joined is joined anew. The callback stays, to hear of it should the
    /// connection fail for good later.
    pub open spec fn opened(self, now: u64) -> ClientView {
        ClientView {
            state: ConnectionState::Open,
            backoff: self.backoff.succeeded(),
            refs: RefsView {
                next: refs_after_rejoin(self.channels, self.refs.next),
                session_start: self.refs.next,
            },
            channels: rejoined_all(self.channels, self.refs.next, now),
            heartbeat: None,
            last_heartbeat: now,
            connect_announced: true,
            ..self
        }
    }

    /// What the opening of the socket delivers: the callback hears that
    /// the connection was made, unless it has heard so before.
    pub open spec fn opened_events(self) -> Seq<HostEventView> {
        match self.connect_callback {
            Some(callback) => if self.connect_announced {
                Seq::empty()
            } else {
                seq![HostEventView::ConnectResult { callback, result: Ok(()) }]
            },
            None => Seq::empty(),
        }
    }

    /// The client after the connection failed or was lost: it waits for
    /// the next attempt as long as one may be made, and gives up
    /// otherwise.
    pub open spec fn lost(self, now: u64) -> ClientView {
        if self.backoff.may_retry() {
            ClientView {
                state: ConnectionState::Reconnecting,
                backoff: self.backoff.failed_bounded(),
                reconnect_at: time_after(now, self.backoff.delay()),
                heartbeat: None,
                ..self
            }
        } else {
            self.ended()
        }
    }

    /// What giving up with `error` delivers: the callback, if there is
    /// one, hears of the error.
    pub open spec fn give_up_events(self, error: ConnectError) -> Seq<HostEventView> {
        match self.connect_callback {
            Some(callback) => seq![HostEventView::ConnectResult { callback, result: Err(error) }],
            None => Seq::empty(),
        }
    }

    /// What the loss of the connection delivers.
    pub open spec fn lost_events(self, error: ConnectError) -> Seq<HostEventView> {
        if self.backoff.may_retry() {
            Seq::empty()
        } else {
            self.give_up_events(error)
        }
    }

    /// Whether a frame for `topic` is the answer to the heartbeat that
    /// waits.
    pub open spec fn answers_heartbeat(self, topic: Seq<char>, event: ServerEventView) -> bool {
        &&& topic == phoenix_topic()
        &&& self.heartbeat is Some
        &&& event matches ServerEventView::Reply { reference, .. } && reference == self.heartbeat->0.reference
    }

    /// Whether a frame for `topic` goes to one of the channels.
    pub open spec fn routes(self, topic: Seq<char>, event: ServerEventView) -> bool {
        &&& self.state == ConnectionState::Open
        &&& !self.answers_heartbeat(topic, event)
        &&& has_topic(self.channels, topic)
    }

    /// The client after an event of the socket.
    pub open spec fn handled(self, event: SocketEventView, now: u64) -> ClientView {
        match event {
            SocketEventView::Opened => if self.state == ConnectionState::Connecting {
                self.opened(now)
            } else {
                self
            },
            SocketEventView::Failed(error) => if self.state == ConnectionState::Connecting {
                if error == ConnectError::AuthRejected {
                    self.ended()
                } else {
                    self.lost(now)
                }
            } else {
                self
            },
            SocketEventView::Frame { topic, event } => if self.state != ConnectionState::Open {
                self
            } else if self.answers_heartbeat(topic, event) {
                ClientView { heartbeat: None, ..self }
            } else if has_topic(self.channels, topic) {
                let index = topic_index(self.channels, topic);
                ClientView {
                    channels: self.channels.update(index, self.channels[index].received(event)),
                    ..self
                }
            } else {
                self
            },
            SocketEventView::Malformed => self,
            SocketEventView::WouldBlock => self,
            SocketEventView::Closed => match self.state {
                ConnectionState::Open | ConnectionState::Connecting => self.lost(now),
                ConnectionState::Closing => self.ended(),
                _ => self,
            },
        }
    }

    /// What an event of the socket has the client send.
    pub open spec fn handled_frames(self, event: SocketEventView) -> Seq<OutboundView> {
        match event {
            SocketEventView::Opened => if self.state == ConnectionState::Connecting {
                rejoin_frames(self.channels, self.refs.next)
            } else {
                Seq::empty()
            },
            _ => Seq::empty(),
        }
    }

    /// Whether `out` is what an event of the socket delivers to the host.
    pub open spec fn handled_delivers(self, event: SocketEventView, out: Seq<HostEventView>) -> bool {
        match event {
            SocketEventView::Opened => out == if self.state == ConnectionState::Connecting {
                self.opened_events()
            } else {
                Seq::empty()
            },
            SocketEventView::Failed(error) => out == if self.state == ConnectionState::Connecting {
                if error == ConnectError::AuthRejected {
                    self.give_up_events(error)
                } else {
                    self.lost_events(error)
                }
            } else {
                Seq::empty()
            },
            SocketEventView::Frame { topic, event } => if self.routes(topic, event) {
                self.channels[topic_index(self.channels, topic)].delivers(event, out)
            } else {
                out == Seq::<HostEventView>::empty()
            },
            SocketEventView::Malformed => out == Seq::<HostEventView>::empty(),
            SocketEventView::WouldBlock => out == Seq::<HostEventView>::empty(),
            SocketEventView::Closed => out == match self.state {
                ConnectionState::Open | ConnectionState::Connecting => self.lost_events(
                    ConnectError::Unreachable,
                ),
                _ => Seq::empty(),
            },
        }
    }

    /// Whether the heartbeat that waits has waited too long.
    pub open spec fn heartbeat_overdue(self, now: u64) -> bool {
        &&& self.state == ConnectionState::Open
        &&& self.heartbeat is Some
        &&& elapsed(now, self.heartbeat->0.sent_at) >= self.heartbeat_timeout
    }

    /// Whether a heartbeat is to be sent.
    pub open spec fn heartbeat_due(self, now: u64) -> bool {
        &&& self.state == ConnectionState::Open
        &&& self.heartbeat is None
        &&& elapsed(now, self.last_heartbeat) >= self.heartbeat_interval
        &&& self.refs.next < u64::MAX
    }

    /// Whether the next attempt to connect is to be made.
    pub open spec fn reconnect_due(self, now: u64) -> bool {
        self.state == ConnectionState::Reconnecting && now >= self.reconnect_at
    }

    /// The client after its timers were looked at.
    pub open spec fn ticked(self, now: u64) -> ClientView {
        if self.heartbeat_overdue(now) {
            self.lost(now)
        } else if self.heartbeat_due(now) {
            ClientView {
                heartbeat: Some(PendingHeartbeat { reference: self.refs.next as u64, sent_at: now }),
                last_heartbeat: now,
                refs: self.refs.allocated(),
                ..self
            }
        } else if self.reconnect_due(now) {
            ClientView { state: ConnectionState::Connecting, ..self }
        } else {
            self
        }
    }

    /// What the timers have the client send.
    pub open spec fn ticked_frames(self, now: u64) -> Seq<OutboundView> {
        if !self.heartbeat_overdue(now) && self.heartbeat_due(now) {
            seq![OutboundView::Heartbeat { reference: self.refs.next as u64 }]
        } else {
            Seq::empty()
        }
    }

    /// What the timers deliver.
    pub open spec fn ticked_events(self, now: u64) -> Seq<HostEventView> {
        if self.heartbeat_overdue(now) {
            self.lost_events(ConnectError::Unreachable)
        } else {
            Seq::empty()
        }
    }

    /// What the timers ask of the caller.
    pub open spec fn ticked_action(self, now: u64) -> Action {
        if !self.heartbeat_overdue(now) && !self.heartbeat_due(now) && self.reconnect_due(now) {
            Action::OpenSocket
        } else if self.heartbeat_overdue(now) {
            Action::CloseSocket
        } else {
            Action::Nothing
        }
    }
}

/// What a step answers for an event of the socket.
pub open spec fn step_result(event: SocketEventView) -> Result<(), NextMessageError> {
    match event {
        SocketEventView::Malformed => Err(NextMessageError::Malformed),
        SocketEventView::WouldBlock => Err(NextMessageError::WouldBlock),
        SocketEventView::Closed => Err(NextMessageError::Closed),
        _ => Ok(()),
    }
}

/// Taking channels into a new session never takes the counter back, and
/// every join of the new session has a reference of that session.
pub proof fn lemma_rejoin_all(channels: Seq<ChannelView>, next: nat, now: u64)
    requires
        next <= u64::MAX,
        distinct_topics(channels),
        forall|i: int| 0 <= i < channels.len() ==> (#[trigger] channels[i]).inv(),
    ensures
        next <= refs_after_rejoin(channels, next) <= u64::MAX,
        rejoined_all(channels, next, now).len() == channels.len(),
        distinct_topics(rejoined_all(channels, next, now)),
        forall|i: int|
            0 <= i < channels.len() ==> (#[trigger] rejoined_all(channels, next, now)[i]).inv() && rejoined_all(
                channels,
                next,
                now,
            )[i].topic == channels[i].topic,
        forall|i: int|
            0 <= i < channels.len() ==> pending_live(
                (#[trigger] rejoined_all(channels, next, now)[i]).pending,
                RefsView { next: refs_after_rejoin(channels, next), session_start: next },
            ),
    decreases channels.len(),
{
    if channels.len() > 0 {
        let init = channels.drop_last();
        let last = channels.last();
        assert forall|i: int| 0 <= i < init.len() implies (#[trigger] init[i]).inv() by {
            assert(channels[i].inv());
        }
        assert(distinct_topics(init)) by {
            assert forall|i: int, j: int| 0 <= i < j < init.len() implies (#[trigger] init[i]).topic != (
            #[trigger] init[j]).topic by {
                assert(channels[i].topic != channels[j].topic);
            }
        }
        lemma_rejoin_all(init, next, now);
        let before = refs_after_rejoin(init, next);
        let after = refs_after_rejoin(channels, next);
        let all = rejoined_all(channels, next, now);
        let refs = RefsView { next: after, session_start: next };
        assert(last.inv());
        assert(channels[channels.len() - 1] == last);
        assert forall|i: int| 0 <= i < channels.len() implies (#[trigger] all[i]).inv() && all[i].topic
            == channels[i].topic by {
            if i < init.len() {
                assert(all[i] == rejoined_all(init, next, now)[i]);
                assert(init[i] == channels[i]);
            } else {
                let fresh = last.rejoined(before, now);
                assert(all[i] == fresh);
                assert(fresh.presence =~= Map::empty() || fresh == last);
            }
        }
        assert forall|i: int, j: int| 0 <= i < j < all.len() implies (#[trigger] all[i]).topic != (
        #[trigger] all[j]).topic by {
            assert(channels[i].topic != channels[j].topic);
        }
        assert forall|i: int| 0 <= i < channels.len() implies pending_live(
            (#[trigger] all[i]).pending,
            refs,
        ) by {
            if i < init.len() {
                let earlier = RefsView { next: before, session_start: next };
                assert(all[i] == rejoined_all(init, next, now)[i]);
                assert(pending_live(all[i].pending, earlier));
                assert forall|k: int| 0 <= k < all[i].pending.len() implies refs.is_live(
                    (#[trigger] all[i].pending[k]).reference as nat,
                ) by {
                    assert(earlier.is_live(all[i].pending[k].reference as nat));
                }
            } else {
                let fresh = last.rejoined(before, now);
                assert(all[i] == fresh);
            }
        }
    }
}

/// What a new session makes of the channel at `index` depends on the
/// channels before it alone.
pub proof fn lemma_rejoined_index(channels: Seq<ChannelView>, next: nat, now: u64, index: int)
    requires
        0 <= index < channels.len(),
    ensures
        rejoined_all(channels, next, now).len() == channels.len(),
        rejoined_all(channels, next, now)[index] == channels[index].rejoined(
            refs_after_rejoin(channels.take(index), next),
            now,
        ),
    decreases channels.len(),
{
    let init = channels.drop_last();
    lemma_rejoined_len(channels, next, now);
    lemma_rejoined_len(init, next, now);
    if index == channels.len() - 1 {
        assert(channels.take(index) =~= init);
    } else {
        lemma_rejoined_index(init, next, now, index);
        assert(init.take(index) =~= channels.take(index));
    }
}

/// A new session keeps the number of channels.
pub proof fn lemma_rejoined_len(channels: Seq<ChannelView>, next: nat, now: u64)
    ensures
        rejoined_all(channels, next, now).len() == channels.len(),
    decreases channels.len(),
{
    if channels.len() > 0 {
        lemma_rejoined_len(channels.drop_last(), next, now);
    }
}

impl ClientView {
    /// Whether the host may ask to end the connection.
    pub open spec fn can_disconnect(self) -> bool {
        self.state == ConnectionState::Open || self.state == ConnectionState::Connecting
    }

    /// The client after the connection came to its end, asked for or
    /// given up: closed, and every channel with it; the backoff starts
    /// over for a later connection.
    pub open spec fn ended(self) -> ClientView {
        ClientView {
            state: ConnectionState::Closed,
            channels: closed_all(self.channels),
            heartbeat: None,
            connect_callback: None,
            connect_announced: false,
            backoff: self.backoff.succeeded(),
            ..self
        }
    }

    /// The client after the host asked to end the connection. With a
    /// socket at hand the client waits for it to close; a client that
    /// waits to reconnect is closed at once.
    pub open spec fn disconnecting(self) -> ClientView {
        if self.can_disconnect() {
            ClientView { state: ConnectionState::Closing, heartbeat: None, ..self }
        } else if self.state == ConnectionState::Reconnecting {
            self.ended()
        } else {
            self
        }
    }

    /// The client after one step: the event of the socket is taken in,
    /// then the timers are looked at.
    pub open spec fn stepped(self, event: SocketEventView, now: u64) -> ClientView {
        self.handled(event, now).ticked(now)
    }
}

/// A client in order stays in order when one channel changes and the
/// counter moves on, as long as the channel keeps its topic and is in
/// order itself, with everything that waits on it live.
pub proof fn lemma_update_channel(before: ClientView, index: int, changed: ChannelView, refs: RefsView)
    requires
        before.inv(),
        0 <= index < before.channels.len(),
        changed.inv(),
        changed.topic == before.channels[index].topic,
        pending_live(changed.pending, refs),
        refs.session_start == before.refs.session_start,
        before.refs.next <= refs.next <= u64::MAX,
    ensures
        (ClientView { channels: before.channels.update(index, changed), refs, ..before }).inv(),
{
    let after = ClientView { channels: before.channels.update(index, changed), refs, ..before };
    assert forall|i: int, j: int| 0 <= i < j < after.channels.len() implies (
    #[trigger] after.channels[i]).topic != (#[trigger] after.channels[j]).topic by {
        assert(before.channels[i].topic != before.channels[j].topic);
    }
    assert forall|i: int| 0 <= i < after.channels.len() implies (#[trigger] after.channels[i]).inv()
        && pending_live(after.channels[i].pending, refs) by {
        if i != index {
            let channel = before.channels[i];
            assert(channel.inv());
            assert(pending_live(channel.pending, before.refs));
            assert forall|k: int| 0 <= k < channel.pending.len() implies refs.is_live(
                (#[trigger] channel.pending[k]).reference as nat,
            ) by {
                assert(before.refs.is_live(channel.pending[k].reference as nat));
            }
        }
    }
}

/// The channels, each with the access token `token`.
pub open spec fn with_token(channels: Seq<ChannelView>, token: Seq<char>) -> Seq<ChannelView> {
    Seq::new(channels.len(), |i: int| ChannelView { access_token: Some(token), ..channels[i] })
}

/// The requests that tell the server of a new access token: one for each
/// channel that is joined, in the order of the channels.
pub open spec fn token_frames(channels: Seq<ChannelView>, token: Seq<char>) -> Seq<OutboundView>
    decreases channels.len(),
{
    if channels.len() == 0 {
        Seq::empty()
    } else {
        let rest = token_frames(channels.drop_last(), token);
        if channels.last().state == ChannelState::Joined {
            rest.push(OutboundView::AccessToken { topic: channels.last().topic, token })
        } else {
            rest
        }
    }
}

/// The channels, each after the requests that have waited too long were
/// given up.
pub open spec fn expired_all(channels: Seq<ChannelView>, now: u64, timeout: u64) -> Seq<ChannelView> {
    Seq::new(channels.len(), |i: int| channels[i].expired(now, timeout))
}

/// What giving up the overdue requests delivers, channel by channel.
pub open spec fn expired_all_events(channels: Seq<ChannelView>, now: u64, timeout: u64) -> Seq<
    HostEventView,
>
    decreases channels.len(),
{
    if channels.len() == 0 {
        Seq::empty()
    } else {
        expired_all_events(channels.drop_last(), now, timeout) + channels.last().expire_events(
            now,
            timeout,
        )
    }
}

/// Each loss of the connection that leads to another attempt puts that
/// attempt off by the delay that the failures so far call for, and the
/// delay for the attempt after it is no shorter and never above the cap.
/// Once the socket has opened, the next delay is the base delay again.
pub proof fn lemma_reconnect_delay(client: ClientView, now: u64)
    ensures
        client.backoff.may_retry() ==> {
            &&& client.lost(now).state == ConnectionState::Reconnecting
            &&& client.lost(now).reconnect_at == time_after(now, client.backoff.delay())
            &&& client.backoff.delay() <= client.lost(now).backoff.delay() <= client.backoff.cap
        },
        !client.backoff.may_retry() ==> client.lost(now).state == ConnectionState::Closed,
        client.opened(now).backoff.delay() == delay_after(client.backoff.base, client.backoff.cap, 0),
        client.ended().backoff.delay() == delay_after(client.backoff.base, client.backoff.cap, 0),
{
    lemma_delay_monotonic(
        client.backoff.base,
        client.backoff.cap,
        client.backoff.failures,
        client.backoff.failures + 1,
    );
}

/// The topic of a channel that is closed is free: a new channel on that
/// topic is taken in, under the same handle. So a channel can be joined
/// again once its leave is answered.
pub proof fn lemma_closed_topic_is_free(client: ClientView, index: int)
    requires
        client.inv(),
        0 <= index < client.channels.len(),
        client.channels[index].state == ChannelState::Closed,
    ensures
        !topic_taken(client.channels, client.channels[index].topic),
        handle_for(client.channels, client.channels[index].topic) == index,
{
    let channels = client.channels;
    let topic = channels[index].topic;
    assert(has_topic(channels, topic));
    let found = topic_index(channels, topic);
    if found < index {
        assert(channels[found].topic != channels[index].topic);
    }
    if found > index {
        assert(channels[index].topic != channels[found].topic);
    }
    if topic_taken(channels, topic) {
        let i = choose|i: int|
            0 <= i < channels.len() && (#[trigger] channels[i]).topic == topic && channels[i].state
                != ChannelState::Closed;
        if i < index {
            assert(channels[i].topic != channels[index].topic);
        }
        if i > index {
            assert(channels[index].topic != channels[i].topic);
        }
    }
}

/// Whenever the connection fails for good, the callback that asked for it
/// hears of the error once, also after the connection has been open: the
/// opening of the socket does not forget the callback, and giving up does.
pub proof fn lemma_terminal_failure_is_told(
    client: ClientView,
    callback: CallbackId,
    error: ConnectError,
    now: u64,
)
    requires
        client.connect_callback == Some(callback),
    ensures
        client.opened(now).connect_callback == Some(callback),
        client.opened(now).opened_events() == Seq::<HostEventView>::empty(),
        !client.backoff.may_retry() ==> {
            &&& client.lost(now).state == ConnectionState::Closed
            &&& client.lost(now).connect_callback is None
            &&& client.lost_events(error) == seq![
                HostEventView::ConnectResult { callback, result: Err(error) },
            ]
        },
        client.backoff.may_retry() ==> {
            &&& client.lost(now).connect_callback == Some(callback)
            &&& client.lost_events(error) == Seq::<HostEventView>::empty()
        },
{
}

/// A client that is closed stays closed whatever the socket says and
/// however much time passes: only a new request to connect opens it again.
pub proof fn lemma_closed_is_terminal(client: ClientView, event: SocketEventView, now: u64)
    requires
        client.state == ConnectionState::Closed,
    ensures
        client.handled(event, now) == client,
        client.ticked(now) == client,
        client.stepped(event, now) == client,
        client.ticked_action(now) == Action::Nothing,
        client.handled_frames(event) == Seq::<OutboundView>::empty(),
        client.handled_delivers(event, Seq::empty()),
{
}

/// A frame changes no channel but the one with its topic: what happens on
/// one channel never touches another.
pub proof fn lemma_frame_touches_one_channel(
    client: ClientView,
    topic: Seq<char>,
    event: ServerEventView,
    now: u64,
    other: int,
)
    requires
        client.inv(),
        0 <= other < client.channels.len(),
        client.channels[other].topic != topic,
    ensures
        client.handled(SocketEventView::Frame { topic, event }, now).channels.len()
            == client.channels.len(),
        client.handled(SocketEventView::Frame { topic, event }, now).channels[other]
            == client.channels[other],
{
}

/// A reply that carries a reference of an earlier session matches nothing:
/// the client stays as it is and nothing is delivered.
pub proof fn lemma_stale_reply_dropped(
    client: ClientView,
    topic: Seq<char>,
    reference: u64,
    status: ReplyStatus,
    response: crate::json::JsonView,
    postgres_ids: Seq<u64>,
    now: u64,
)
    requires
        client.inv(),
        !client.refs.is_live(reference as nat),
    ensures
        client.handled(
            SocketEventView::Frame {
                topic,
                event: ServerEventView::Reply { reference, status, response, postgres_ids },
            },
            now,
        ) == client,
        client.handled_delivers(
            SocketEventView::Frame {
                topic,
                event: ServerEventView::Reply { reference, status, response, postgres_ids },
            },
            Seq::empty(),
        ),
{
    let event = ServerEventView::Reply { reference, status, response, postgres_ids };
    if client.state == ConnectionState::Open && !client.answers_heartbeat(topic, event) && has_topic(
        client.channels,
        topic,
    ) {
        let index = topic_index(client.channels, topic);
        let channel = client.channels[index];
        assert(pending_live(channel.pending, client.refs));
        if has_pending(channel.pending, reference) {
            let i = choose|i: int|
                0 <= i < channel.pending.len() && (#[trigger] channel.pending[i]).reference == reference;
            assert(client.refs.is_live(channel.pending[i].reference as nat));
        }
        assert(channel.received(event) == channel);
        assert(client.channels.update(index, channel) =~= client.channels);
    }
}

/// After the socket opened, no reference of the session before is live:
/// whatever was given out before the connection was made anew can match
/// nothing in the new session.
pub proof fn lemma_open_forgets_refs(client: ClientView, reference: u64, now: u64)
    requires
        client.inv(),
        client.state == ConnectionState::Connecting,
        reference < client.refs.next,
    ensures
        !client.handled(SocketEventView::Opened, now).refs.is_live(reference as nat),
        client.handled(SocketEventView::Opened, now).inv(),
        client.handled(SocketEventView::Opened, now).backoff.failures == 0,
{
    lemma_rejoin_all(client.channels, client.refs.next, now);
}

} // verus!
