//! The way from the network side to the host: what is delivered to which
//! callback, kept in the order in which it came about until the host takes
//! it.

use vstd::prelude::*;
use crate::json::{Json, JsonView};
use crate::message::ReplyStatus;
use crate::presence::{metas_clone, metas_view, PresenceMeta, PresenceState};
use crate::presence_model::{MetaView, PresenceView};
use crate::status::{
    CallbackId, ChannelError, ChannelErrorView, ChannelState, ConnectError, ConnectionState,
};

verus! {

/// Something for one of the host's callbacks.
#[derive(Debug)]
pub enum HostEvent {
    /// How an attempt to connect ended.
    ConnectResult { callback: CallbackId, result: Result<(), ConnectError> },
    /// The state of the connection, as asked for.
    ConnectionStatus { callback: CallbackId, state: ConnectionState },
    /// The state of a channel, as asked for.
    ChannelStatus { callback: CallbackId, state: ChannelState },
    /// Who is present on a channel, as asked for.
    PresenceSnapshot { callback: CallbackId, state: PresenceState },
    /// A broadcast for a binding.
    Broadcast { callback: CallbackId, payload: Json },
    /// Metas joined under a key: what the key held before, and all it holds
    /// now.
    PresenceJoin {
        callback: CallbackId,
        key: String,
        previous: Vec<PresenceMeta>,
        current: Vec<PresenceMeta>,
    },
    /// Metas left a key: what the key still holds, and what left.
    PresenceLeave { callback: CallbackId, key: String, current: Vec<PresenceMeta>, left: Vec<PresenceMeta> },
    /// The presence state of a channel after it changed.
    PresenceSync { callback: CallbackId, state: PresenceState },
    /// A database change for a binding.
    PostgresChanges { callback: CallbackId, payload: Json },
    /// A failure of a channel.
    ChannelFailed { callback: CallbackId, error: ChannelError },
    /// The server's answer to a request that asked to hear of it.
    Reply { callback: CallbackId, status: ReplyStatus, response: Json },
}

/// The mathematical value of a [`HostEvent`].
pub enum HostEventView {
    ConnectResult { callback: CallbackId, result: Result<(), ConnectError> },
    ConnectionStatus { callback: CallbackId, state: ConnectionState },
    ChannelStatus { callback: CallbackId, state: ChannelState },
    PresenceSnapshot { callback: CallbackId, state: PresenceView },
    Broadcast { callback: CallbackId, payload: JsonView },
    PresenceJoin { callback: CallbackId, key: Seq<char>, previous: Seq<MetaView>, current: Seq<MetaView> },
    PresenceLeave { callback: CallbackId, key: Seq<char>, current: Seq<MetaView>, left: Seq<MetaView> },
    PresenceSync { callback: CallbackId, state: PresenceView },
    PostgresChanges { callback: CallbackId, payload: JsonView },
    ChannelFailed { callback: CallbackId, error: ChannelErrorView },
    Reply { callback: CallbackId, status: ReplyStatus, response: JsonView },
}

impl View for HostEvent {
    type V = HostEventView;

    open spec fn view(&self) -> HostEventView {
        match self {
            HostEvent::ConnectResult { callback, result } => HostEventView::ConnectResult {
                callback: *callback,
                result: *result,
            },
            HostEvent::ConnectionStatus { callback, state } => HostEventView::ConnectionStatus {
                callback: *callback,
                state: *state,
            },
            HostEvent::ChannelStatus { callback, state } => HostEventView::ChannelStatus {
                callback: *callback,
                state: *state,
            },
            HostEvent::PresenceSnapshot { callback, state } => HostEventView::PresenceSnapshot {
                callback: *callback,
                state: state@,
            },
            HostEvent::Broadcast { callback, payload } => HostEventView::Broadcast {
                callback: *callback,
                payload: payload@,
            },
            HostEvent::PresenceJoin { callback, key, previous, current } => HostEventView::PresenceJoin {
                callback: *callback,
                key: key@,
                previous: metas_view(previous@),
                current: metas_view(current@),
            },
            HostEvent::PresenceLeave { callback, key, current, left } => HostEventView::PresenceLeave {
                callback: *callback,
                key: key@,
                current: metas_view(current@),
                left: metas_view(left@),
            },
            HostEvent::PresenceSync { callback, state } => HostEventView::PresenceSync {
                callback: *callback,
                state: state@,
            },
            HostEvent::PostgresChanges { callback, payload } => HostEventView::PostgresChanges {
                callback: *callback,
                payload: payload@,
            },
            HostEvent::ChannelFailed { callback, error } => HostEventView::ChannelFailed {
                callback: *callback,
                error: error@,
            },
            HostEvent::Reply { callback, status, response } => HostEventView::Reply {
                callback: *callback,
                status: *status,
                response: response@,
            },
        }
    }
}

impl Clone for HostEvent {
    fn clone(&self) -> (out: HostEvent)
        ensures
            out@ == self@,
    {
        match self {
            HostEvent::ConnectResult { callback, result } => HostEvent::ConnectResult {
                callback: *callback,
                result: *result,
            },
            HostEvent::ConnectionStatus { callback, state } => HostEvent::ConnectionStatus {
                callback: *callback,
                state: *state,
            },
            HostEvent::ChannelStatus { callback, state } => HostEvent::ChannelStatus {
                callback: *callback,
                state: *state,
            },
            HostEvent::PresenceSnapshot { callback, state } => HostEvent::PresenceSnapshot {
                callback: *callback,
                state: state.clone(),
            },
            HostEvent::Broadcast { callback, payload } => HostEvent::Broadcast {
                callback: *callback,
                payload: payload.clone(),
            },
            HostEvent::PresenceJoin { callback, key, previous, current } => HostEvent::PresenceJoin {
                callback: *callback,
                key: key.clone(),
                previous: metas_clone(previous),
                current: metas_clone(current),
            },
            HostEvent::PresenceLeave { callback, key, current, left } => HostEvent::PresenceLeave {
                callback: *callback,
                key: key.clone(),
                current: metas_clone(current),
                left: metas_clone(left),
            },
            HostEvent::PresenceSync { callback, state } => HostEvent::PresenceSync {
                callback: *callback,
                state: state.clone(),
            },
            HostEvent::PostgresChanges { callback, payload } => HostEvent::PostgresChanges {
                callback: *callback,
                payload: payload.clone(),
            },
            HostEvent::ChannelFailed { callback, error } => HostEvent::ChannelFailed {
                callback: *callback,
                error: error.clone(),
            },
            HostEvent::Reply { callback, status, response } => HostEvent::Reply {
                callback: *callback,
                status: *status,
                response: response.clone(),
            },
        }
    }
}

/// The events of a list, each by its view.
pub open spec fn events_view(events: Seq<HostEvent>) -> Seq<HostEventView> {
    Seq::new(events.len(), |i: int| events[i]@)
}

/// Pushing an event pushes its view.
pub proof fn lemma_events_push(events: Seq<HostEvent>, event: HostEvent)
    ensures
        events_view(events.push(event)) == events_view(events).push(event@),
{
    assert(events_view(events.push(event)) =~= events_view(events).push(event@));
}

/// The views of two lists put together are the two lists' views put
/// together.
pub proof fn lemma_events_concat(first: Seq<HostEvent>, second: Seq<HostEvent>)
    ensures
        events_view(first + second) == events_view(first) + events_view(second),
{
    assert(events_view(first + second) =~= events_view(first) + events_view(second));
}

/// The queue between the network side and the host. What goes in first
/// comes out first.
#[derive(Debug)]
pub struct Dispatcher {
    queue: Vec<HostEvent>,
}

impl View for Dispatcher {
    type V = Seq<HostEventView>;

    closed spec fn view(&self) -> Seq<HostEventView> {
        events_view(self.queue@)
    }
}

impl Dispatcher {
    /// An empty queue.
    pub fn new() -> (out: Dispatcher)
        ensures
            out@ == Seq::<HostEventView>::empty(),
    {
        let out = Dispatcher { queue: Vec::new() };
        assert(out@ =~= Seq::<HostEventView>::empty());
        out
    }

    /// The number of events that wait.
    pub fn len(&self) -> (n: usize)
        ensures
            n == self@.len(),
    {
        self.queue.len()
    }

    /// Whether no event waits.
    pub fn is_empty(&self) -> (empty: bool)
        ensures
            empty == (self@.len() == 0),
    {
        self.queue.len() == 0
    }

    /// Puts an event at the end of the queue.
    pub fn push(&mut self, event: HostEvent)
        ensures
            final(self)@ == old(self)@.push(event@),
    {
        proof {
            lemma_events_push(self.queue@, event);
        }
        self.queue.push(event);
    }

    /// Puts events at the end of the queue, in their order.
    pub fn push_all(&mut self, events: Vec<HostEvent>)
        ensures
            final(self)@ == old(self)@ + events_view(events@),
    {
        let mut events = events;
        proof {
            lemma_events_concat(self.queue@, events@);
        }
        self.queue.append(&mut events);
    }

    /// Takes all events out of the queue, the oldest first.
    pub fn drain(&mut self) -> (out: Vec<HostEvent>)
        ensures
            events_view(out@) == old(self)@,
            final(self)@ == Seq::<HostEventView>::empty(),
    {
        let mut out: Vec<HostEvent> = Vec::new();
        std::mem::swap(&mut self.queue, &mut out);
        assert(self@ =~= Seq::<HostEventView>::empty());
        out
    }
}

} // verus!
