//! What the client and the server say to each other, as typed values: the
//! requests that go out and the events that come in.

use vstd::prelude::*;
use crate::json::{Json, JsonView};
use crate::presence::{PresenceDiff, PresenceState};
use crate::presence_model::{DiffView, PresenceView};

verus! {

/// The view of a string that may be missing.
pub open spec fn opt_view(s: Option<String>) -> Option<Seq<char>> {
    match s {
        Some(s) => Some(s@),
        None => None,
    }
}

/// A copy of a string that may be missing.
pub fn opt_clone(s: &Option<String>) -> (out: Option<String>)
    ensures
        opt_view(out) == opt_view(*s),
{
    match s {
        Some(s) => Some(s.clone()),
        None => None,
    }
}

/// How the server treats the broadcasts of a channel.
#[derive(Clone, Copy, Debug, PartialEq, Eq, Structural)]
pub struct BroadcastConfig {
    /// Whether the server sends a client's own broadcasts back to it.
    pub broadcast_self: bool,
    /// Whether the server acknowledges each broadcast.
    pub ack: bool,
}

impl Default for BroadcastConfig {
    fn default() -> (out: BroadcastConfig)
        ensures
            out == (BroadcastConfig { broadcast_self: false, ack: false }),
    {
        BroadcastConfig { broadcast_self: false, ack: false }
    }
}

/// Under which key a client is present on a channel.
#[derive(Debug, PartialEq, Eq)]
pub struct PresenceConfig {
    pub key: Option<String>,
}

impl Default for PresenceConfig {
    fn default() -> (out: PresenceConfig)
        ensures
            out.key is None,
    {
        PresenceConfig { key: None }
    }
}

/// The kind of database change that a binding asks for.
#[derive(Clone, Copy, Debug, PartialEq, Eq, Structural)]
pub enum PostgresChangesEvent {
    All,
    Insert,
    Update,
    Delete,
}

/// Which rows a binding asks for.
#[derive(Debug, PartialEq, Eq)]
pub struct PostgresChangeFilter {
    pub schema: String,
    pub table: Option<String>,
    pub filter: Option<String>,
}

/// The mathematical value of a [`PostgresChangeFilter`].
pub struct FilterView {
    pub schema: Seq<char>,
    pub table: Option<Seq<char>>,
    pub filter: Option<Seq<char>>,
}

impl View for PostgresChangeFilter {
    type V = FilterView;

    open spec fn view(&self) -> FilterView {
        FilterView { schema: self.schema@, table: opt_view(self.table), filter: opt_view(self.filter) }
    }
}

impl Clone for PostgresChangeFilter {
    fn clone(&self) -> (out: PostgresChangeFilter)
        ensures
            out@ == self@,
    {
        PostgresChangeFilter {
            schema: self.schema.clone(),
            table: opt_clone(&self.table),
            filter: opt_clone(&self.filter),
        }
    }
}

/// One database subscription as a join asks for it.
#[derive(Debug, PartialEq, Eq)]
pub struct PostgresSubscription {
    pub event: PostgresChangesEvent,
    pub filter: PostgresChangeFilter,
}

impl View for PostgresSubscription {
    type V = (PostgresChangesEvent, FilterView);

    open spec fn view(&self) -> (PostgresChangesEvent, FilterView) {
        (self.event, self.filter@)
    }
}

/// The subscriptions of a list, each by its view.
pub open spec fn subscriptions_view(list: Seq<PostgresSubscription>) -> Seq<
    (PostgresChangesEvent, FilterView),
> {
    Seq::new(list.len(), |i: int| list[i]@)
}

/// What a join tells the server about the channel.
#[derive(Debug, PartialEq, Eq)]
pub struct JoinPayload {
    pub broadcast: BroadcastConfig,
    pub presence_key: Option<String>,
    pub postgres_changes: Vec<PostgresSubscription>,
    pub access_token: Option<String>,
}

/// The mathematical value of a [`JoinPayload`].
pub struct JoinPayloadView {
    pub broadcast: BroadcastConfig,
    pub presence_key: Option<Seq<char>>,
    pub postgres_changes: Seq<(PostgresChangesEvent, FilterView)>,
    pub access_token: Option<Seq<char>>,
}

impl View for JoinPayload {
    type V = JoinPayloadView;

    open spec fn view(&self) -> JoinPayloadView {
        JoinPayloadView {
            broadcast: self.broadcast,
            presence_key: opt_view(self.presence_key),
            postgres_changes: subscriptions_view(self.postgres_changes@),
            access_token: opt_view(self.access_token),
        }
    }
}

/// A request that the client sends.
#[derive(Debug, PartialEq, Eq)]
pub enum Outbound {
    Join { topic: String, reference: u64, payload: JoinPayload },
    Leave { topic: String, reference: u64 },
    Heartbeat { reference: u64 },
    Broadcast { topic: String, reference: Option<u64>, event: String, payload: Json },
    Track { topic: String, payload: Json },
    Untrack { topic: String },
    AccessToken { topic: String, token: String },
}

/// The mathematical value of an [`Outbound`].
pub enum OutboundView {
    Join { topic: Seq<char>, reference: u64, payload: JoinPayloadView },
    Leave { topic: Seq<char>, reference: u64 },
    Heartbeat { reference: u64 },
    Broadcast { topic: Seq<char>, reference: Option<u64>, event: Seq<char>, payload: JsonView },
    Track { topic: Seq<char>, payload: JsonView },
    Untrack { topic: Seq<char> },
    AccessToken { topic: Seq<char>, token: Seq<char> },
}

impl View for Outbound {
    type V = OutboundView;

    open spec fn view(&self) -> OutboundView {
        match self {
            Outbound::Join { topic, reference, payload } => OutboundView::Join {
                topic: topic@,
                reference: *reference,
                payload: payload@,
            },
            Outbound::Leave { topic, reference } => OutboundView::Leave {
                topic: topic@,
                reference: *reference,
            },
            Outbound::Heartbeat { reference } => OutboundView::Heartbeat { reference: *reference },
            Outbound::Broadcast { topic, reference, event, payload } => OutboundView::Broadcast {
                topic: topic@,
                reference: *reference,
                event: event@,
                payload: payload@,
            },
            Outbound::Track { topic, payload } => OutboundView::Track { topic: topic@, payload: payload@ },
            Outbound::Untrack { topic } => OutboundView::Untrack { topic: topic@ },
            Outbound::AccessToken { topic, token } => OutboundView::AccessToken {
                topic: topic@,
                token: token@,
            },
        }
    }
}

/// The requests of a list, each by its view.
pub open spec fn outbound_view(list: Seq<Outbound>) -> Seq<OutboundView> {
    Seq::new(list.len(), |i: int| list[i]@)
}

/// Whether the server took a request.
#[derive(Clone, Copy, Debug, PartialEq, Eq, Structural)]
pub enum ReplyStatus {
    /// The server's `ok`.
    Accepted,
    /// The server's `error`.
    Rejected,
}

/// What the server says to one channel.
#[derive(Debug)]
pub enum ServerEvent {
    /// The answer to the request with this reference. `postgres_ids` are
    /// the subscription indices that the response assigns, in its order.
    Reply { reference: u64, status: ReplyStatus, response: Json, postgres_ids: Vec<u64> },
    /// The channel has failed on the server.
    Error,
    /// Who is present, in full.
    PresenceState(PresenceState),
    /// Who joined and who left.
    PresenceDiff(PresenceDiff),
    /// A broadcast under an event name.
    Broadcast { event: String, payload: Json },
    /// A database change for the subscriptions with these indices.
    PostgresChanges { ids: Vec<u64>, data: Json },
}

/// The mathematical value of a [`ServerEvent`].
pub enum ServerEventView {
    Reply { reference: u64, status: ReplyStatus, response: JsonView, postgres_ids: Seq<u64> },
    Error,
    PresenceState(PresenceView),
    PresenceDiff(DiffView),
    Broadcast { event: Seq<char>, payload: JsonView },
    PostgresChanges { ids: Seq<u64>, data: JsonView },
}

impl View for ServerEvent {
    type V = ServerEventView;

    open spec fn view(&self) -> ServerEventView {
        match self {
            ServerEvent::Reply { reference, status, response, postgres_ids } => ServerEventView::Reply {
                reference: *reference,
                status: *status,
                response: response@,
                postgres_ids: postgres_ids@,
            },
            ServerEvent::Error => ServerEventView::Error,
            ServerEvent::PresenceState(state) => ServerEventView::PresenceState(state@),
            ServerEvent::PresenceDiff(diff) => ServerEventView::PresenceDiff(diff@),
            ServerEvent::Broadcast { event, payload } => ServerEventView::Broadcast {
                event: event@,
                payload: payload@,
            },
            ServerEvent::PostgresChanges { ids, data } => ServerEventView::PostgresChanges {
                ids: ids@,
                data: data@,
            },
        }
    }
}

impl ServerEvent {
    /// Whether the presence data that the event carries is in order.
    pub open spec fn wf(&self) -> bool {
        match self {
            ServerEvent::PresenceState(state) => state.wf(),
            ServerEvent::PresenceDiff(diff) => diff.wf(),
            _ => true,
        }
    }
}

/// An event from the server with the topic that it is for.
#[derive(Debug)]
pub struct Inbound {
    pub topic: String,
    pub event: ServerEvent,
}

} // verus!
