//! A channel: one topic on the connection, with its bindings, the requests
//! that wait for an answer, and who is present.

use vstd::prelude::*;
use crate::channel_model::{
    broadcast_events, can_subscribe, can_unsubscribe, diff_events, enumerates, has_pending, join_event,
    join_events, leave_event, leave_events, lemma_expired_inv, lemma_received_inv, overdue,
    pending_index, pending_live, postgres_events, presence_events, still_waiting, sync_event,
    timeout_events, with_ids, ChannelView, PendingRequest, PostgresBindingView, PresenceBinding,
    PresenceEvent, RequestKind,
};
use crate::dispatch::{events_view, lemma_events_push, HostEvent, HostEventView};
use crate::json::Json;
use crate::message::{
    opt_clone, opt_view, BroadcastConfig, JoinPayload, Outbound, OutboundView, PostgresChangeFilter,
    PostgresChangesEvent, PostgresSubscription, PresenceConfig,
};
use crate::message::{ReplyStatus, ServerEvent};
use crate::presence::{metas_clone, metas_view, PresenceMeta, PresenceState};
use crate::presence_model::{merge_joined, merge_left, merge_next, MetaView};
use crate::refs::RefAllocator;
use crate::status::{CallbackId, ChannelError, ChannelState, RequestError};

verus! {

/// A callback for the broadcasts under one event name.
#[derive(Debug, PartialEq, Eq)]
pub struct BroadcastBinding {
    pub event: String,
    pub callback: CallbackId,
}

/// A callback for database changes.
#[derive(Debug, PartialEq, Eq)]
pub struct PostgresBinding {
    pub event: PostgresChangesEvent,
    pub filter: PostgresChangeFilter,
    /// The index that the server gave the subscription, once joined.
    pub id: Option<u64>,
    pub callback: CallbackId,
}

impl View for PostgresBinding {
    type V = PostgresBindingView;

    open spec fn view(&self) -> PostgresBindingView {
        PostgresBindingView { event: self.event, filter: self.filter@, id: self.id, callback: self.callback }
    }
}

/// The broadcast bindings of a list, each by its view.
pub open spec fn broadcasts_view(list: Seq<BroadcastBinding>) -> Seq<(Seq<char>, CallbackId)> {
    Seq::new(list.len(), |i: int| (list[i].event@, list[i].callback))
}

/// The database bindings of a list, each by its view.
pub open spec fn postgres_view(list: Seq<PostgresBinding>) -> Seq<PostgresBindingView> {
    Seq::new(list.len(), |i: int| list[i]@)
}

/// A channel. It is made closed, takes bindings at any time, and is joined
/// and left by requests that the caller sends for it.
#[derive(Debug)]
pub struct Channel {
    topic: String,
    state: ChannelState,
    broadcast: BroadcastConfig,
    presence_key: Option<String>,
    access_token: Option<String>,
    broadcasts: Vec<BroadcastBinding>,
    presences: Vec<PresenceBinding>,
    postgres: Vec<PostgresBinding>,
    pending: Vec<PendingRequest>,
    presence: PresenceState,
    error_callback: Option<CallbackId>,
}

impl View for Channel {
    type V = ChannelView;

    closed spec fn view(&self) -> ChannelView {
        ChannelView {
            topic: self.topic@,
            state: self.state,
            broadcast: self.broadcast,
            presence_key: opt_view(self.presence_key),
            access_token: opt_view(self.access_token),
            broadcasts: broadcasts_view(self.broadcasts@),
            presences: self.presences@,
            postgres: postgres_view(self.postgres@),
            pending: self.pending@,
            presence: self.presence@,
            error_callback: self.error_callback,
        }
    }
}

impl Channel {
    /// Whether the channel is in order.
    pub closed spec fn wf(&self) -> bool {
        self.presence.wf() && self@.inv()
    }

    /// What `wf` says of the view.
    pub proof fn lemma_wf(&self)
        requires
            self.wf(),
        ensures
            self@.inv(),
    {
    }

    /// A closed channel on `topic` with no binding, default configuration
    /// and no access token.
    pub fn new(topic: &str) -> (out: Channel)
        ensures
            out.wf(),
            out@ == (ChannelView {
                topic: topic@,
                state: ChannelState::Closed,
                broadcast: BroadcastConfig { broadcast_self: false, ack: false },
                presence_key: None,
                access_token: None,
                broadcasts: Seq::empty(),
                presences: Seq::empty(),
                postgres: Seq::empty(),
                pending: Seq::empty(),
                presence: Map::empty(),
                error_callback: None,
            }),
    {
        let out = Channel {
            topic: topic.to_owned(),
            state: ChannelState::Closed,
            broadcast: BroadcastConfig { broadcast_self: false, ack: false },
            presence_key: None,
            access_token: None,
            broadcasts: Vec::new(),
            presences: Vec::new(),
            postgres: Vec::new(),
            pending: Vec::new(),
            presence: PresenceState::new(),
            error_callback: None,
        };
        proof {
            out.presence.lemma_wf();
            assert(out@.broadcasts =~= Seq::empty());
            assert(out@.postgres =~= Seq::empty());
        }
        out
    }

    /// The channel's topic.
    pub fn topic(&self) -> (topic: &String)
        ensures
            topic@ == self@.topic,
    {
        &self.topic
    }

    /// The state that the channel is in.
    pub fn state(&self) -> (state: ChannelState)
        ensures
            state == self@.state,
    {
        self.state
    }

    /// The number of requests that wait for an answer.
    pub fn pending_len(&self) -> (n: usize)
        ensures
            n == self@.pending.len(),
    {
        self.pending.len()
    }

    /// Who is present on the channel.
    pub fn presence(&self) -> (presence: &PresenceState)
        requires
            self.wf(),
        ensures
            presence.wf(),
            presence@ == self@.presence,
    {
        &self.presence
    }

    /// The index that the server gave the database binding registered at
    /// `position`, if that binding exists and has one.
    pub fn postgres_id(&self, position: usize) -> (id: Option<u64>)
        ensures
            id == if position < self@.postgres.len() {
                self@.postgres[position as int].id
            } else {
                None
            },
    {
        if position < self.postgres.len() {
            self.postgres[position].id
        } else {
            None
        }
    }

    /// Sets how the server treats the channel's broadcasts. It takes
    /// effect with the next join.
    pub fn set_broadcast_config(&mut self, config: BroadcastConfig)
        requires
            old(self).wf(),
        ensures
            final(self).wf(),
            final(self)@ == (ChannelView { broadcast: config, ..old(self)@ }),
    {
        self.broadcast = config;
    }

    /// Sets the key under which the client is present. It takes effect with
    /// the next join.
    pub fn set_presence_config(&mut self, config: PresenceConfig)
        requires
            old(self).wf(),
        ensures
            final(self).wf(),
            final(self)@ == (ChannelView { presence_key: opt_view(config.key), ..old(self)@ }),
    {
        self.presence_key = config.key;
    }

    /// Sets the callback that hears of the channel's failures.
    pub fn on_error(&mut self, callback: CallbackId)
        requires
            old(self).wf(),
        ensures
            final(self).wf(),
            final(self)@ == (ChannelView { error_callback: Some(callback), ..old(self)@ }),
    {
        self.error_callback = Some(callback);
    }

    /// Registers a callback for the broadcasts under the name `event`.
    pub fn on_broadcast(&mut self, event: &str, callback: CallbackId)
        requires
            old(self).wf(),
        ensures
            final(self).wf(),
            final(self)@ == (ChannelView {
                broadcasts: old(self)@.broadcasts.push((event@, callback)),
                ..old(self)@
            }),
    {
        self.broadcasts.push(BroadcastBinding { event: event.to_owned(), callback });
        assert(broadcasts_view(self.broadcasts@) =~= broadcasts_view(old(self).broadcasts@).push(
            (event@, callback),
        ));
    }

    /// Registers a callback for presence events of one kind.
    pub fn on_presence(&mut self, event: PresenceEvent, callback: CallbackId)
        requires
            old(self).wf(),
        ensures
            final(self).wf(),
            final(self)@ == (ChannelView {
                presences: old(self)@.presences.push(PresenceBinding { event, callback }),
                ..old(self)@
            }),
    {
        self.presences.push(PresenceBinding { event, callback });
    }

    /// Registers a callback for database changes. The subscription is asked
    /// for with the next join, and the binding has an index only once the
    /// server has answered that join.
    pub fn on_postgres_change(
        &mut self,
        event: PostgresChangesEvent,
        filter: PostgresChangeFilter,
        callback: CallbackId,
    )
        requires
            old(self).wf(),
        ensures
            final(self).wf(),
            final(self)@ == (ChannelView {
                postgres: old(self)@.postgres.push(
                    PostgresBindingView { event, filter: filter@, id: None, callback },
                ),
                ..old(self)@
            }),
    {
        let ghost binding = PostgresBindingView { event, filter: filter@, id: None, callback };
        self.postgres.push(PostgresBinding { event, filter, id: None, callback });
        assert(postgres_view(self.postgres@) =~= postgres_view(old(self).postgres@).push(binding));
    }

    /// What a join tells the server.
    fn join_payload(&self) -> (out: JoinPayload)
        ensures
            out@ == self@.join_payload(),
    {
        let mut subscriptions: Vec<PostgresSubscription> = Vec::new();
        let mut i: usize = 0;
        while i < self.postgres.len()
            invariant
                i <= self.postgres.len(),
                subscriptions.len() == i,
                forall|j: int|
                    0 <= j < i ==> (#[trigger] subscriptions[j])@ == (
                        self.postgres[j].event,
                        self.postgres[j].filter@,
                    ),
            decreases self.postgres.len() - i,
        {
            subscriptions.push(
                PostgresSubscription { event: self.postgres[i].event, filter: self.postgres[i].filter.clone() },
            );
            i += 1;
        }
        let out = JoinPayload {
            broadcast: self.broadcast,
            presence_key: opt_clone(&self.presence_key),
            postgres_changes: subscriptions,
            access_token: opt_clone(&self.access_token),
        };
        assert(out@.postgres_changes =~= self@.join_payload().postgres_changes);
        out
    }

    /// Forgets what waits, who is present and which indices the server
    /// gave, and goes to `state`.
    fn clear(&mut self, state: ChannelState)
        requires
            state != ChannelState::Joining,
            state != ChannelState::Leaving,
        ensures
            final(self)@ == old(self)@.cleared(state),
            state != ChannelState::Joined ==> final(self).wf(),
            final(self).presence.wf(),
    {
        self.state = state;
        self.pending = Vec::new();
        self.presence = PresenceState::new();
        let mut i: usize = 0;
        while i < self.postgres.len()
            invariant
                i <= self.postgres.len(),
                self.postgres.len() == old(self).postgres.len(),
                forall|j: int|
                    0 <= j < i ==> (#[trigger] self.postgres[j])@ == (PostgresBindingView {
                        id: None,
                        ..old(self).postgres[j]@
                    }),
                forall|j: int| i <= j < self.postgres.len() ==> self.postgres[j] == old(self).postgres[j],
                self.topic == old(self).topic,
                self.state == state,
                self.broadcast == old(self).broadcast,
                self.presence_key == old(self).presence_key,
                self.access_token == old(self).access_token,
                self.broadcasts == old(self).broadcasts,
                self.presences == old(self).presences,
                self.pending@ == Seq::<PendingRequest>::empty(),
                self.presence@ == Map::<Seq<char>, Seq<MetaView>>::empty(),
                self.presence.wf(),
                self.error_callback == old(self).error_callback,
            decreases self.postgres.len() - i,
        {
            let binding = &self.postgres[i];
            let cleared = PostgresBinding {
                event: binding.event,
                filter: binding.filter.clone(),
                id: None,
                callback: binding.callback,
            };
            self.postgres.set(i, cleared);
            i += 1;
        }
        proof {
            assert(self@.postgres =~= old(self)@.cleared(state).postgres);
            self.presence.lemma_wf();
        }
    }

    /// Closes the channel without a word to the server, as when the
    /// connection is gone: nothing waits any more and nobody is present.
    pub fn close(&mut self)
        ensures
            final(self).wf(),
            final(self)@ == old(self)@.cleared(ChannelState::Closed),
    {
        self.clear(ChannelState::Closed);
    }

    /// Joins the channel: it goes to `Joining`, and the join that is handed
    /// back is to be sent. A channel that is joined, being joined or being
    /// left is not joined again.
    pub fn subscribe(&mut self, refs: &mut RefAllocator, now: u64) -> (out: Result<Outbound, RequestError>)
        requires
            old(self).wf(),
            old(refs).wf(),
        ensures
            final(self).wf(),
            final(refs).wf(),
            pending_live(old(self)@.pending, old(refs)@) ==> pending_live(final(self)@.pending, final(refs)@),
            match out {
                Ok(frame) => {
                    &&& can_subscribe(old(self)@.state)
                    &&& old(refs)@.next < u64::MAX
                    &&& frame@ == (OutboundView::Join {
                        topic: old(self)@.topic,
                        reference: old(refs)@.next as u64,
                        payload: old(self)@.join_payload(),
                    })
                    &&& final(self)@ == old(self)@.joining(old(refs)@.next as u64, now)
                    &&& final(refs)@ == old(refs)@.allocated()
                },
                Err(RequestError::InvalidState(state)) => {
                    &&& !can_subscribe(old(self)@.state)
                    &&& state == old(self)@.state
                    &&& final(self)@ == old(self)@
                    &&& final(refs)@ == old(refs)@
                },
                Err(RequestError::RefsExhausted) => {
                    &&& can_subscribe(old(self)@.state)
                    &&& old(refs)@.next == u64::MAX
                    &&& final(self)@ == old(self)@
                    &&& final(refs)@ == old(refs)@
                },
                Err(_) => false,
            },
    {
        match self.state {
            ChannelState::Closed | ChannelState::Errored => {},
            _ => {
                return Err(RequestError::InvalidState(self.state));
            },
        }
        let reference = match refs.allocate() {
            Some(r) => r,
            None => {
                return Err(RequestError::RefsExhausted);
            },
        };
        let payload = self.join_payload();
        self.clear(ChannelState::Closed);
        self.state = ChannelState::Joining;
        self.pending.push(
            PendingRequest { reference, kind: RequestKind::Join, callback: None, sent_at: now },
        );
        proof {
            assert(self@.pending =~= old(self)@.joining(reference, now).pending);
            assert(self@.postgres =~= old(self)@.joining(reference, now).postgres);
        }
        Ok(Outbound::Join { topic: self.topic.clone(), reference, payload })
    }

    /// Leaves the channel: it goes to `Leaving`, what waited is forgotten,
    /// and the leave that is handed back is to be sent. Only a channel that
    /// is joined or being joined can be left.
    pub fn unsubscribe(&mut self, refs: &mut RefAllocator, now: u64) -> (out: Result<Outbound, RequestError>)
        requires
            old(self).wf(),
            old(refs).wf(),
        ensures
            final(self).wf(),
            final(refs).wf(),
            pending_live(old(self)@.pending, old(refs)@) ==> pending_live(final(self)@.pending, final(refs)@),
            match out {
                Ok(frame) => {
                    &&& can_unsubscribe(old(self)@.state)
                    &&& old(refs)@.next < u64::MAX
                    &&& frame@ == (OutboundView::Leave {
                        topic: old(self)@.topic,
                        reference: old(refs)@.next as u64,
                    })
                    &&& final(self)@ == old(self)@.leaving(old(refs)@.next as u64, now)
                    &&& final(refs)@ == old(refs)@.allocated()
                },
                Err(RequestError::InvalidState(state)) => {
                    &&& !can_unsubscribe(old(self)@.state)
                    &&& state == old(self)@.state
                    &&& final(self)@ == old(self)@
                    &&& final(refs)@ == old(refs)@
                },
                Err(RequestError::RefsExhausted) => {
                    &&& can_unsubscribe(old(self)@.state)
                    &&& old(refs)@.next == u64::MAX
                    &&& final(self)@ == old(self)@
                    &&& final(refs)@ == old(refs)@
                },
                Err(_) => false,
            },
    {
        match self.state {
            ChannelState::Joined | ChannelState::Joining => {},
            _ => {
                return Err(RequestError::InvalidState(self.state));
            },
        }
        let reference = match refs.allocate() {
            Some(r) => r,
            None => {
                return Err(RequestError::RefsExhausted);
            },
        };
        self.clear(ChannelState::Closed);
        self.state = ChannelState::Leaving;
        self.pending.push(
            PendingRequest { reference, kind: RequestKind::Leave, callback: None, sent_at: now },
        );
        proof {
            assert(self@.pending =~= old(self)@.leaving(reference, now).pending);
            assert(self@.postgres =~= old(self)@.leaving(reference, now).postgres);
        }
        Ok(Outbound::Leave { topic: self.topic.clone(), reference })
    }

    /// Takes the channel into a new session of the connection. A channel
    /// that was joined or being joined is joined anew, with a reference of
    /// the new session, and the join is handed back. A channel that was
    /// being left is closed. Where no reference is left the channel ends
    /// in `Errored`.
    pub fn rejoin(&mut self, refs: &mut RefAllocator, now: u64) -> (out: Option<Outbound>)
        requires
            old(self).wf(),
            old(refs).wf(),
        ensures
            final(self).wf(),
            final(refs).wf(),
            (can_subscribe(old(self)@.state) || pending_live(final(self)@.pending, final(refs)@)),
            if can_unsubscribe(old(self)@.state) {
                if old(refs)@.next < u64::MAX {
                    &&& out is Some
                    &&& out->0@ == (OutboundView::Join {
                        topic: old(self)@.topic,
                        reference: old(refs)@.next as u64,
                        payload: old(self)@.join_payload(),
                    })
                    &&& final(self)@ == old(self)@.joining(old(refs)@.next as u64, now)
                    &&& final(refs)@ == old(refs)@.allocated()
                } else {
                    &&& out is None
                    &&& final(self)@ == old(self)@.cleared(ChannelState::Errored)
                    &&& final(refs)@ == old(refs)@
                }
            } else {
                &&& out is None
                &&& final(refs)@ == old(refs)@
                &&& final(self)@ == if old(self)@.state == ChannelState::Leaving {
                    old(self)@.cleared(ChannelState::Closed)
                } else {
                    old(self)@
                }
            },
    {
        match self.state {
            ChannelState::Joined | ChannelState::Joining => {
                match refs.allocate() {
                    Some(reference) => {
                        let payload = self.join_payload();
                        self.clear(ChannelState::Closed);
                        self.state = ChannelState::Joining;
                        self.pending.push(
                            PendingRequest {
                                reference,
                                kind: RequestKind::Join,
                                callback: None,
                                sent_at: now,
                            },
                        );
                        proof {
                            assert(self@.pending =~= old(self)@.joining(reference, now).pending);
                            assert(self@.postgres =~= old(self)@.joining(reference, now).postgres);
                        }
                        Some(Outbound::Join { topic: self.topic.clone(), reference, payload })
                    },
                    None => {
                        self.clear(ChannelState::Errored);
                        None
                    },
                }
            },
            ChannelState::Leaving => {
                self.clear(ChannelState::Closed);
                None
            },
            _ => None,
        }
    }

    /// Sends a broadcast under the name `event`. The channel must be
    /// joined. Where the channel asks for acknowledgements the broadcast
    /// takes a reference and waits for its answer, which `callback` hears
    /// of if there is one; otherwise it goes without a reference and
    /// nothing waits.
    pub fn broadcast(
        &mut self,
        refs: &mut RefAllocator,
        event: &str,
        payload: Json,
        callback: Option<CallbackId>,
        now: u64,
    ) -> (out: Result<Outbound, RequestError>)
        requires
            old(self).wf(),
            old(refs).wf(),
            pending_live(old(self)@.pending, old(refs)@),
        ensures
            final(self).wf(),
            final(refs).wf(),
            pending_live(final(self)@.pending, final(refs)@),
            match out {
                Ok(frame) => {
                    &&& old(self)@.state == ChannelState::Joined
                    &&& if old(self)@.broadcast.ack {
                        &&& old(refs)@.next < u64::MAX
                        &&& frame@ == (OutboundView::Broadcast {
                            topic: old(self)@.topic,
                            reference: Some(old(refs)@.next as u64),
                            event: event@,
                            payload: payload@,
                        })
                        &&& final(self)@ == old(self)@.awaiting_ack(old(refs)@.next as u64, callback, now)
                        &&& final(refs)@ == old(refs)@.allocated()
                    } else {
                        &&& frame@ == (OutboundView::Broadcast {
                            topic: old(self)@.topic,
                            reference: None,
                            event: event@,
                            payload: payload@,
                        })
                        &&& final(self)@ == old(self)@
                        &&& final(refs)@ == old(refs)@
                    }
                },
                Err(RequestError::InvalidState(state)) => {
                    &&& old(self)@.state != ChannelState::Joined
                    &&& state == old(self)@.state
                    &&& final(self)@ == old(self)@
                    &&& final(refs)@ == old(refs)@
                },
                Err(RequestError::RefsExhausted) => {
                    &&& old(self)@.state == ChannelState::Joined
                    &&& old(self)@.broadcast.ack
                    &&& old(refs)@.next == u64::MAX
                    &&& final(self)@ == old(self)@
                    &&& final(refs)@ == old(refs)@
                },
                Err(_) => false,
            },
    {
        match self.state {
            ChannelState::Joined => {},
            _ => {
                return Err(RequestError::InvalidState(self.state));
            },
        }
        if !self.broadcast.ack {
            return Ok(
                Outbound::Broadcast {
                    topic: self.topic.clone(),
                    reference: None,
                    event: event.to_owned(),
                    payload,
                },
            );
        }
        let reference = match refs.allocate() {
            Some(r) => r,
            None => {
                return Err(RequestError::RefsExhausted);
            },
        };
        self.pending.push(
            PendingRequest { reference, kind: RequestKind::Broadcast, callback, sent_at: now },
        );
        proof {
            let before = old(self)@.pending;
            let after = self@.pending;
            assert forall|i: int, j: int| 0 <= i < j < after.len() implies (#[trigger] after[i]).reference != (
            #[trigger] after[j]).reference by {
                if j == before.len() {
                    assert(old(refs)@.is_live(before[i].reference as nat));
                } else {
                    assert(before[i].reference != before[j].reference);
                }
            }
            assert forall|i: int| 0 <= i < after.len() implies (#[trigger] after[i]).kind
                == RequestKind::Broadcast by {
                if i < before.len() {
                    assert(before[i].kind == RequestKind::Broadcast);
                }
            }
            assert forall|i: int| 0 <= i < after.len() implies refs@.is_live(
                (#[trigger] after[i]).reference as nat,
            ) by {
                if i < before.len() {
                    assert(old(refs)@.is_live(before[i].reference as nat));
                }
            }
        }
        Ok(
            Outbound::Broadcast {
                topic: self.topic.clone(),
                reference: Some(reference),
                event: event.to_owned(),
                payload,
            },
        )
    }

    /// Asks the server to track `payload` as this client's presence. The
    /// channel must be joined. Nothing changes here: the state changes
    /// when the server's diff comes in.
    pub fn track_presence(&self, payload: Json) -> (out: Result<Outbound, RequestError>)
        ensures
            match out {
                Ok(frame) => {
                    &&& self@.state == ChannelState::Joined
                    &&& frame@ == (OutboundView::Track { topic: self@.topic, payload: payload@ })
                },
                Err(error) => {
                    &&& self@.state != ChannelState::Joined
                    &&& error == RequestError::InvalidState(self@.state)
                },
            },
    {
        match self.state {
            ChannelState::Joined => Ok(Outbound::Track { topic: self.topic.clone(), payload }),
            _ => Err(RequestError::InvalidState(self.state)),
        }
    }

    /// Asks the server to track this client's presence no longer. The
    /// channel must be joined.
    pub fn untrack_presence(&self) -> (out: Result<Outbound, RequestError>)
        ensures
            match out {
                Ok(frame) => {
                    &&& self@.state == ChannelState::Joined
                    &&& frame@ == (OutboundView::Untrack { topic: self@.topic })
                },
                Err(error) => {
                    &&& self@.state != ChannelState::Joined
                    &&& error == RequestError::InvalidState(self@.state)
                },
            },
    {
        match self.state {
            ChannelState::Joined => Ok(Outbound::Untrack { topic: self.topic.clone() }),
            _ => Err(RequestError::InvalidState(self.state)),
        }
    }

    /// Takes a new access token. A joined channel hands back the request
    /// that tells the server of it; any other channel sends it with its
    /// next join.
    pub fn set_access_token(&mut self, token: &str) -> (out: Option<Outbound>)
        requires
            old(self).wf(),
        ensures
            final(self).wf(),
            final(self)@ == (ChannelView { access_token: Some(token@), ..old(self)@ }),
            match out {
                Some(frame) => {
                    &&& old(self)@.state == ChannelState::Joined
                    &&& frame@ == (OutboundView::AccessToken { topic: old(self)@.topic, token: token@ })
                },
                None => old(self)@.state != ChannelState::Joined,
            },
    {
        self.access_token = Some(token.to_owned());
        match self.state {
            ChannelState::Joined => Some(
                Outbound::AccessToken { topic: self.topic.clone(), token: token.to_owned() },
            ),
            _ => None,
        }
    }

    /// The channel's state, for the callback that asked for it.
    pub fn channel_state(&self, callback: CallbackId) -> (out: HostEvent)
        ensures
            out@ == (HostEventView::ChannelStatus { callback, state: self@.state }),
    {
        HostEvent::ChannelStatus { callback, state: self.state }
    }

    /// Who is present on the channel, for the callback that asked for it.
    pub fn presence_state(&self, callback: CallbackId) -> (out: HostEvent)
        ensures
            out@ == (HostEventView::PresenceSnapshot { callback, state: self@.presence }),
    {
        HostEvent::PresenceSnapshot { callback, state: self.presence.clone() }
    }
}

/// The views of the keys of a list.
pub open spec fn keys_view(keys: Seq<String>) -> Seq<Seq<char>> {
    Seq::new(keys.len(), |i: int| keys[i]@)
}

/// Whether `id` is among `ids`.
fn contains_id(ids: &Vec<u64>, id: u64) -> (found: bool)
    ensures
        found == ids@.contains(id),
{
    let mut i: usize = 0;
    while i < ids.len()
        invariant
            i <= ids.len(),
            forall|j: int| 0 <= j < i ==> ids[j] != id,
        decreases ids.len() - i,
    {
        if ids[i] == id {
            return true;
        }
        i += 1;
    }
    false
}

/// What a presence binding of some kind is to receive.
enum PresenceNews<'a> {
    Join { key: &'a String, previous: &'a Vec<PresenceMeta>, current: &'a Vec<PresenceMeta> },
    Leave { key: &'a String, current: &'a Vec<PresenceMeta>, left: &'a Vec<PresenceMeta> },
    Sync { state: &'a PresenceState },
}

impl<'a> PresenceNews<'a> {
    spec fn kind(self) -> PresenceEvent {
        match self {
            PresenceNews::Join { .. } => PresenceEvent::Join,
            PresenceNews::Leave { .. } => PresenceEvent::Leave,
            PresenceNews::Sync { .. } => PresenceEvent::Sync,
        }
    }

    spec fn event(self, callback: CallbackId) -> HostEventView {
        match self {
            PresenceNews::Join { key, previous, current } => HostEventView::PresenceJoin {
                callback,
                key: key@,
                previous: metas_view(previous@),
                current: metas_view(current@),
            },
            PresenceNews::Leave { key, current, left } => HostEventView::PresenceLeave {
                callback,
                key: key@,
                current: metas_view(current@),
                left: metas_view(left@),
            },
            PresenceNews::Sync { state } => HostEventView::PresenceSync { callback, state: state@ },
        }
    }

    /// The news for one callback.
    fn deliver(&self, callback: CallbackId) -> (out: HostEvent)
        ensures
            out@ == self.event(callback),
    {
        match self {
            PresenceNews::Join { key, previous, current } => HostEvent::PresenceJoin {
                callback,
                key: (*key).clone(),
                previous: metas_clone(previous),
                current: metas_clone(current),
            },
            PresenceNews::Leave { key, current, left } => HostEvent::PresenceLeave {
                callback,
                key: (*key).clone(),
                current: metas_clone(current),
                left: metas_clone(left),
            },
            PresenceNews::Sync { state } => HostEvent::PresenceSync { callback, state: (*state).clone() },
        }
    }
}

/// Puts behind `out` the news for each binding of the news' kind, in the
/// order of registration.
fn deliver_presence(
    out: &mut Vec<HostEvent>,
    bindings: &Vec<PresenceBinding>,
    news: &PresenceNews,
    Ghost(make): Ghost<spec_fn(CallbackId) -> HostEventView>,
)
    requires
        forall|callback: CallbackId| #[trigger] make(callback) == news.event(callback),
    ensures
        events_view(final(out)@) == events_view(old(out)@) + presence_events(bindings@, news.kind(), make),
{
    let ghost before = events_view(out@);
    let mut i: usize = 0;
    assert(bindings@.take(0) =~= Seq::empty());
    assert(before + Seq::empty() =~= before);
    while i < bindings.len()
        invariant
            i <= bindings.len(),
            forall|callback: CallbackId| #[trigger] make(callback) == news.event(callback),
            events_view(out@) == before + presence_events(bindings@.take(i as int), news.kind(), make),
        decreases bindings.len() - i,
    {
        let binding = bindings[i];
        let wanted = match (binding.event, news) {
            (PresenceEvent::Join, PresenceNews::Join { .. }) => true,
            (PresenceEvent::Leave, PresenceNews::Leave { .. }) => true,
            (PresenceEvent::Sync, PresenceNews::Sync { .. }) => true,
            _ => false,
        };
        proof {
            assert(bindings@.take(i + 1).drop_last() =~= bindings@.take(i as int));
            assert(bindings@.take(i + 1).last() == binding);
            assert(wanted == (binding.event == news.kind()));
        }
        if wanted {
            let event = news.deliver(binding.callback);
            proof {
                lemma_events_push(out@, event);
                let so_far = presence_events(bindings@.take(i as int), news.kind(), make);
                assert(before + so_far.push(event@) =~= (before + so_far).push(event@));
            }
            out.push(event);
        }
        i += 1;
    }
    assert(bindings@.take(bindings.len() as int) =~= bindings@);
}

impl Channel {
    /// Where the request with the reference `r` waits, if one does.
    fn find_pending(&self, r: u64) -> (found: Option<usize>)
        requires
            self.wf(),
        ensures
            match found {
                Some(i) => has_pending(self@.pending, r) && i as int == pending_index(self@.pending, r)
                    && i < self@.pending.len() && self@.pending[i as int].reference == r,
                None => !has_pending(self@.pending, r),
            },
    {
        let mut i: usize = 0;
        while i < self.pending.len()
            invariant
                i <= self.pending.len(),
                self.wf(),
                forall|j: int| 0 <= j < i ==> (#[trigger] self.pending[j]).reference != r,
            decreases self.pending.len() - i,
        {
            if self.pending[i].reference == r {
                proof {
                    let pending = self@.pending;
                    assert(pending[i as int].reference == r);
                    let index = pending_index(pending, r);
                    if index < i {
                        assert(pending[index].reference != pending[i as int].reference);
                    }
                    if index > i {
                        assert(pending[i as int].reference != pending[index].reference);
                    }
                }
                return Some(i);
            }
            i += 1;
        }
        None
    }

    /// Gives the database bindings the indices of `ids`, in the order of
    /// registration.
    fn assign_ids(&mut self, ids: &Vec<u64>)
        ensures
            final(self)@ == (ChannelView { postgres: with_ids(old(self)@.postgres, ids@), ..old(self)@ }),
            final(self).presence == old(self).presence,
    {
        let mut i: usize = 0;
        while i < self.postgres.len()
            invariant
                i <= self.postgres.len(),
                self.postgres.len() == old(self).postgres.len(),
                forall|j: int|
                    0 <= j < i ==> (#[trigger] self.postgres[j])@ == (PostgresBindingView {
                        id: if j < ids.len() {
                            Some(ids[j])
                        } else {
                            None
                        },
                        ..old(self).postgres[j]@
                    }),
                forall|j: int| i <= j < self.postgres.len() ==> self.postgres[j] == old(self).postgres[j],
                self.topic == old(self).topic,
                self.state == old(self).state,
                self.broadcast == old(self).broadcast,
                self.presence_key == old(self).presence_key,
                self.access_token == old(self).access_token,
                self.broadcasts == old(self).broadcasts,
                self.presences == old(self).presences,
                self.pending == old(self).pending,
                self.presence == old(self).presence,
                self.error_callback == old(self).error_callback,
            decreases self.postgres.len() - i,
        {
            let binding = &self.postgres[i];
            let assigned = PostgresBinding {
                event: binding.event,
                filter: binding.filter.clone(),
                id: if i < ids.len() {
                    Some(ids[i])
                } else {
                    None
                },
                callback: binding.callback,
            };
            self.postgres.set(i, assigned);
            i += 1;
        }
        proof {
            assert(self@.postgres =~= with_ids(old(self)@.postgres, ids@));
        }
    }

    /// The deliveries of a broadcast.
    fn deliver_broadcast(&self, event: &String, payload: &Json) -> (out: Vec<HostEvent>)
        ensures
            events_view(out@) == broadcast_events(self@.broadcasts, event@, payload@),
    {
        let ghost bindings = self@.broadcasts;
        let mut out: Vec<HostEvent> = Vec::new();
        let mut i: usize = 0;
        assert(bindings.take(0) =~= Seq::empty());
        assert(events_view(out@) =~= Seq::empty());
        while i < self.broadcasts.len()
            invariant
                i <= self.broadcasts.len(),
                bindings == self@.broadcasts,
                bindings.len() == self.broadcasts.len(),
                events_view(out@) == broadcast_events(bindings.take(i as int), event@, payload@),
            decreases self.broadcasts.len() - i,
        {
            proof {
                assert(bindings.take(i + 1).drop_last() =~= bindings.take(i as int));
                assert(bindings.take(i + 1).last() == (
                    self.broadcasts[i as int].event@,
                    self.broadcasts[i as int].callback,
                ));
            }
            if self.broadcasts[i].event == *event {
                let delivery = HostEvent::Broadcast {
                    callback: self.broadcasts[i].callback,
                    payload: payload.clone(),
                };
                proof {
                    lemma_events_push(out@, delivery);
                }
                out.push(delivery);
            }
            i += 1;
        }
        assert(bindings.take(self.broadcasts.len() as int) =~= bindings);
        out
    }

    /// The deliveries of a database change.
    fn deliver_postgres(&self, ids: &Vec<u64>, data: &Json) -> (out: Vec<HostEvent>)
        ensures
            events_view(out@) == postgres_events(self@.postgres, ids@, data@),
    {
        let ghost bindings = self@.postgres;
        let mut out: Vec<HostEvent> = Vec::new();
        let mut i: usize = 0;
        assert(bindings.take(0) =~= Seq::empty());
        assert(events_view(out@) =~= Seq::empty());
        while i < self.postgres.len()
            invariant
                i <= self.postgres.len(),
                bindings == self@.postgres,
                bindings.len() == self.postgres.len(),
                events_view(out@) == postgres_events(bindings.take(i as int), ids@, data@),
            decreases self.postgres.len() - i,
        {
            proof {
                assert(bindings.take(i + 1).drop_last() =~= bindings.take(i as int));
                assert(bindings.take(i + 1).last() == self.postgres[i as int]@);
            }
            let wanted = match self.postgres[i].id {
                Some(id) => contains_id(ids, id),
                None => false,
            };
            if wanted {
                let delivery = HostEvent::PostgresChanges {
                    callback: self.postgres[i].callback,
                    payload: data.clone(),
                };
                proof {
                    lemma_events_push(out@, delivery);
                }
                out.push(delivery);
            }
            i += 1;
        }
        assert(bindings.take(self.postgres.len() as int) =~= bindings);
        out
    }

    /// Puts behind `out` the join deliveries for the keys of `joined`.
    fn deliver_joins(&self, out: &mut Vec<HostEvent>, joined: &PresenceState) -> (keys: Ghost<
        Seq<Seq<char>>,
    >)
        requires
            self.wf(),
            joined.wf(),
        ensures
            enumerates(keys@, joined@),
            events_view(final(out)@) == events_view(old(out)@) + join_events(
                self@.presences,
                keys@,
                self@.presence,
                joined@,
            ),
    {
        let keys = joined.keys();
        let ghost names = keys_view(keys@);
        let ghost before = events_view(out@);
        proof {
            assert forall|k: Seq<char>| joined@.contains_key(k) implies exists|i: int|
                0 <= i < names.len() && #[trigger] names[i] == k by {
                let i = choose|i: int| 0 <= i < keys.len() && #[trigger] keys[i]@ == k;
                assert(names[i] == k);
            }
            assert(names.take(0) =~= Seq::empty());
            assert(before + Seq::empty() =~= before);
        }
        let mut i: usize = 0;
        while i < keys.len()
            invariant
                i <= keys.len(),
                self.wf(),
                joined.wf(),
                names == keys_view(keys@),
                events_view(out@) == before + join_events(
                    self@.presences,
                    names.take(i as int),
                    self@.presence,
                    joined@,
                ),
            decreases keys.len() - i,
        {
            let key = &keys[i];
            let previous = self.presence.metas_of(key);
            let current = joined.metas_of(key);
            let news = PresenceNews::Join { key, previous: &previous, current: &current };
            let ghost make = join_event(key@, self@.presence, joined@);
            let ghost so_far = join_events(self@.presences, names.take(i as int), self@.presence, joined@);
            deliver_presence(out, &self.presences, &news, Ghost(make));
            proof {
                assert(names.take(i + 1).drop_last() =~= names.take(i as int));
                assert(names.take(i + 1).last() == key@);
                let more = presence_events(self@.presences, PresenceEvent::Join, make);
                assert(before + so_far + more =~= before + (so_far + more));
            }
            i += 1;
        }
        assert(names.take(keys.len() as int) =~= names);
        Ghost(names)
    }

    /// Puts behind `out` the leave deliveries for the keys of `left`, with
    /// what each key holds in `next`.
    fn deliver_leaves(
        &self,
        out: &mut Vec<HostEvent>,
        next: &PresenceState,
        left: &PresenceState,
    ) -> (keys: Ghost<Seq<Seq<char>>>)
        requires
            next.wf(),
            left.wf(),
        ensures
            enumerates(keys@, left@),
            events_view(final(out)@) == events_view(old(out)@) + leave_events(
                self@.presences,
                keys@,
                next@,
                left@,
            ),
    {
        let keys = left.keys();
        let ghost names = keys_view(keys@);
        let ghost before = events_view(out@);
        proof {
            assert forall|k: Seq<char>| left@.contains_key(k) implies exists|i: int|
                0 <= i < names.len() && #[trigger] names[i] == k by {
                let i = choose|i: int| 0 <= i < keys.len() && #[trigger] keys[i]@ == k;
                assert(names[i] == k);
            }
            assert(names.take(0) =~= Seq::empty());
            assert(before + Seq::empty() =~= before);
        }
        let mut i: usize = 0;
        while i < keys.len()
            invariant
                i <= keys.len(),
                next.wf(),
                left.wf(),
                names == keys_view(keys@),
                events_view(out@) == before + leave_events(self@.presences, names.take(i as int), next@, left@),
            decreases keys.len() - i,
        {
            let key = &keys[i];
            let current = next.metas_of(key);
            let gone = left.metas_of(key);
            let news = PresenceNews::Leave { key, current: &current, left: &gone };
            let ghost make = leave_event(key@, next@, left@);
            let ghost so_far = leave_events(self@.presences, names.take(i as int), next@, left@);
            deliver_presence(out, &self.presences, &news, Ghost(make));
            proof {
                assert(names.take(i + 1).drop_last() =~= names.take(i as int));
                assert(names.take(i + 1).last() == key@);
                let more = presence_events(self@.presences, PresenceEvent::Leave, make);
                assert(before + so_far + more =~= before + (so_far + more));
            }
            i += 1;
        }
        assert(names.take(keys.len() as int) =~= names);
        Ghost(names)
    }

    /// Takes in an event from the server and hands back what it delivers
    /// to the host, in order. A reply whose reference no request waits for
    /// is dropped. A join that is accepted takes the channel to `Joined`
    /// and gives the database bindings their indices; one that is refused
    /// takes it to `Errored`. The answer to a leave closes the channel.
    /// Presence, broadcasts and database changes count only while the
    /// channel is joined.
    pub fn receive(&mut self, event: ServerEvent) -> (out: Vec<HostEvent>)
        requires
            old(self).wf(),
            event.wf(),
        ensures
            final(self).wf(),
            final(self)@ == old(self)@.received(event@),
            old(self)@.delivers(event@, events_view(out@)),
            forall|i: int|
                0 <= i < final(self)@.pending.len() ==> old(self)@.pending.contains(
                    #[trigger] final(self)@.pending[i],
                ),
    {
        let mut out: Vec<HostEvent> = Vec::new();
        assert(events_view(out@) =~= Seq::empty());
        let ghost ev = event@;
        proof {
            old(self).presence.lemma_wf();
        }
        match event {
            ServerEvent::Reply { reference, status, response, postgres_ids } => {
                proof {
                    lemma_received_inv(old(self)@, ev);
                }
                match self.find_pending(reference) {
                    None => {},
                    Some(index) => {
                        let request = self.pending[index];
                        match request.kind {
                            RequestKind::Join => {
                                match status {
                                    ReplyStatus::Accepted => {
                                        self.state = ChannelState::Joined;
                                        self.pending = Vec::new();
                                        self.assign_ids(&postgres_ids);
                                    },
                                    ReplyStatus::Rejected => {
                                        match self.error_callback {
                                            Some(callback) => {
                                                let delivery = HostEvent::ChannelFailed {
                                                    callback,
                                                    error: ChannelError::JoinRejected(response),
                                                };
                                                proof {
                                                    lemma_events_push(out@, delivery);
                                                }
                                                out.push(delivery);
                                            },
                                            None => {},
                                        }
                                        self.clear(ChannelState::Errored);
                                    },
                                }
                            },
                            RequestKind::Leave => {
                                self.clear(ChannelState::Closed);
                            },
                            RequestKind::Broadcast => {
                                self.pending.remove(index);
                                match request.callback {
                                    Some(callback) => {
                                        let delivery = HostEvent::Reply { callback, status, response };
                                        proof {
                                            lemma_events_push(out@, delivery);
                                        }
                                        out.push(delivery);
                                    },
                                    None => {},
                                }
                            },
                        }
                    },
                }
                proof {
                    assert(events_view(out@) =~= if has_pending(old(self)@.pending, reference) {
                        old(self)@.answer_events(
                            pending_index(old(self)@.pending, reference),
                            status,
                            response@,
                        )
                    } else {
                        Seq::empty()
                    });
                }
            },
            ServerEvent::Error => {
                proof {
                    lemma_received_inv(old(self)@, ev);
                }
                match self.state {
                    ChannelState::Closed => {},
                    _ => {
                        self.clear(ChannelState::Errored);
                    },
                }
            },
            ServerEvent::PresenceState(state) => {
                proof {
                    state.lemma_wf();
                    lemma_received_inv(old(self)@, ev);
                }
                match self.state {
                    ChannelState::Joined => {
                        let news = PresenceNews::Sync { state: &state };
                        let ghost make = sync_event(state@);
                        deliver_presence(&mut out, &self.presences, &news, Ghost(make));
                        self.presence = state;
                        assert(Seq::<HostEventView>::empty() + presence_events(
                            self@.presences,
                            PresenceEvent::Sync,
                            make,
                        ) =~= presence_events(self@.presences, PresenceEvent::Sync, make));
                    },
                    _ => {},
                }
            },
            ServerEvent::PresenceDiff(diff) => {
                match self.state {
                    ChannelState::Joined => {
                        let merged = self.presence.merge(&diff);
                        proof {
                            merged.next.lemma_wf();
                            lemma_received_inv(old(self)@, ev);
                        }
                        let ghost bindings = self@.presences;
                        let ghost before = self@.presence;
                        let Ghost(joined_keys) = self.deliver_joins(&mut out, &merged.joined);
                        let Ghost(left_keys) = self.deliver_leaves(&mut out, &merged.next, &merged.left);
                        let news = PresenceNews::Sync { state: &merged.next };
                        let ghost make = sync_event(merged.next@);
                        deliver_presence(&mut out, &self.presences, &news, Ghost(make));
                        self.presence = merged.next;
                        proof {
                            let joins = join_events(bindings, joined_keys, before, merge_joined(before, diff@));
                            let leaves = leave_events(
                                bindings,
                                left_keys,
                                merge_next(before, diff@),
                                merge_left(before, diff@),
                            );
                            let syncs = presence_events(bindings, PresenceEvent::Sync, make);
                            assert(Seq::<HostEventView>::empty() + joins =~= joins);
                            assert(events_view(out@) == diff_events(
                                bindings,
                                before,
                                diff@,
                                joined_keys,
                                left_keys,
                            ));
                        }
                    },
                    _ => {
                        proof {
                            lemma_received_inv(old(self)@, ev);
                        }
                    },
                }
            },
            ServerEvent::Broadcast { event: name, payload } => {
                proof {
                    lemma_received_inv(old(self)@, ev);
                }
                match self.state {
                    ChannelState::Joined => {
                        out = self.deliver_broadcast(&name, &payload);
                    },
                    _ => {},
                }
            },
            ServerEvent::PostgresChanges { ids, data } => {
                proof {
                    lemma_received_inv(old(self)@, ev);
                }
                match self.state {
                    ChannelState::Joined => {
                        out = self.deliver_postgres(&ids, &data);
                    },
                    _ => {},
                }
            },
        }
        out
    }
}

impl Channel {
    /// Gives up the requests that have waited for `timeout` or longer. For
    /// each of them the channel's error callback, if there is one, hears
    /// of a timeout. A join that is overdue leaves the channel in
    /// `Errored`, a leave that is overdue closes it, and an overdue
    /// broadcast waits no longer.
    pub fn expire(&mut self, now: u64, timeout: u64) -> (out: Vec<HostEvent>)
        requires
            old(self).wf(),
        ensures
            final(self).wf(),
            final(self)@ == old(self)@.expired(now, timeout),
            events_view(out@) == old(self)@.expire_events(now, timeout),
    {
        let ghost before = self@.pending;
        let ghost callback = self@.error_callback;
        let mut out: Vec<HostEvent> = Vec::new();
        let mut kept: Vec<PendingRequest> = Vec::new();
        let mut i: usize = 0;
        proof {
            lemma_expired_inv(self@, now, timeout);
            assert(before.take(0) =~= Seq::empty());
            assert(events_view(out@) =~= Seq::empty());
        }
        while i < self.pending.len()
            invariant
                i <= self.pending.len(),
                *self == *old(self),
                before == self@.pending,
                callback == self@.error_callback,
                kept@ == still_waiting(before.take(i as int), now, timeout),
                events_view(out@) == timeout_events(before.take(i as int), callback, now, timeout),
            decreases self.pending.len() - i,
        {
            let request = self.pending[i];
            let waited = if now >= request.sent_at {
                now - request.sent_at
            } else {
                0
            };
            proof {
                assert(before.take(i + 1).drop_last() =~= before.take(i as int));
                assert(before.take(i + 1).last() == request);
            }
            if waited >= timeout {
                match self.error_callback {
                    Some(callback) => {
                        let delivery = HostEvent::ChannelFailed {
                            callback,
                            error: ChannelError::RequestTimeout,
                        };
                        proof {
                            lemma_events_push(out@, delivery);
                        }
                        out.push(delivery);
                    },
                    None => {},
                }
            } else {
                kept.push(request);
            }
            i += 1;
        }
        proof {
            assert(before.take(before.len() as int) =~= before);
            self.lemma_wf();
        }
        match self.state {
            ChannelState::Joining => {
                if kept.len() == 0 {
                    proof {
                        lemma_overdue_single(before, now, timeout);
                    }
                    self.clear(ChannelState::Errored);
                } else {
                    proof {
                        lemma_overdue_single(before, now, timeout);
                    }
                }
            },
            ChannelState::Leaving => {
                if kept.len() == 0 {
                    proof {
                        lemma_overdue_single(before, now, timeout);
                    }
                    self.clear(ChannelState::Closed);
                } else {
                    proof {
                        lemma_overdue_single(before, now, timeout);
                    }
                }
            },
            ChannelState::Joined => {
                self.pending = kept;
            },
            _ => {},
        }
        out
    }
}

/// Of a single request either it or nothing still waits.
proof fn lemma_overdue_single(pending: Seq<PendingRequest>, now: u64, timeout: u64)
    requires
        pending.len() == 1,
    ensures
        still_waiting(pending, now, timeout).len() == if overdue(pending[0], now, timeout) {
            0nat
        } else {
            1nat
        },
{
    assert(pending.drop_last() =~= Seq::empty());
    assert(still_waiting(pending.drop_last(), now, timeout) =~= Seq::empty());
}

/// Puts a channel together before it is joined: the topic, the
/// configuration and the bindings, one call after the other.
#[derive(Debug)]
pub struct ChannelBuilder {
    channel: Channel,
}

impl View for ChannelBuilder {
    type V = ChannelView;

    closed spec fn view(&self) -> ChannelView {
        self.channel@
    }
}

impl ChannelBuilder {
    /// Whether the channel that is being put together is in order.
    pub closed spec fn wf(&self) -> bool {
        self.channel.wf()
    }

    /// A builder for a closed channel with an empty topic, no binding,
    /// default configuration and no access token.
    pub fn new() -> (out: ChannelBuilder)
        ensures
            out.wf(),
            out@ == (ChannelView {
                topic: Seq::empty(),
                state: ChannelState::Closed,
                broadcast: BroadcastConfig { broadcast_self: false, ack: false },
                presence_key: None,
                access_token: None,
                broadcasts: Seq::empty(),
                presences: Seq::empty(),
                postgres: Seq::empty(),
                pending: Seq::empty(),
                presence: Map::empty(),
                error_callback: None,
            }),
    {
        let mut channel = Channel::new("");
        channel.topic = String::new();
        ChannelBuilder { channel }
    }

    /// Sets the topic.
    pub fn topic(self, topic: &str) -> (out: ChannelBuilder)
        requires
            self.wf(),
        ensures
            out.wf(),
            out@ == (ChannelView { topic: topic@, ..self@ }),
    {
        let mut channel = self.channel;
        channel.topic = topic.to_owned();
        ChannelBuilder { channel }
    }

    /// Sets how the server treats the channel's broadcasts.
    pub fn set_broadcast_config(self, config: BroadcastConfig) -> (out: ChannelBuilder)
        requires
            self.wf(),
        ensures
            out.wf(),
            out@ == (ChannelView { broadcast: config, ..self@ }),
    {
        let mut channel = self.channel;
        channel.set_broadcast_config(config);
        ChannelBuilder { channel }
    }

    /// Sets the key under which the client is present.
    pub fn set_presence_config(self, config: PresenceConfig) -> (out: ChannelBuilder)
        requires
            self.wf(),
        ensures
            out.wf(),
            out@ == (ChannelView { presence_key: opt_view(config.key), ..self@ }),
    {
        let mut channel = self.channel;
        channel.set_presence_config(config);
        ChannelBuilder { channel }
    }

    /// Sets the access token that the join sends.
    pub fn set_access_token(self, token: &str) -> (out: ChannelBuilder)
        requires
            self.wf(),
        ensures
            out.wf(),
            out@ == (ChannelView { access_token: Some(token@), ..self@ }),
    {
        let mut channel = self.channel;
        let _ = channel.set_access_token(token);
        ChannelBuilder { channel }
    }

    /// Sets the callback that hears of the channel's failures.
    pub fn on_error(self, callback: CallbackId) -> (out: ChannelBuilder)
        requires
            self.wf(),
        ensures
            out.wf(),
            out@ == (ChannelView { error_callback: Some(callback), ..self@ }),
    {
        let mut channel = self.channel;
        channel.on_error(callback);
        ChannelBuilder { channel }
    }

    /// Registers a callback for the broadcasts under the name `event`.
    pub fn on_broadcast(self, event: &str, callback: CallbackId) -> (out: ChannelBuilder)
        requires
            self.wf(),
        ensures
            out.wf(),
            out@ == (ChannelView { broadcasts: self@.broadcasts.push((event@, callback)), ..self@ }),
    {
        let mut channel = self.channel;
        channel.on_broadcast(event, callback);
        ChannelBuilder { channel }
    }

    /// Registers a callback for presence events of one kind.
    pub fn on_presence(self, event: PresenceEvent, callback: CallbackId) -> (out: ChannelBuilder)
        requires
            self.wf(),
        ensures
            out.wf(),
            out@ == (ChannelView {
                presences: self@.presences.push(PresenceBinding { event, callback }),
                ..self@
            }),
    {
        let mut channel = self.channel;
        channel.on_presence(event, callback);
        ChannelBuilder { channel }
    }

    /// Registers a callback for database changes.
    pub fn on_postgres_change(
        self,
        event: PostgresChangesEvent,
        filter: PostgresChangeFilter,
        callback: CallbackId,
    ) -> (out: ChannelBuilder)
        requires
            self.wf(),
        ensures
            out.wf(),
            out@ == (ChannelView {
                postgres: self@.postgres.push(
                    PostgresBindingView { event, filter: filter@, id: None, callback },
                ),
                ..self@
            }),
    {
        let mut channel = self.channel;
        channel.on_postgres_change(event, filter, callback);
        ChannelBuilder { channel }
    }

    /// The channel, closed, as it was put together.
    pub fn build(self) -> (out: Channel)
        requires
            self.wf(),
        ensures
            out.wf(),
            out@ == self@,
    {
        self.channel
    }
}

} // verus!
