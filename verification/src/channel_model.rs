//! The channel as a state machine over plain values: what each request and
//! each event from the server makes of it, and what is delivered to the
//! host.

use vstd::prelude::*;
use crate::dispatch::HostEventView;
use crate::json::JsonView;
use crate::message::{
    BroadcastConfig, FilterView, JoinPayloadView, PostgresChangesEvent, ReplyStatus, ServerEventView,
};
use crate::presence_model::{
    merge_joined, merge_left, merge_next, metas_at, presence_wf, DiffView, MetaView, PresenceView,
};
use crate::refs::RefsView;
use crate::status::{CallbackId, ChannelErrorView, ChannelState};

verus! {

/// What a request waits for.
#[derive(Clone, Copy, Debug, PartialEq, Eq, Structural)]
pub enum RequestKind {
    Join,
    Leave,
    Broadcast,
}

/// A request that was sent and not answered yet.
#[derive(Clone, Copy, Debug, PartialEq, Eq, Structural)]
pub struct PendingRequest {
    pub reference: u64,
    pub kind: RequestKind,
    /// The callback that hears of the answer, if one asked to.
    pub callback: Option<CallbackId>,
    /// When the request was sent, in milliseconds.
    pub sent_at: u64,
}

/// The kind of presence event that a binding asks for.
#[derive(Clone, Copy, Debug, PartialEq, Eq, Structural)]
pub enum PresenceEvent {
    Join,
    Leave,
    Sync,
}

/// A callback for presence events of one kind.
#[derive(Clone, Copy, Debug, PartialEq, Eq, Structural)]
pub struct PresenceBinding {
    pub event: PresenceEvent,
    pub callback: CallbackId,
}

/// A callback for database changes, with the index that the server gave the
/// subscription when the channel was joined.
pub struct PostgresBindingView {
    pub event: PostgresChangesEvent,
    pub filter: FilterView,
    pub id: Option<u64>,
    pub callback: CallbackId,
}

/// A channel.
pub struct ChannelView {
    pub topic: Seq<char>,
    pub state: ChannelState,
    pub broadcast: BroadcastConfig,
    pub presence_key: Option<Seq<char>>,
    pub access_token: Option<Seq<char>>,
    /// The broadcast bindings, by event name, in the order of registration.
    pub broadcasts: Seq<(Seq<char>, CallbackId)>,
    pub presences: Seq<PresenceBinding>,
    pub postgres: Seq<PostgresBindingView>,
    pub pending: Seq<PendingRequest>,
    pub presence: PresenceView,
    pub error_callback: Option<CallbackId>,
}

/// Whether a request with the reference `r` waits.
pub open spec fn has_pending(pending: Seq<PendingRequest>, r: u64) -> bool {
    exists|i: int| 0 <= i < pending.len() && (#[trigger] pending[i]).reference == r
}

/// Where the request with the reference `r` stands among those that wait.
pub open spec fn pending_index(pending: Seq<PendingRequest>, r: u64) -> int {
    choose|i: int| 0 <= i < pending.len() && (#[trigger] pending[i]).reference == r
}

/// Whether no two requests that wait have the same reference.
pub open spec fn distinct_pending(pending: Seq<PendingRequest>) -> bool {
    forall|i: int, j: int|
        0 <= i < j < pending.len() ==> (#[trigger] pending[i]).reference != (#[trigger] pending[j]).reference
}

/// Whether every request that waits has a reference of the present session.
pub open spec fn pending_live(pending: Seq<PendingRequest>, refs: RefsView) -> bool {
    forall|i: int| 0 <= i < pending.len() ==> refs.is_live((#[trigger] pending[i]).reference as nat)
}

/// The bindings with no index assigned.
pub open spec fn without_ids(postgres: Seq<PostgresBindingView>) -> Seq<PostgresBindingView> {
    Seq::new(postgres.len(), |i: int| PostgresBindingView { id: None, ..postgres[i] })
}

/// The bindings with the indices of `ids` assigned in the order of
/// registration: the first binding has the first index, and a binding for
/// which none is left has none.
pub open spec fn with_ids(postgres: Seq<PostgresBindingView>, ids: Seq<u64>) -> Seq<PostgresBindingView> {
    Seq::new(
        postgres.len(),
        |i: int|
            PostgresBindingView {
                id: if i < ids.len() {
                    Some(ids[i])
                } else {
                    None
                },
                ..postgres[i]
            },
    )
}

/// Whether a channel in this state may be joined.
pub open spec fn can_subscribe(state: ChannelState) -> bool {
    state == ChannelState::Closed || state == ChannelState::Errored
}

/// Whether a channel in this state may be left.
pub open spec fn can_unsubscribe(state: ChannelState) -> bool {
    state == ChannelState::Joined || state == ChannelState::Joining
}

impl ChannelView {
    /// Whether the channel is in order: its state and the requests that
    /// wait go together, no two of them have one reference, and presence is
    /// kept only while the channel is joined.
    pub open spec fn inv(self) -> bool {
        &&& distinct_pending(self.pending)
        &&& presence_wf(self.presence)
        &&& match self.state {
            ChannelState::Closed | ChannelState::Errored => {
                &&& self.pending.len() == 0
                &&& self.presence == Map::<Seq<char>, Seq<MetaView>>::empty()
            },
            ChannelState::Joining => {
                &&& self.pending.len() == 1
                &&& self.pending[0].kind == RequestKind::Join
                &&& self.presence == Map::<Seq<char>, Seq<MetaView>>::empty()
            },
            ChannelState::Leaving => {
                &&& self.pending.len() == 1
                &&& self.pending[0].kind == RequestKind::Leave
                &&& self.presence == Map::<Seq<char>, Seq<MetaView>>::empty()
            },
            ChannelState::Joined => forall|i: int|
                0 <= i < self.pending.len() ==> (#[trigger] self.pending[i]).kind == RequestKind::Broadcast,
        }
    }

    /// What a join tells the server.
    pub open spec fn join_payload(self) -> JoinPayloadView {
        JoinPayloadView {
            broadcast: self.broadcast,
            presence_key: self.presence_key,
            postgres_changes: Seq::new(
                self.postgres.len(),
                |i: int| (self.postgres[i].event, self.postgres[i].filter),
            ),
            access_token: self.access_token,
        }
    }

    /// The channel with nothing waiting, nobody present and no index
    /// assigned, in the state `state`.
    pub open spec fn cleared(self, state: ChannelState) -> ChannelView {
        ChannelView {
            state,
            pending: Seq::empty(),
            presence: Map::empty(),
            postgres: without_ids(self.postgres),
            ..self
        }
    }

    /// The channel after a join was sent with the reference `r`.
    pub open spec fn joining(self, r: u64, now: u64) -> ChannelView {
        ChannelView {
            pending: seq![
                PendingRequest { reference: r, kind: RequestKind::Join, callback: None, sent_at: now },
            ],
            ..self.cleared(ChannelState::Joining)
        }
    }

    /// The channel after a leave was sent with the reference `r`: whatever
    /// waited before is forgotten.
    pub open spec fn leaving(self, r: u64, now: u64) -> ChannelView {
        ChannelView {
            pending: seq![
                PendingRequest { reference: r, kind: RequestKind::Leave, callback: None, sent_at: now },
            ],
            ..self.cleared(ChannelState::Leaving)
        }
    }

    /// The channel after a broadcast was sent that waits for an
    /// acknowledgement.
    pub open spec fn awaiting_ack(self, r: u64, callback: Option<CallbackId>, now: u64) -> ChannelView {
        ChannelView {
            pending: self.pending.push(
                PendingRequest { reference: r, kind: RequestKind::Broadcast, callback, sent_at: now },
            ),
            ..self
        }
    }

    /// The channel after the answer to the request that waits at `index`.
    pub open spec fn answered(self, index: int, status: ReplyStatus, ids: Seq<u64>) -> ChannelView {
        match self.pending[index].kind {
            RequestKind::Join => if status == ReplyStatus::Accepted {
                ChannelView {
                    state: ChannelState::Joined,
                    pending: Seq::empty(),
                    postgres: with_ids(self.postgres, ids),
                    ..self
                }
            } else {
                self.cleared(ChannelState::Errored)
            },
            RequestKind::Leave => self.cleared(ChannelState::Closed),
            RequestKind::Broadcast => ChannelView { pending: self.pending.remove(index), ..self },
        }
    }

    /// The channel after an event from the server. A reply whose reference
    /// no request waits for changes nothing; presence is taken in only
    /// while the channel is joined.
    pub open spec fn received(self, event: ServerEventView) -> ChannelView {
        match event {
            ServerEventView::Reply { reference, status, response, postgres_ids } => if has_pending(
                self.pending,
                reference,
            ) {
                self.answered(pending_index(self.pending, reference), status, postgres_ids)
            } else {
                self
            },
            ServerEventView::Error => if self.state == ChannelState::Closed {
                self
            } else {
                self.cleared(ChannelState::Errored)
            },
            ServerEventView::PresenceState(state) => if self.state == ChannelState::Joined {
                ChannelView { presence: state, ..self }
            } else {
                self
            },
            ServerEventView::PresenceDiff(diff) => if self.state == ChannelState::Joined {
                ChannelView { presence: merge_next(self.presence, diff), ..self }
            } else {
                self
            },
            ServerEventView::Broadcast { .. } => self,
            ServerEventView::PostgresChanges { .. } => self,
        }
    }
}

/// The deliveries of a broadcast: one for each binding under the event's
/// name, in the order of registration.
pub open spec fn broadcast_events(
    bindings: Seq<(Seq<char>, CallbackId)>,
    event: Seq<char>,
    payload: JsonView,
) -> Seq<HostEventView>
    decreases bindings.len(),
{
    if bindings.len() == 0 {
        Seq::empty()
    } else {
        let rest = broadcast_events(bindings.drop_last(), event, payload);
        if bindings.last().0 == event {
            rest.push(HostEventView::Broadcast { callback: bindings.last().1, payload })
        } else {
            rest
        }
    }
}

/// The deliveries of a database change: one for each binding whose index is
/// among `ids`, in the order of registration.
pub open spec fn postgres_events(bindings: Seq<PostgresBindingView>, ids: Seq<u64>, data: JsonView) -> Seq<
    HostEventView,
>
    decreases bindings.len(),
{
    if bindings.len() == 0 {
        Seq::empty()
    } else {
        let rest = postgres_events(bindings.drop_last(), ids, data);
        match bindings.last().id {
            Some(id) => if ids.contains(id) {
                rest.push(HostEventView::PostgresChanges { callback: bindings.last().callback, payload: data })
            } else {
                rest
            },
            None => rest,
        }
    }
}

/// One delivery for each binding of the kind `kind`, in the order of
/// registration; `make` says what a callback receives.
pub open spec fn presence_events(
    bindings: Seq<PresenceBinding>,
    kind: PresenceEvent,
    make: spec_fn(CallbackId) -> HostEventView,
) -> Seq<HostEventView>
    decreases bindings.len(),
{
    if bindings.len() == 0 {
        Seq::empty()
    } else {
        let rest = presence_events(bindings.drop_last(), kind, make);
        if bindings.last().event == kind {
            rest.push(make(bindings.last().callback))
        } else {
            rest
        }
    }
}

/// What a join binding receives for `key`.
pub open spec fn join_event(key: Seq<char>, previous: PresenceView, joined: PresenceView) -> spec_fn(
    CallbackId,
) -> HostEventView {
    |callback: CallbackId|
        HostEventView::PresenceJoin {
            callback,
            key,
            previous: metas_at(previous, key),
            current: metas_at(joined, key),
        }
}

/// What a leave binding receives for `key`.
pub open spec fn leave_event(key: Seq<char>, next: PresenceView, left: PresenceView) -> spec_fn(
    CallbackId,
) -> HostEventView {
    |callback: CallbackId|
        HostEventView::PresenceLeave {
            callback,
            key,
            current: metas_at(next, key),
            left: metas_at(left, key),
        }
}

/// What a sync binding receives.
pub open spec fn sync_event(state: PresenceView) -> spec_fn(CallbackId) -> HostEventView {
    |callback: CallbackId| HostEventView::PresenceSync { callback, state }
}

/// The join deliveries for the keys `keys`, key by key.
pub open spec fn join_events(
    bindings: Seq<PresenceBinding>,
    keys: Seq<Seq<char>>,
    previous: PresenceView,
    joined: PresenceView,
) -> Seq<HostEventView>
    decreases keys.len(),
{
    if keys.len() == 0 {
        Seq::empty()
    } else {
        join_events(bindings, keys.drop_last(), previous, joined) + presence_events(
            bindings,
            PresenceEvent::Join,
            join_event(keys.last(), previous, joined),
        )
    }
}

/// The leave deliveries for the keys `keys`, key by key.
pub open spec fn leave_events(
    bindings: Seq<PresenceBinding>,
    keys: Seq<Seq<char>>,
    next: PresenceView,
    left: PresenceView,
) -> Seq<HostEventView>
    decreases keys.len(),
{
    if keys.len() == 0 {
        Seq::empty()
    } else {
        leave_events(bindings, keys.drop_last(), next, left) + presence_events(
            bindings,
            PresenceEvent::Leave,
            leave_event(keys.last(), next, left),
        )
    }
}

/// Whether `keys` names each key of `state` once and nothing else.
pub open spec fn enumerates(keys: Seq<Seq<char>>, state: PresenceView) -> bool {
    &&& forall|i: int| 0 <= i < keys.len() ==> state.contains_key(#[trigger] keys[i])
    &&& forall|k: Seq<char>|
        state.contains_key(k) ==> exists|i: int| 0 <= i < keys.len() && #[trigger] keys[i] == k
    &&& forall|i: int, j: int| 0 <= i < j < keys.len() ==> #[trigger] keys[i] != #[trigger] keys[j]
}

/// The deliveries of a presence diff where the joined keys are taken in the
/// order `joined_keys` and the left ones in the order `left_keys`: the
/// joins, then the leaves, then the new state for the sync bindings.
pub open spec fn diff_events(
    bindings: Seq<PresenceBinding>,
    presence: PresenceView,
    diff: DiffView,
    joined_keys: Seq<Seq<char>>,
    left_keys: Seq<Seq<char>>,
) -> Seq<HostEventView> {
    join_events(bindings, joined_keys, presence, merge_joined(presence, diff)) + leave_events(
        bindings,
        left_keys,
        merge_next(presence, diff),
        merge_left(presence, diff),
    ) + presence_events(bindings, PresenceEvent::Sync, sync_event(merge_next(presence, diff)))
}

impl ChannelView {
    /// What the answer to the request that waits at `index` delivers: a
    /// refused join goes to the channel's error callback, the answer to a
    /// broadcast to the callback that asked for it.
    pub open spec fn answer_events(self, index: int, status: ReplyStatus, response: JsonView) -> Seq<
        HostEventView,
    > {
        let request = self.pending[index];
        match request.kind {
            RequestKind::Join => if status == ReplyStatus::Rejected && self.error_callback is Some {
                seq![
                    HostEventView::ChannelFailed {
                        callback: self.error_callback->0,
                        error: ChannelErrorView::JoinRejected(response),
                    },
                ]
            } else {
                Seq::empty()
            },
            RequestKind::Leave => Seq::empty(),
            RequestKind::Broadcast => match request.callback {
                Some(callback) => seq![HostEventView::Reply { callback, status, response }],
                None => Seq::empty(),
            },
        }
    }

    /// Whether `out` is what an event from the server delivers to the
    /// host. The order in which a presence diff's keys are gone through is
    /// left open; everything else is fixed.
    pub open spec fn delivers(self, event: ServerEventView, out: Seq<HostEventView>) -> bool {
        match event {
            ServerEventView::Reply { reference, status, response, postgres_ids } => out == if has_pending(
                self.pending,
                reference,
            ) {
                self.answer_events(pending_index(self.pending, reference), status, response)
            } else {
                Seq::empty()
            },
            ServerEventView::Error => out == Seq::<HostEventView>::empty(),
            ServerEventView::PresenceState(state) => out == if self.state == ChannelState::Joined {
                presence_events(self.presences, PresenceEvent::Sync, sync_event(state))
            } else {
                Seq::empty()
            },
            ServerEventView::PresenceDiff(diff) => if self.state == ChannelState::Joined {
                exists|joined_keys: Seq<Seq<char>>, left_keys: Seq<Seq<char>>|
                    {
                        &&& enumerates(joined_keys, merge_joined(self.presence, diff))
                        &&& enumerates(left_keys, merge_left(self.presence, diff))
                        &&& out == #[trigger] diff_events(
                            self.presences,
                            self.presence,
                            diff,
                            joined_keys,
                            left_keys,
                        )
                    }
            } else {
                out == Seq::<HostEventView>::empty()
            },
            ServerEventView::Broadcast { event, payload } => out == if self.state == ChannelState::Joined {
                broadcast_events(self.broadcasts, event, payload)
            } else {
                Seq::empty()
            },
            ServerEventView::PostgresChanges { ids, data } => out == if self.state == ChannelState::Joined {
                postgres_events(self.postgres, ids, data)
            } else {
                Seq::empty()
            },
        }
    }
}

/// The time from `since` to `now`; none if the clock stands before `since`.
pub open spec fn elapsed(now: u64, since: u64) -> u64 {
    if now >= since {
        (now - since) as u64
    } else {
        0
    }
}

/// Whether a request has waited for `timeout` or longer.
pub open spec fn overdue(request: PendingRequest, now: u64, timeout: u64) -> bool {
    elapsed(now, request.sent_at) >= timeout
}

/// The requests that have not waited too long, in their order.
pub open spec fn still_waiting(pending: Seq<PendingRequest>, now: u64, timeout: u64) -> Seq<PendingRequest>
    decreases pending.len(),
{
    if pending.len() == 0 {
        Seq::empty()
    } else if overdue(pending.last(), now, timeout) {
        still_waiting(pending.drop_last(), now, timeout)
    } else {
        still_waiting(pending.drop_last(), now, timeout).push(pending.last())
    }
}

/// One failure for the callback for each request that has waited too
/// long, in the order of the requests; none where there is no callback.
pub open spec fn timeout_events(
    pending: Seq<PendingRequest>,
    callback: Option<CallbackId>,
    now: u64,
    timeout: u64,
) -> Seq<HostEventView>
    decreases pending.len(),
{
    if pending.len() == 0 {
        Seq::empty()
    } else {
        let rest = timeout_events(pending.drop_last(), callback, now, timeout);
        if overdue(pending.last(), now, timeout) && callback is Some {
            rest.push(
                HostEventView::ChannelFailed { callback: callback->0, error: ChannelErrorView::RequestTimeout },
            )
        } else {
            rest
        }
    }
}

impl ChannelView {
    /// The channel after the requests that have waited too long were
    /// given up: a join that is overdue leaves the channel in `Errored`, a
    /// leave that is overdue closes it, and an overdue broadcast waits no
    /// longer.
    pub open spec fn expired(self, now: u64, timeout: u64) -> ChannelView {
        match self.state {
            ChannelState::Joining => if overdue(self.pending[0], now, timeout) {
                self.cleared(ChannelState::Errored)
            } else {
                self
            },
            ChannelState::Leaving => if overdue(self.pending[0], now, timeout) {
                self.cleared(ChannelState::Closed)
            } else {
                self
            },
            ChannelState::Joined => ChannelView {
                pending: still_waiting(self.pending, now, timeout),
                ..self
            },
            _ => self,
        }
    }

    /// What giving up the overdue requests delivers to the channel's
    /// error callback.
    pub open spec fn expire_events(self, now: u64, timeout: u64) -> Seq<HostEventView> {
        timeout_events(self.pending, self.error_callback, now, timeout)
    }
}

/// Whatever still waits, waited before, in the same order.
pub proof fn lemma_still_waiting(pending: Seq<PendingRequest>, now: u64, timeout: u64)
    ensures
        still_waiting(pending, now, timeout).len() <= pending.len(),
        forall|i: int|
            0 <= i < still_waiting(pending, now, timeout).len() ==> pending.contains(
                #[trigger] still_waiting(pending, now, timeout)[i],
            ),
        distinct_pending(pending) ==> distinct_pending(still_waiting(pending, now, timeout)),
    decreases pending.len(),
{
    if pending.len() > 0 {
        let init = pending.drop_last();
        let last = pending.last();
        lemma_still_waiting(init, now, timeout);
        let kept = still_waiting(init, now, timeout);
        let out = still_waiting(pending, now, timeout);
        assert forall|i: int| 0 <= i < out.len() implies pending.contains(#[trigger] out[i]) by {
            if i < kept.len() {
                assert(init.contains(kept[i]));
                let j = choose|j: int| 0 <= j < init.len() && init[j] == kept[i];
                assert(pending[j] == kept[i]);
            } else {
                assert(pending[pending.len() - 1] == last);
            }
        }
        if distinct_pending(pending) {
            assert(distinct_pending(init)) by {
                assert forall|i: int, j: int| 0 <= i < j < init.len() implies (
                #[trigger] init[i]).reference != (#[trigger] init[j]).reference by {
                    assert(pending[i].reference != pending[j].reference);
                }
            }
            assert forall|i: int, j: int| 0 <= i < j < out.len() implies (#[trigger] out[i]).reference != (
            #[trigger] out[j]).reference by {
                if j < kept.len() {
                    assert(kept[i].reference != kept[j].reference);
                } else {
                    assert(init.contains(kept[i]));
                    let k = choose|k: int| 0 <= k < init.len() && init[k] == kept[i];
                    assert(pending[k].reference != pending[pending.len() - 1].reference);
                }
            }
        }
    }
}

/// Giving up overdue requests leaves the channel in order, and whatever
/// waits afterwards waited before.
pub proof fn lemma_expired_inv(channel: ChannelView, now: u64, timeout: u64)
    requires
        channel.inv(),
    ensures
        channel.expired(now, timeout).inv(),
        channel.expired(now, timeout).topic == channel.topic,
        forall|refs: RefsView|
            pending_live(channel.pending, refs) ==> #[trigger] pending_live(
                channel.expired(now, timeout).pending,
                refs,
            ),
{
    let after = channel.expired(now, timeout);
    lemma_still_waiting(channel.pending, now, timeout);
    if channel.state == ChannelState::Joined {
        assert forall|i: int| 0 <= i < after.pending.len() implies (#[trigger] after.pending[i]).kind
            == RequestKind::Broadcast by {
            assert(channel.pending.contains(after.pending[i]));
            let j = choose|j: int| 0 <= j < channel.pending.len() && channel.pending[j] == after.pending[i];
            assert(channel.pending[j].kind == RequestKind::Broadcast);
        }
    }
    assert forall|refs: RefsView| pending_live(channel.pending, refs) implies #[trigger] pending_live(
        after.pending,
        refs,
    ) by {
        assert forall|i: int| 0 <= i < after.pending.len() implies refs.is_live(
            (#[trigger] after.pending[i]).reference as nat,
        ) by {
            if channel.state == ChannelState::Joined {
                assert(channel.pending.contains(after.pending[i]));
                let j = choose|j: int|
                    0 <= j < channel.pending.len() && channel.pending[j] == after.pending[i];
                assert(refs.is_live(channel.pending[j].reference as nat));
            } else {
                assert(after.pending[i] == channel.pending[i]);
            }
        }
    }
}

/// An event from the server leaves the channel in order, and whatever waits
/// afterwards waited before.
pub proof fn lemma_received_inv(channel: ChannelView, event: ServerEventView)
    requires
        channel.inv(),
        match event {
            ServerEventView::PresenceState(state) => channel.state == ChannelState::Joined
                ==> presence_wf(state),
            ServerEventView::PresenceDiff(diff) => channel.state == ChannelState::Joined
                ==> presence_wf(merge_next(channel.presence, diff)),
            _ => true,
        },
    ensures
        channel.received(event).inv(),
        forall|i: int|
            0 <= i < channel.received(event).pending.len() ==> channel.pending.contains(
                #[trigger] channel.received(event).pending[i],
            ),
        forall|refs: RefsView|
            pending_live(channel.pending, refs) ==> #[trigger] pending_live(
                channel.received(event).pending,
                refs,
            ),
{
    let after = channel.received(event);
    match event {
        ServerEventView::Reply { reference, status, response, postgres_ids } => {
            if has_pending(channel.pending, reference) {
                let index = pending_index(channel.pending, reference);
                match channel.pending[index].kind {
                    RequestKind::Broadcast => {
                        assert forall|i: int, j: int| 0 <= i < j < after.pending.len() implies (
                        #[trigger] after.pending[i]).reference != (
                        #[trigger] after.pending[j]).reference by {
                            let a = if i < index { i } else { i + 1 };
                            let b = if j < index { j } else { j + 1 };
                            assert(channel.pending[a].reference != channel.pending[b].reference);
                        }
                        assert forall|i: int| 0 <= i < after.pending.len() implies (
                        #[trigger] after.pending[i]).kind == RequestKind::Broadcast by {
                            let a = if i < index { i } else { i + 1 };
                            assert(channel.pending[a].kind == RequestKind::Broadcast);
                        }
                    },
                    _ => {},
                }
            }
        },
        _ => {},
    }
    assert forall|i: int| 0 <= i < after.pending.len() implies channel.pending.contains(
        #[trigger] after.pending[i],
    ) by {
        match event {
            ServerEventView::Reply { reference, status, response, postgres_ids } => {
                if has_pending(channel.pending, reference) {
                    let index = pending_index(channel.pending, reference);
                    let a = if i < index { i } else { i + 1 };
                    assert(channel.pending[a] == after.pending[i]);
                }
            },
            _ => {},
        }
    }
    assert forall|refs: RefsView| pending_live(channel.pending, refs) implies #[trigger] pending_live(
        after.pending,
        refs,
    ) by {
        assert forall|i: int| 0 <= i < after.pending.len() implies refs.is_live(
            (#[trigger] after.pending[i]).reference as nat,
        ) by {
            assert(channel.pending.contains(after.pending[i]));
            let j = choose|j: int| 0 <= j < channel.pending.len() && channel.pending[j] == after.pending[i];
            assert(refs.is_live(channel.pending[j].reference as nat));
        }
    }
}

/// A channel that is joined or being joined is not joined again: the
/// request is refused and no join is sent. Once the leave is answered the
/// channel can be joined anew, and that join has a reference that no
/// request of the session had before.
pub proof fn lemma_join_only_after_leave(
    channel: ChannelView,
    refs: RefsView,
    leave_ref: u64,
    status: ReplyStatus,
    now: u64,
)
    requires
        channel.inv(),
        channel.state == ChannelState::Joined || channel.state == ChannelState::Joining,
        pending_live(channel.pending, refs),
        refs.next <= u64::MAX,
    ensures
        !can_subscribe(channel.state),
        ({
            let left = channel.leaving(leave_ref, now).received(
                ServerEventView::Reply {
                    reference: leave_ref,
                    status,
                    response: JsonView::Null,
                    postgres_ids: Seq::empty(),
                },
            );
            &&& left.state == ChannelState::Closed
            &&& can_subscribe(left.state)
            &&& left.inv()
            &&& left.joining(refs.next as u64, now).state == ChannelState::Joining
            &&& left.joining(refs.next as u64, now).inv()
            &&& !has_pending(channel.pending, refs.next as u64)
            &&& !refs.is_live(refs.next)
        }),
{
    let leaving = channel.leaving(leave_ref, now);
    assert(leaving.pending[0].reference == leave_ref);
    assert(has_pending(leaving.pending, leave_ref));
    let index = pending_index(leaving.pending, leave_ref);
    assert(index == 0);
    let left = leaving.answered(index, status, Seq::empty());
    assert(left.presence =~= Map::<Seq<char>, Seq<MetaView>>::empty());
    assert(left.pending =~= Seq::<PendingRequest>::empty());
    if has_pending(channel.pending, refs.next as u64) {
        let i = choose|i: int|
            0 <= i < channel.pending.len() && (#[trigger] channel.pending[i]).reference == refs.next as u64;
        assert(refs.is_live(channel.pending[i].reference as nat));
    }
}

} // verus!
