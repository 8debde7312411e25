//! The frames of the server as events for the channels.

use vstd::prelude::*;
use crate::json::{values_view, members_view, lemma_members_view, Json, JsonView};
use crate::message::{Inbound, ReplyStatus, ServerEvent, ServerEventView};
use crate::presence::{metas_view, PresenceDiff, PresenceMeta, PresenceState};
use crate::presence_model::{distinct_refs, DiffView, MetaView, PresenceView};
use crate::wire::{Message, MessageView};

verus! {

/// The meta that an item of a `metas` list stands for: an object with a
/// `phx_ref` that is a string. The whole object is kept as what the
/// connection tracks.
pub open spec fn meta_of(item: JsonView) -> Option<MetaView> {
    match item.get("phx_ref"@) {
        Some(JsonView::Text(phx_ref)) => Some(MetaView { phx_ref, payload: item }),
        _ => None,
    }
}

/// The metas that a list of items stands for, if each item stands for one.
pub open spec fn metas_from(items: Seq<JsonView>) -> Option<Seq<MetaView>>
    decreases items.len(),
{
    if items.len() == 0 {
        Some(Seq::empty())
    } else {
        match (metas_from(items.drop_last()), meta_of(items.last())) {
            (Some(metas), Some(meta)) => Some(metas.push(meta)),
            _ => None,
        }
    }
}

/// The metas under one key: the `metas` member of the key's value.
pub open spec fn metas_of(value: JsonView) -> Option<Seq<MetaView>> {
    match value.get("metas"@) {
        Some(JsonView::Array(items)) => metas_from(items),
        _ => None,
    }
}

/// The presence state that the members of an object stand for: each member
/// is a key with its metas. A key that stands twice, a key without metas
/// and a reference that stands twice under one key make the whole no
/// presence state.
pub open spec fn presence_from(members: Seq<(Seq<char>, JsonView)>) -> Option<PresenceView>
    decreases members.len(),
{
    if members.len() == 0 {
        Some(Map::empty())
    } else {
        match (presence_from(members.drop_last()), metas_of(members.last().1)) {
            (Some(state), Some(metas)) => if !state.contains_key(members.last().0) && metas.len() > 0
                && distinct_refs(metas) {
                Some(state.insert(members.last().0, metas))
            } else {
                None
            },
            _ => None,
        }
    }
}

/// The presence state that a JSON value stands for.
pub open spec fn presence_of(json: JsonView) -> Option<PresenceView> {
    match json {
        JsonView::Object(members) => presence_from(members),
        _ => None,
    }
}

/// The presence state that a member of a diff stands for; a member that
/// is missing stands for nobody.
pub open spec fn presence_or_nobody(value: Option<JsonView>) -> Option<PresenceView> {
    match value {
        Some(json) => presence_of(json),
        None => Some(Map::empty()),
    }
}

/// The number that an item stands for: the item itself, or its `id`
/// member where `nested` says so.
pub open spec fn id_of(item: JsonView, nested: bool) -> Option<u64> {
    if nested {
        item.get_or_null("id"@).number()
    } else {
        item.number()
    }
}

/// The numbers that a list of items stands for, if each stands for one.
pub open spec fn ids_from(items: Seq<JsonView>, nested: bool) -> Option<Seq<u64>>
    decreases items.len(),
{
    if items.len() == 0 {
        Some(Seq::empty())
    } else {
        match (ids_from(items.drop_last(), nested), id_of(items.last(), nested)) {
            (Some(ids), Some(id)) => Some(ids.push(id)),
            _ => None,
        }
    }
}

/// The subscription indices that the response to a join assigns: the `id`
/// of each item under `postgres_changes`, in order; none where that member
/// is missing.
pub open spec fn reply_ids(response: JsonView) -> Option<Seq<u64>> {
    match response.get("postgres_changes"@) {
        None => Some(Seq::empty()),
        Some(JsonView::Array(items)) => ids_from(items, true),
        Some(_) => None,
    }
}

/// The status that a reply's `status` member stands for.
pub open spec fn status_of(value: Option<JsonView>) -> Option<ReplyStatus> {
    match value {
        Some(JsonView::Text(text)) => if text == "ok"@ {
            Some(ReplyStatus::Accepted)
        } else if text == "error"@ {
            Some(ReplyStatus::Rejected)
        } else {
            None
        },
        _ => None,
    }
}

/// What a frame says to its channel, by the frame's event name; `None`
/// for a frame that says nothing that a channel understands.
pub open spec fn decode_event(message: MessageView) -> Option<ServerEventView> {
    let payload = message.payload;
    if message.event == "phx_reply"@ {
        match (
            message.reference,
            status_of(payload.get("status"@)),
            reply_ids(payload.get_or_null("response"@)),
        ) {
            (Some(reference), Some(status), Some(postgres_ids)) => Some(
                ServerEventView::Reply {
                    reference,
                    status,
                    response: payload.get_or_null("response"@),
                    postgres_ids,
                },
            ),
            _ => None,
        }
    } else if message.event == "phx_error"@ {
        Some(ServerEventView::Error)
    } else if message.event == "presence_state"@ {
        match presence_of(payload) {
            Some(state) => Some(ServerEventView::PresenceState(state)),
            None => None,
        }
    } else if message.event == "presence_diff"@ {
        match (presence_or_nobody(payload.get("joins"@)), presence_or_nobody(payload.get("leaves"@))) {
            (Some(joins), Some(leaves)) => Some(ServerEventView::PresenceDiff(DiffView { joins, leaves })),
            _ => None,
        }
    } else if message.event == "broadcast"@ {
        match payload.get("event"@) {
            Some(JsonView::Text(event)) => Some(
                ServerEventView::Broadcast { event, payload: payload.get_or_null("payload"@) },
            ),
            _ => None,
        }
    } else if message.event == "postgres_changes"@ {
        match payload.get("ids"@) {
            Some(JsonView::Array(items)) => match ids_from(items, false) {
                Some(ids) => Some(
                    ServerEventView::PostgresChanges { ids, data: payload.get_or_null("data"@) },
                ),
                None => None,
            },
            _ => None,
        }
    } else {
        None
    }
}

/// Whether the string is the literal.
fn is_text(text: &String, literal: &str) -> (same: bool)
    ensures
        same == (text@ == literal@),
{
    let other = literal.to_owned();
    *text == other
}

/// A copy of the member `key`, or `null` where it is missing.
fn get_or_null(json: &Json, key: &str) -> (out: Json)
    ensures
        out@ == json@.get_or_null(key@),
{
    match json.get(key) {
        Some(value) => value.clone(),
        None => Json::Null,
    }
}

fn decode_meta(item: &Json) -> (out: Option<PresenceMeta>)
    ensures
        match out {
            Some(meta) => meta_of(item@) == Some(meta@),
            None => meta_of(item@) is None,
        },
{
    match item.get("phx_ref") {
        Some(value) => match value.as_text() {
            Some(text) => Some(PresenceMeta { phx_ref: text.clone(), payload: item.clone() }),
            None => None,
        },
        None => None,
    }
}

fn decode_metas(value: &Json) -> (out: Option<Vec<PresenceMeta>>)
    ensures
        match out {
            Some(metas) => metas_of(value@) == Some(metas_view(metas@)),
            None => metas_of(value@) is None,
        },
{
    let items = match value.get("metas") {
        Some(list) => match list.as_items() {
            Some(items) => items,
            None => {
                return None;
            },
        },
        None => {
            return None;
        },
    };
    let ghost all = values_view(items@);
    let mut metas: Vec<PresenceMeta> = Vec::new();
    let mut i: usize = 0;
    assert(all.take(0) =~= Seq::empty());
    assert(metas_view(metas@) =~= Seq::empty());
    while i < items.len()
        invariant
            i <= items.len(),
            all == values_view(items@),
            metas_of(value@) == metas_from(all),
            metas_from(all.take(i as int)) == Some(metas_view(metas@)),
        decreases items.len() - i,
    {
        proof {
            assert(all.take(i + 1).drop_last() =~= all.take(i as int));
            assert(all.take(i + 1).last() == items[i as int]@);
        }
        match decode_meta(&items[i]) {
            Some(meta) => {
                let ghost before = metas_view(metas@);
                let ghost m = meta@;
                metas.push(meta);
                assert(metas_view(metas@) =~= before.push(m));
            },
            None => {
                proof {
                    lemma_metas_from_none(all, i + 1);
                }
                return None;
            },
        }
        i += 1;
    }
    assert(all.take(items.len() as int) =~= all);
    Some(metas)
}

/// Once a part of a list stands for no metas, the whole list stands for
/// none.
proof fn lemma_metas_from_none(items: Seq<JsonView>, i: int)
    requires
        0 <= i <= items.len(),
        metas_from(items.take(i)) is None,
    ensures
        metas_from(items) is None,
    decreases items.len() - i,
{
    if i < items.len() {
        assert(items.take(i + 1).drop_last() =~= items.take(i));
        lemma_metas_from_none(items, i + 1);
    } else {
        assert(items.take(i) =~= items);
    }
}

/// Once a part of an object stands for no presence state, the whole object
/// stands for none.
proof fn lemma_presence_from_none(members: Seq<(Seq<char>, JsonView)>, i: int)
    requires
        0 <= i <= members.len(),
        presence_from(members.take(i)) is None,
    ensures
        presence_from(members) is None,
    decreases members.len() - i,
{
    if i < members.len() {
        assert(members.take(i + 1).drop_last() =~= members.take(i));
        lemma_presence_from_none(members, i + 1);
    } else {
        assert(members.take(i) =~= members);
    }
}

/// Once a part of a list stands for no numbers, the whole list stands for
/// none.
proof fn lemma_ids_from_none(items: Seq<JsonView>, nested: bool, i: int)
    requires
        0 <= i <= items.len(),
        ids_from(items.take(i), nested) is None,
    ensures
        ids_from(items, nested) is None,
    decreases items.len() - i,
{
    if i < items.len() {
        assert(items.take(i + 1).drop_last() =~= items.take(i));
        lemma_ids_from_none(items, nested, i + 1);
    } else {
        assert(items.take(i) =~= items);
    }
}

/// Reads a presence state from JSON; `None` for anything that is none.
pub fn decode_presence(json: &Json) -> (out: Option<PresenceState>)
    ensures
        match out {
            Some(state) => state.wf() && presence_of(json@) == Some(state@),
            None => presence_of(json@) is None,
        },
{
    let members = match json.as_members() {
        Some(members) => members,
        None => {
            return None;
        },
    };
    let ghost all = members_view(members@);
    proof {
        lemma_members_view(members@);
        assert(all.take(0) =~= Seq::empty());
    }
    let mut state = PresenceState::new();
    let mut i: usize = 0;
    while i < members.len()
        invariant
            i <= members.len(),
            all == members_view(members@),
            all.len() == members.len(),
            forall|j: int|
                0 <= j < members.len() ==> (#[trigger] all[j]) == (members[j].key@, members[j].value@),
            state.wf(),
            presence_of(json@) == presence_from(all),
            presence_from(all.take(i as int)) == Some(state@),
        decreases members.len() - i,
    {
        proof {
            assert(all.take(i + 1).drop_last() =~= all.take(i as int));
            assert(all.take(i + 1).last() == all[i as int]);
        }
        let added = match decode_metas(&members[i].value) {
            Some(metas) => state.insert(members[i].key.clone(), metas),
            None => false,
        };
        if !added {
            proof {
                lemma_presence_from_none(all, i + 1);
            }
            return None;
        }
        i += 1;
    }
    assert(all.take(members.len() as int) =~= all);
    Some(state)
}

/// Reads the numbers of a list of items; `None` where an item stands for
/// none.
fn decode_ids(items: &Vec<Json>, nested: bool) -> (out: Option<Vec<u64>>)
    ensures
        match out {
            Some(ids) => ids_from(values_view(items@), nested) == Some(ids@),
            None => ids_from(values_view(items@), nested) is None,
        },
{
    let ghost all = values_view(items@);
    let mut ids: Vec<u64> = Vec::new();
    let mut i: usize = 0;
    assert(all.take(0) =~= Seq::empty());
    while i < items.len()
        invariant
            i <= items.len(),
            all == values_view(items@),
            ids_from(all.take(i as int), nested) == Some(ids@),
        decreases items.len() - i,
    {
        proof {
            assert(all.take(i + 1).drop_last() =~= all.take(i as int));
            assert(all.take(i + 1).last() == items[i as int]@);
        }
        let id = if nested {
            match items[i].get("id") {
                Some(value) => value.as_u64(),
                None => None,
            }
        } else {
            items[i].as_u64()
        };
        match id {
            Some(id) => {
                let ghost before = ids@;
                ids.push(id);
                assert(ids@ =~= before.push(id));
            },
            None => {
                proof {
                    lemma_ids_from_none(all, nested, i + 1);
                }
                return None;
            },
        }
        i += 1;
    }
    assert(all.take(items.len() as int) =~= all);
    Some(ids)
}

/// Reads a member of a diff; a member that is missing stands for nobody.
fn decode_presence_or_nobody(value: Option<&Json>) -> (out: Option<PresenceState>)
    ensures
        match out {
            Some(state) => state.wf() && presence_or_nobody(
                match value {
                    Some(json) => Some(json@),
                    None => None,
                },
            ) == Some(state@),
            None => presence_or_nobody(
                match value {
                    Some(json) => Some(json@),
                    None => None,
                },
            ) is None,
        },
{
    match value {
        Some(json) => decode_presence(json),
        None => Some(PresenceState::new()),
    }
}

impl Message {
    /// What the frame says to its channel; `None` for a frame that says
    /// nothing that a channel understands.
    pub fn to_inbound(&self) -> (out: Option<Inbound>)
        ensures
            match out {
                Some(inbound) => {
                    &&& inbound.topic@ == self@.topic
                    &&& inbound.event.wf()
                    &&& decode_event(self@) == Some(inbound.event@)
                },
                None => decode_event(self@) is None,
            },
    {
        let payload = &self.payload;
        let event = if is_text(&self.event, "phx_reply") {
            let reference = match self.reference {
                Some(reference) => reference,
                None => {
                    return None;
                },
            };
            let status = match payload.get("status") {
                Some(value) => match value.as_text() {
                    Some(text) => if is_text(text, "ok") {
                        ReplyStatus::Accepted
                    } else if is_text(text, "error") {
                        ReplyStatus::Rejected
                    } else {
                        return None;
                    },
                    None => {
                        return None;
                    },
                },
                None => {
                    return None;
                },
            };
            let response = get_or_null(payload, "response");
            let postgres_ids = match response.get("postgres_changes") {
                None => Vec::new(),
                Some(list) => match list.as_items() {
                    Some(items) => match decode_ids(items, true) {
                        Some(ids) => ids,
                        None => {
                            return None;
                        },
                    },
                    None => {
                        return None;
                    },
                },
            };
            ServerEvent::Reply { reference, status, response, postgres_ids }
        } else if is_text(&self.event, "phx_error") {
            ServerEvent::Error
        } else if is_text(&self.event, "presence_state") {
            match decode_presence(payload) {
                Some(state) => ServerEvent::PresenceState(state),
                None => {
                    return None;
                },
            }
        } else if is_text(&self.event, "presence_diff") {
            let joins = match decode_presence_or_nobody(payload.get("joins")) {
                Some(joins) => joins,
                None => {
                    return None;
                },
            };
            let leaves = match decode_presence_or_nobody(payload.get("leaves")) {
                Some(leaves) => leaves,
                None => {
                    return None;
                },
            };
            ServerEvent::PresenceDiff(PresenceDiff { joins, leaves })
        } else if is_text(&self.event, "broadcast") {
            let name = match payload.get("event") {
                Some(value) => match value.as_text() {
                    Some(text) => text.clone(),
                    None => {
                        return None;
                    },
                },
                None => {
                    return None;
                },
            };
            ServerEvent::Broadcast { event: name, payload: get_or_null(payload, "payload") }
        } else if is_text(&self.event, "postgres_changes") {
            let ids = match payload.get("ids") {
                Some(list) => match list.as_items() {
                    Some(items) => match decode_ids(items, false) {
                        Some(ids) => ids,
                        None => {
                            return None;
                        },
                    },
                    None => {
                        return None;
                    },
                },
                None => {
                    return None;
                },
            };
            ServerEvent::PostgresChanges { ids, data: get_or_null(payload, "data") }
        } else {
            return None;
        };
        Some(Inbound { topic: self.topic.clone(), event })
    }
}

} // verus!
