//! The requests of the client as frames.

use vstd::prelude::*;
use crate::json::{lemma_members_view, members_view, Json, JsonView, Member};
use crate::message::{
    FilterView, JoinPayload, JoinPayloadView, Outbound, OutboundView, PostgresChangesEvent,
    PostgresSubscription,
};
use crate::wire::{Message, MessageView};

verus! {

/// The name under which a kind of database change travels.
pub open spec fn change_name(event: PostgresChangesEvent) -> Seq<char> {
    match event {
        PostgresChangesEvent::All => "*"@,
        PostgresChangesEvent::Insert => "INSERT"@,
        PostgresChangesEvent::Update => "UPDATE"@,
        PostgresChangesEvent::Delete => "DELETE"@,
    }
}

/// The member `key` with a text, where there is one to send.
pub open spec fn optional_member(key: Seq<char>, value: Option<Seq<char>>) -> Seq<(Seq<char>, JsonView)> {
    match value {
        Some(text) => seq![(key, JsonView::Text(text))],
        None => Seq::empty(),
    }
}

/// One database subscription as a join asks for it.
pub open spec fn encode_subscription(subscription: (PostgresChangesEvent, FilterView)) -> JsonView {
    JsonView::Object(
        seq![
            ("event"@, JsonView::Text(change_name(subscription.0))),
            ("schema"@, JsonView::Text(subscription.1.schema)),
        ] + optional_member("table"@, subscription.1.table) + optional_member(
            "filter"@,
            subscription.1.filter,
        ),
    )
}

/// The payload of a join: the channel's configuration, and the access
/// token where there is one.
pub open spec fn encode_join(payload: JoinPayloadView) -> JsonView {
    JsonView::Object(
        seq![
            (
                "config"@,
                JsonView::Object(
                    seq![
                        (
                            "broadcast"@,
                            JsonView::Object(
                                seq![
                                    ("self"@, JsonView::Bool(payload.broadcast.broadcast_self)),
                                    ("ack"@, JsonView::Bool(payload.broadcast.ack)),
                                ],
                            ),
                        ),
                        (
                            "presence"@,
                            JsonView::Object(
                                seq![
                                    (
                                        "key"@,
                                        JsonView::Text(
                                            match payload.presence_key {
                                                Some(key) => key,
                                                None => Seq::empty(),
                                            },
                                        ),
                                    ),
                                ],
                            ),
                        ),
                        (
                            "postgres_changes"@,
                            JsonView::Array(
                                Seq::new(
                                    payload.postgres_changes.len(),
                                    |i: int| encode_subscription(payload.postgres_changes[i]),
                                ),
                            ),
                        ),
                    ],
                ),
            ),
        ] + optional_member("access_token"@, payload.access_token),
    )
}

/// A request as a frame.
pub open spec fn encode_outbound(request: OutboundView) -> MessageView {
    match request {
        OutboundView::Join { topic, reference, payload } => MessageView {
            topic,
            event: "phx_join"@,
            payload: encode_join(payload),
            reference: Some(reference),
        },
        OutboundView::Leave { topic, reference } => MessageView {
            topic,
            event: "phx_leave"@,
            payload: JsonView::Object(Seq::empty()),
            reference: Some(reference),
        },
        OutboundView::Heartbeat { reference } => MessageView {
            topic: "phoenix"@,
            event: "heartbeat"@,
            payload: JsonView::Object(Seq::empty()),
            reference: Some(reference),
        },
        OutboundView::Broadcast { topic, reference, event, payload } => MessageView {
            topic,
            event: "broadcast"@,
            payload: JsonView::Object(
                seq![
                    ("type"@, JsonView::Text("broadcast"@)),
                    ("event"@, JsonView::Text(event)),
                    ("payload"@, payload),
                ],
            ),
            reference,
        },
        OutboundView::Track { topic, payload } => MessageView {
            topic,
            event: "presence"@,
            payload: JsonView::Object(
                seq![
                    ("type"@, JsonView::Text("presence"@)),
                    ("event"@, JsonView::Text("track"@)),
                    ("payload"@, payload),
                ],
            ),
            reference: None,
        },
        OutboundView::Untrack { topic } => MessageView {
            topic,
            event: "presence"@,
            payload: JsonView::Object(
                seq![("type"@, JsonView::Text("presence"@)), ("event"@, JsonView::Text("untrack"@))],
            ),
            reference: None,
        },
        OutboundView::AccessToken { topic, token } => MessageView {
            topic,
            event: "access_token"@,
            payload: JsonView::Object(seq![("access_token"@, JsonView::Text(token))]),
            reference: None,
        },
    }
}

/// The object with the members of the list.
fn object_of(members: Vec<Member>) -> (out: Json)
    ensures
        out@ is Object,
        out@->Object_0.len() == members.len(),
        forall|i: int|
            0 <= i < members.len() ==> (#[trigger] out@->Object_0[i]) == (
                members[i].key@,
                members[i].value@,
            ),
{
    proof {
        lemma_members_view(members@);
    }
    Json::object(members)
}

/// Puts the member `key` behind `members` where there is a text to send.
fn push_optional(members: &mut Vec<Member>, key: &str, value: &Option<String>)
    ensures
        members_view(final(members)@) == members_view(old(members)@) + optional_member(
            key@,
            crate::message::opt_view(*value),
        ),
{
    proof {
        lemma_members_view(members@);
    }
    match value {
        Some(text) => {
            members.push(Member::new(key, Json::Text(text.clone())));
        },
        None => {},
    }
    proof {
        lemma_members_view(members@);
        assert(members_view(members@) =~= members_view(old(members)@) + optional_member(
            key@,
            crate::message::opt_view(*value),
        ));
    }
}

fn change_text(event: PostgresChangesEvent) -> (out: Json)
    ensures
        out@ == JsonView::Text(change_name(event)),
{
    match event {
        PostgresChangesEvent::All => Json::text("*"),
        PostgresChangesEvent::Insert => Json::text("INSERT"),
        PostgresChangesEvent::Update => Json::text("UPDATE"),
        PostgresChangesEvent::Delete => Json::text("DELETE"),
    }
}

fn subscription_json(subscription: &PostgresSubscription) -> (out: Json)
    ensures
        out@ == encode_subscription(subscription@),
{
    let mut members: Vec<Member> = Vec::new();
    members.push(Member::new("event", change_text(subscription.event)));
    members.push(Member::new("schema", Json::Text(subscription.filter.schema.clone())));
    proof {
        lemma_members_view(members@);
        assert(members_view(members@) =~= seq![
            ("event"@, JsonView::Text(change_name(subscription.event))),
            ("schema"@, JsonView::Text(subscription.filter.schema@)),
        ]);
    }
    push_optional(&mut members, "table", &subscription.filter.table);
    push_optional(&mut members, "filter", &subscription.filter.filter);
    Json::object(members)
}

fn join_json(payload: &JoinPayload) -> (out: Json)
    ensures
        out@ == encode_join(payload@),
{
    let mut broadcast: Vec<Member> = Vec::new();
    broadcast.push(Member::new("self", Json::Bool(payload.broadcast.broadcast_self)));
    broadcast.push(Member::new("ack", Json::Bool(payload.broadcast.ack)));
    let broadcast = object_of(broadcast);
    assert(broadcast@->Object_0 =~= seq![
        ("self"@, JsonView::Bool(payload.broadcast.broadcast_self)),
        ("ack"@, JsonView::Bool(payload.broadcast.ack)),
    ]);
    let key = match &payload.presence_key {
        Some(key) => Json::Text(key.clone()),
        None => Json::Text(String::new()),
    };
    let mut presence: Vec<Member> = Vec::new();
    presence.push(Member::new("key", key));
    let presence = object_of(presence);
    assert(presence@->Object_0 =~= seq![
        (
            "key"@,
            JsonView::Text(
                match payload@.presence_key {
                    Some(key) => key,
                    None => Seq::empty(),
                },
            ),
        ),
    ]);
    let mut changes: Vec<Json> = Vec::new();
    let mut i: usize = 0;
    while i < payload.postgres_changes.len()
        invariant
            i <= payload.postgres_changes.len(),
            changes.len() == i,
            forall|j: int|
                0 <= j < i ==> (#[trigger] changes[j])@ == encode_subscription(payload.postgres_changes[j]@),
        decreases payload.postgres_changes.len() - i,
    {
        changes.push(subscription_json(&payload.postgres_changes[i]));
        i += 1;
    }
    let changes = Json::array(changes);
    assert(changes@->Array_0 =~= Seq::new(
        payload@.postgres_changes.len(),
        |i: int| encode_subscription(payload@.postgres_changes[i]),
    ));
    let mut config: Vec<Member> = Vec::new();
    config.push(Member::new("broadcast", broadcast));
    config.push(Member::new("presence", presence));
    config.push(Member::new("postgres_changes", changes));
    let config = object_of(config);
    assert(config@->Object_0 =~= seq![
        ("broadcast"@, broadcast@),
        ("presence"@, presence@),
        ("postgres_changes"@, changes@),
    ]);
    proof {
        let wanted = encode_join(payload@)->Object_0[0].1;
        let inner = wanted->Object_0;
        assert(broadcast@ == inner[0].1);
        assert(presence@ == inner[1].1);
        assert(changes@ == inner[2].1);
        assert(config@->Object_0 =~= inner);
        assert(config@ == wanted);
    }
    let mut members: Vec<Member> = Vec::new();
    members.push(Member::new("config", config));
    proof {
        lemma_members_view(members@);
        assert(members_view(members@) =~= seq![("config"@, config@)]);
    }
    push_optional(&mut members, "access_token", &payload.access_token);
    Json::object(members)
}

/// The object without members.
fn empty_object() -> (out: Json)
    ensures
        out@ == JsonView::Object(Seq::empty()),
{
    let out = object_of(Vec::new());
    assert(out@->Object_0 =~= Seq::empty());
    out
}

impl Outbound {
    /// The request as a frame.
    pub fn to_message(&self) -> (out: Message)
        ensures
            out@ == encode_outbound(self@),
    {
        match self {
            Outbound::Join { topic, reference, payload } => Message {
                topic: topic.clone(),
                event: "phx_join".to_owned(),
                payload: join_json(payload),
                reference: Some(*reference),
            },
            Outbound::Leave { topic, reference } => Message {
                topic: topic.clone(),
                event: "phx_leave".to_owned(),
                payload: empty_object(),
                reference: Some(*reference),
            },
            Outbound::Heartbeat { reference } => Message {
                topic: "phoenix".to_owned(),
                event: "heartbeat".to_owned(),
                payload: empty_object(),
                reference: Some(*reference),
            },
            Outbound::Broadcast { topic, reference, event, payload } => {
                let mut members: Vec<Member> = Vec::new();
                members.push(Member::new("type", Json::text("broadcast")));
                members.push(Member::new("event", Json::Text(event.clone())));
                members.push(Member::new("payload", payload.clone()));
                let body = object_of(members);
                assert(body@->Object_0 =~= seq![
                    ("type"@, JsonView::Text("broadcast"@)),
                    ("event"@, JsonView::Text(event@)),
                    ("payload"@, payload@),
                ]);
                Message {
                    topic: topic.clone(),
                    event: "broadcast".to_owned(),
                    payload: body,
                    reference: *reference,
                }
            },
            Outbound::Track { topic, payload } => {
                let mut members: Vec<Member> = Vec::new();
                members.push(Member::new("type", Json::text("presence")));
                members.push(Member::new("event", Json::text("track")));
                members.push(Member::new("payload", payload.clone()));
                let body = object_of(members);
                assert(body@->Object_0 =~= seq![
                    ("type"@, JsonView::Text("presence"@)),
                    ("event"@, JsonView::Text("track"@)),
                    ("payload"@, payload@),
                ]);
                Message {
                    topic: topic.clone(),
                    event: "presence".to_owned(),
                    payload: body,
                    reference: None,
                }
            },
            Outbound::Untrack { topic } => {
                let mut members: Vec<Member> = Vec::new();
                members.push(Member::new("type", Json::text("presence")));
                members.push(Member::new("event", Json::text("untrack")));
                let body = object_of(members);
                assert(body@->Object_0 =~= seq![
                    ("type"@, JsonView::Text("presence"@)),
                    ("event"@, JsonView::Text("untrack"@)),
                ]);
                Message {
                    topic: topic.clone(),
                    event: "presence".to_owned(),
                    payload: body,
                    reference: None,
                }
            },
            Outbound::AccessToken { topic, token } => {
                let mut members: Vec<Member> = Vec::new();
                members.push(Member::new("access_token", Json::Text(token.clone())));
                let body = object_of(members);
                assert(body@->Object_0 =~= seq![("access_token"@, JsonView::Text(token@))]);
                Message {
                    topic: topic.clone(),
                    event: "access_token".to_owned(),
                    payload: body,
                    reference: None,
                }
            },
        }
    }
}

} // verus!
