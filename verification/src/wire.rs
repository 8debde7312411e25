//! Frames on the wire. A frame is a JSON object with a topic, an event
//! name, a payload that is an object, and a reference that may be missing;
//! the reference travels as the text of its digits.

use vstd::prelude::*;
use vstd::string::*;
use crate::decimal::{digits_of, format_u64, lemma_digits_roundtrip, parse_u64, parsed};
use crate::json::{lemma_members_view, member_value, members_view, Json, JsonView, Member};

verus! {

/// A frame.
#[derive(Debug, PartialEq, Eq)]
pub struct Message {
    pub topic: String,
    pub event: String,
    pub payload: Json,
    pub reference: Option<u64>,
}

/// The mathematical value of a [`Message`].
pub struct MessageView {
    pub topic: Seq<char>,
    pub event: Seq<char>,
    pub payload: JsonView,
    pub reference: Option<u64>,
}

impl View for Message {
    type V = MessageView;

    open spec fn view(&self) -> MessageView {
        MessageView {
            topic: self.topic@,
            event: self.event@,
            payload: self.payload@,
            reference: self.reference,
        }
    }
}

/// A reference as it travels: the text of its digits, or `null`.
pub open spec fn encode_reference(reference: Option<u64>) -> JsonView {
    match reference {
        Some(r) => JsonView::Text(digits_of(r as nat)),
        None => JsonView::Null,
    }
}

/// The reference that a frame's `ref` member stands for: none where the
/// member is missing or `null`, the number where it is the text of one;
/// anything else is no reference at all.
pub open spec fn decode_reference(value: Option<JsonView>) -> Option<Option<u64>> {
    match value {
        None => Some(None),
        Some(JsonView::Null) => Some(None),
        Some(JsonView::Text(text)) => match parsed(text) {
            Some(r) => Some(Some(r)),
            None => None,
        },
        Some(_) => None,
    }
}

/// A frame as JSON.
pub open spec fn encode_message(message: MessageView) -> JsonView {
    JsonView::Object(
        seq![
            ("topic"@, JsonView::Text(message.topic)),
            ("event"@, JsonView::Text(message.event)),
            ("payload"@, message.payload),
            ("ref"@, encode_reference(message.reference)),
        ],
    )
}

/// The frame that a JSON value stands for, if it stands for one: an object
/// whose `topic` and `event` are strings and whose `payload` is an object,
/// with a `ref` that is a reference or missing.
pub open spec fn decode_message(json: JsonView) -> Option<MessageView> {
    match (json.get("topic"@), json.get("event"@), json.get("payload"@), decode_reference(json.get("ref"@))) {
        (Some(JsonView::Text(topic)), Some(JsonView::Text(event)), Some(payload), Some(reference)) => {
            if payload is Object {
                Some(MessageView { topic, event, payload, reference })
            } else {
                None
            }
        },
        _ => None,
    }
}

/// The four names of a frame's members are four different names.
pub proof fn lemma_frame_keys()
    ensures
        "topic"@ != "event"@,
        "topic"@ != "payload"@,
        "topic"@ != "ref"@,
        "event"@ != "payload"@,
        "event"@ != "ref"@,
        "payload"@ != "ref"@,
{
    reveal_strlit("topic");
    reveal_strlit("event");
    reveal_strlit("payload");
    reveal_strlit("ref");
    assert("topic"@[0] == 't');
    assert("event"@[0] == 'e');
    assert("topic"@.len() == 5);
    assert("event"@.len() == 5);
    assert("payload"@.len() == 7);
    assert("ref"@.len() == 3);
}

/// A frame that was written is read back as it was.
pub proof fn lemma_message_roundtrip(message: MessageView)
    requires
        message.payload is Object,
    ensures
        decode_message(encode_message(message)) == Some(message),
{
    lemma_frame_keys();
    let members = encode_message(message)->Object_0;
    assert(members.skip(1)[0] == members[1]);
    assert(members.skip(1).skip(1)[0] == members[2]);
    assert(members.skip(1).skip(1).skip(1)[0] == members[3]);
    assert(member_value(members, "topic"@) == Some(members[0].1));
    assert(member_value(members.skip(1), "event"@) == Some(members[1].1));
    assert(member_value(members, "event"@) == Some(members[1].1));
    assert(member_value(members.skip(1).skip(1), "payload"@) == Some(members[2].1));
    assert(member_value(members.skip(1), "payload"@) == Some(members[2].1));
    assert(member_value(members, "payload"@) == Some(members[2].1));
    assert(member_value(members.skip(1).skip(1).skip(1), "ref"@) == Some(members[3].1));
    assert(member_value(members.skip(1).skip(1), "ref"@) == Some(members[3].1));
    assert(member_value(members.skip(1), "ref"@) == Some(members[3].1));
    assert(member_value(members, "ref"@) == Some(members[3].1));
    match message.reference {
        Some(r) => {
            lemma_digits_roundtrip(r as nat);
        },
        None => {},
    }
}

impl Message {
    /// The frame as JSON.
    pub fn to_json(&self) -> (out: Json)
        ensures
            out@ == encode_message(self@),
    {
        let reference = match self.reference {
            Some(r) => Json::Text(format_u64(r)),
            None => Json::Null,
        };
        let mut members: Vec<Member> = Vec::new();
        members.push(Member::new("topic", Json::Text(self.topic.clone())));
        members.push(Member::new("event", Json::Text(self.event.clone())));
        members.push(Member::new("payload", self.payload.clone()));
        members.push(Member::new("ref", reference));
        proof {
            lemma_members_view(members@);
            assert(members_view(members@) =~= encode_message(self@)->Object_0);
        }
        Json::object(members)
    }

    /// Reads a frame from JSON; `None` for anything that is no frame.
    pub fn from_json(json: &Json) -> (out: Option<Message>)
        ensures
            match out {
                Some(message) => decode_message(json@) == Some(message@),
                None => decode_message(json@) is None,
            },
    {
        let topic = match json.get("topic") {
            Some(value) => match value.as_text() {
                Some(text) => text.clone(),
                None => {
                    return None;
                },
            },
            None => {
                return None;
            },
        };
        let event = match json.get("event") {
            Some(value) => match value.as_text() {
                Some(text) => text.clone(),
                None => {
                    return None;
                },
            },
            None => {
                return None;
            },
        };
        let payload = match json.get("payload") {
            Some(value) => match value {
                Json::Object(_) => value.clone(),
                _ => {
                    return None;
                },
            },
            None => {
                return None;
            },
        };
        let reference = match json.get("ref") {
            None => None,
            Some(value) => match value {
                Json::Null => None,
                Json::Text(text) => match parse_u64(text.as_str()) {
                    Some(r) => Some(r),
                    None => {
                        return None;
                    },
                },
                _ => {
                    return None;
                },
            },
        };
        Some(Message { topic, event, payload, reference })
    }
}

} // verus!
