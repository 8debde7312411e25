//! The JSON values that frames carry, as plain data.
//!
//! A number keeps its text, so that no precision is lost between the wire and
//! the host; an object keeps its members in the order in which they came.

use vstd::prelude::*;
use crate::decimal::{format_u64, parse_u64, parsed};

verus! {

/// A JSON value.
#[derive(Debug, PartialEq, Eq)]
pub enum Json {
    Null,
    Bool(bool),
    /// A number, by its text.
    Number(String),
    Text(String),
    Array(Vec<Json>),
    Object(Vec<Member>),
}

/// One member of a JSON object.
#[derive(Debug, PartialEq, Eq)]
pub struct Member {
    pub key: String,
    pub value: Json,
}

/// The mathematical value of a [`Json`].
pub enum JsonView {
    Null,
    Bool(bool),
    Number(Seq<char>),
    Text(Seq<char>),
    Array(Seq<JsonView>),
    Object(Seq<(Seq<char>, JsonView)>),
}

impl View for Json {
    type V = JsonView;

    open spec fn view(&self) -> JsonView
        decreases self,
    {
        match self {
            Json::Null => JsonView::Null,
            Json::Bool(b) => JsonView::Bool(*b),
            Json::Number(n) => JsonView::Number(n@),
            Json::Text(s) => JsonView::Text(s@),
            Json::Array(items) => JsonView::Array(
                Seq::new(items.len() as nat, |i: int| if 0 <= i < items.len() {
                    items[i].view()
                } else {
                    JsonView::Null
                }),
            ),
            Json::Object(members) => JsonView::Object(members_view(members@)),
        }
    }
}

impl View for Member {
    type V = (Seq<char>, JsonView);

    open spec fn view(&self) -> (Seq<char>, JsonView)
        decreases self,
    {
        (self.key@, self.value.view())
    }
}

/// The value of the first member of `members` whose key is `key`.
pub open spec fn member_value(members: Seq<(Seq<char>, JsonView)>, key: Seq<char>) -> Option<JsonView>
    decreases members.len(),
{
    if members.len() == 0 {
        None
    } else if members[0].0 == key {
        Some(members[0].1)
    } else {
        member_value(members.skip(1), key)
    }
}

impl JsonView {
    /// The member `key` of an object; `None` for a missing member and for a
    /// value that is no object.
    pub open spec fn get(self, key: Seq<char>) -> Option<JsonView> {
        match self {
            JsonView::Object(members) => member_value(members, key),
            _ => None,
        }
    }

    /// The text of a string value.
    pub open spec fn text(self) -> Option<Seq<char>> {
        match self {
            JsonView::Text(s) => Some(s),
            _ => None,
        }
    }

    /// The items of an array.
    pub open spec fn items(self) -> Option<Seq<JsonView>> {
        match self {
            JsonView::Array(items) => Some(items),
            _ => None,
        }
    }

    /// The members of an object.
    pub open spec fn members(self) -> Option<Seq<(Seq<char>, JsonView)>> {
        match self {
            JsonView::Object(members) => Some(members),
            _ => None,
        }
    }

    /// The number that a number's text stands for, where it is a whole
    /// number without sign that fits.
    pub open spec fn number(self) -> Option<u64> {
        match self {
            JsonView::Number(text) => parsed(text),
            _ => None,
        }
    }

    /// The member `key` of an object, or `null` where it is missing.
    pub open spec fn get_or_null(self, key: Seq<char>) -> JsonView {
        match self.get(key) {
            Some(value) => value,
            None => JsonView::Null,
        }
    }
}

/// The values of a list, each by its view.
pub open spec fn values_view(items: Seq<Json>) -> Seq<JsonView> {
    Seq::new(items.len(), |i: int| items[i]@)
}

/// The members of a list, each by its view.
pub open spec fn members_view(members: Seq<Member>) -> Seq<(Seq<char>, JsonView)>
    decreases members,
{
    Seq::new(
        members.len(),
        |i: int|
            if 0 <= i < members.len() {
                members[i].view()
            } else {
                (Seq::empty(), JsonView::Null)
            },
    )
}

/// What the views of a list of members are.
pub proof fn lemma_members_view(members: Seq<Member>)
    ensures
        members_view(members).len() == members.len(),
        forall|i: int|
            0 <= i < members.len() ==> (#[trigger] members_view(members)[i]) == (
                members[i].key@,
                members[i].value@,
            ),
        forall|i: int| 0 <= i < members.len() ==> (#[trigger] members[i])@ == members_view(members)[i],
{
    reveal_with_fuel(members_view, 2);
    assert forall|i: int| 0 <= i < members.len() implies (#[trigger] members_view(members)[i]) == (
        members[i].key@,
        members[i].value@,
    ) by {
        assert(members_view(members)[i] == members[i].view());
    }
}

/// The view of an array is the array of its items' views.
pub proof fn lemma_array_view(items: Vec<Json>)
    ensures
        Json::Array(items)@ == JsonView::Array(values_view(items@)),
{
    assert(Json::Array(items)@->Array_0 =~= values_view(items@));
}

/// The view of an object is the object of its members' views.
pub proof fn lemma_object_view(members: Vec<Member>)
    ensures
        Json::Object(members)@ == JsonView::Object(members_view(members@)),
{
}

impl Json {
    /// The member `key` of an object; `None` for a missing member and for a
    /// value that is no object. Of two members with one key the first
    /// counts.
    pub fn get(&self, key: &str) -> (out: Option<&Json>)
        ensures
            match out {
                Some(value) => self@.get(key@) == Some(value@),
                None => self@.get(key@) is None,
            },
    {
        match self {
            Json::Object(members) => {
                proof {
                    lemma_object_view(*members);
                    lemma_members_view(members@);
                }
                let wanted = key.to_owned();
                let ghost all = members_view(members@);
                let mut i: usize = 0;
                assert(all.skip(0) =~= all);
                while i < members.len()
                    invariant
                        i <= members.len(),
                        all == members_view(members@),
                        all.len() == members.len(),
                        forall|j: int|
                            0 <= j < members.len() ==> (#[trigger] all[j]) == (
                                members[j].key@,
                                members[j].value@,
                            ),
                        self@.get(key@) == member_value(all, key@),
                        wanted@ == key@,
                        member_value(all, key@) == member_value(all.skip(i as int), key@),
                    decreases members.len() - i,
                {
                    proof {
                        assert(all.skip(i as int)[0] == all[i as int]);
                        assert(all.skip(i as int).skip(1) =~= all.skip(i + 1));
                    }
                    if members[i].key == wanted {
                        return Some(&members[i].value);
                    }
                    i += 1;
                }
                None
            },
            _ => None,
        }
    }

    /// The text of a string value.
    pub fn as_text(&self) -> (out: Option<&String>)
        ensures
            match out {
                Some(text) => self@.text() == Some(text@),
                None => self@.text() is None,
            },
    {
        match self {
            Json::Text(text) => Some(text),
            _ => None,
        }
    }

    /// The items of an array.
    pub fn as_items(&self) -> (out: Option<&Vec<Json>>)
        ensures
            match out {
                Some(items) => self@.items() == Some(values_view(items@)),
                None => self@.items() is None,
            },
    {
        match self {
            Json::Array(items) => {
                proof {
                    lemma_array_view(*items);
                }
                Some(items)
            },
            _ => None,
        }
    }

    /// The members of an object.
    pub fn as_members(&self) -> (out: Option<&Vec<Member>>)
        ensures
            match out {
                Some(members) => self@.members() == Some(members_view(members@)),
                None => self@.members() is None,
            },
    {
        match self {
            Json::Object(members) => {
                proof {
                    lemma_object_view(*members);
                }
                Some(members)
            },
            _ => None,
        }
    }

    /// The number that a number's text stands for, where it is a whole
    /// number without sign that fits.
    pub fn as_u64(&self) -> (out: Option<u64>)
        ensures
            out == self@.number(),
    {
        match self {
            Json::Number(text) => parse_u64(text.as_str()),
            _ => None,
        }
    }

    /// The string value with the text `text`.
    pub fn text(text: &str) -> (out: Json)
        ensures
            out@ == JsonView::Text(text@),
    {
        Json::Text(text.to_owned())
    }

    /// The number `n`.
    pub fn number(n: u64) -> (out: Json)
        ensures
            out@ == JsonView::Number(crate::decimal::digits_of(n as nat)),
            out@.number() == Some(n),
    {
        Json::Number(format_u64(n))
    }

    /// The object with the members `members`.
    pub fn object(members: Vec<Member>) -> (out: Json)
        ensures
            out@ == JsonView::Object(members_view(members@)),
    {
        proof {
            lemma_object_view(members);
        }
        Json::Object(members)
    }

    /// The array with the items `items`.
    pub fn array(items: Vec<Json>) -> (out: Json)
        ensures
            out@ == JsonView::Array(values_view(items@)),
    {
        proof {
            lemma_array_view(items);
        }
        Json::Array(items)
    }
}

impl Member {
    /// The member `key` with the value `value`.
    pub fn new(key: &str, value: Json) -> (out: Member)
        ensures
            out@ == (key@, value@),
    {
        Member { key: key.to_owned(), value }
    }
}

impl Clone for Json {
    #[verifier::loop_isolation(false)]
    fn clone(&self) -> (res: Json)
        ensures
            res@ == self@,
        decreases self,
    {
        match self {
            Json::Null => Json::Null,
            Json::Bool(b) => Json::Bool(*b),
            Json::Number(n) => Json::Number(n.clone()),
            Json::Text(s) => Json::Text(s.clone()),
            Json::Array(items) => {
                let mut out: Vec<Json> = Vec::new();
                let mut i: usize = 0;
                while i < items.len()
                    invariant
                        i <= items.len(),
                        out.len() == i,
                        forall|j: int| 0 <= j < i ==> out[j]@ == items[j]@,
                    decreases items.len() - i,
                {
                    out.push(items[i].clone());
                    i += 1;
                }
                let res = Json::Array(out);
                assert(res@ == self@) by {
                    assert(res@->Array_0 =~= self@->Array_0);
                }
                res
            },
            Json::Object(members) => {
                let mut out: Vec<Member> = Vec::new();
                let mut i: usize = 0;
                while i < members.len()
                    invariant
                        i <= members.len(),
                        out.len() == i,
                        forall|j: int| 0 <= j < i ==> out[j]@ == members[j]@,
                    decreases members.len() - i,
                {
                    let member = &members[i];
                    out.push(Member { key: member.key.clone(), value: member.value.clone() });
                    i += 1;
                }
                let res = Json::Object(out);
                assert(res@ == self@) by {
                    lemma_object_view(out);
                    lemma_object_view(*members);
                    lemma_members_view(out@);
                    lemma_members_view(members@);
                    assert(members_view(out@) =~= members_view(members@));
                }
                res
            },
        }
    }
}

impl Clone for Member {
    fn clone(&self) -> (res: Member)
        ensures
            res@ == self@,
    {
        Member { key: self.key.clone(), value: self.value.clone() }
    }
}

} // verus!
