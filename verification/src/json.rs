//! JSON values.

use crate::text_map::{find_key, lemma_position, lemma_position_is, map_of, position, put_entry};
use vstd::prelude::*;

verus! {

/// What a JSON value holds. A number is kept as its text.
pub enum JsonView {
    Null,
    Bool(bool),
    Number(Seq<char>),
    Text(Seq<char>),
    Array(Seq<JsonView>),
    Object(Map<Seq<char>, JsonView>),
}

impl JsonView {
    /// The member `key` of an object; nothing else has members.
    pub open spec fn field(self, key: Seq<char>) -> Option<JsonView> {
        match self {
            JsonView::Object(members) if members.contains_key(key) => Some(members[key]),
            _ => None,
        }
    }

    /// The text of a string.
    pub open spec fn text(self) -> Option<Seq<char>> {
        match self {
            JsonView::Text(t) => Some(t),
            _ => None,
        }
    }

    /// The text of the member `key`, where it is a string.
    pub open spec fn text_field(self, key: Seq<char>) -> Option<Seq<char>> {
        match self.field(key) {
            Some(JsonView::Text(t)) => Some(t),
            _ => None,
        }
    }
}

/// A JSON value.
#[derive(Debug, PartialEq, Eq)]
pub enum Json {
    Null,
    Bool(bool),
    /// A number, as a text that spells it.
    Number(String),
    Text(String),
    Array(Vec<Json>),
    /// The members of an object. Where a key occurs twice the first one counts.
    Object(Vec<(String, Json)>),
}

impl View for Json {
    type V = JsonView;

    open spec fn view(&self) -> JsonView {
        self.model()
    }
}

/// What each of several values holds.
pub open spec fn json_views(items: Seq<Json>) -> Seq<JsonView> {
    items.map_values(|j: Json| j@)
}

impl Json {
    /// What the value holds.
    pub open spec fn model(self) -> JsonView
        decreases self,
    {
        match self {
            Json::Null => JsonView::Null,
            Json::Bool(b) => JsonView::Bool(b),
            Json::Number(t) => JsonView::Number(t@),
            Json::Text(t) => JsonView::Text(t@),
            Json::Array(items) => JsonView::Array(
                Seq::new(
                    items@.len(),
                    |i: int|
                        if 0 <= i < items@.len() {
                            items@[i].model()
                        } else {
                            JsonView::Null
                        },
                ),
            ),
            Json::Object(fields) => JsonView::Object(
                Map::new(
                    |k: Seq<char>| position(fields@, k) < fields@.len(),
                    |k: Seq<char>|
                        {
                            let p = position(fields@, k);
                            if 0 <= p < fields@.len() {
                                fields@[p].1.model()
                            } else {
                                JsonView::Null
                            }
                        },
                ),
            ),
        }
    }

    /// The member `key` of an object.
    pub fn get(&self, key: &str) -> (r: Option<&Json>)
        ensures
            match r {
                Some(v) => self@.field(key@) == Some(v@),
                None => self@.field(key@) is None,
            },
    {
        match self {
            Json::Object(fields) => {
                let p: usize = find_key(fields, key);
                if p < fields.len() {
                    Some(&fields[p].1)
                } else {
                    None
                }
            },
            _ => None,
        }
    }

    /// The text of a string.
    pub fn as_str(&self) -> (r: Option<&str>)
        ensures
            match r {
                Some(t) => self@.text() == Some(t@),
                None => self@.text() is None,
            },
    {
        match self {
            Json::Text(t) => Some(t.as_str()),
            _ => None,
        }
    }

    /// The text of the member `key`, where it is a string.
    pub fn get_str(&self, key: &str) -> (r: Option<&str>)
        ensures
            match r {
                Some(t) => self@.text_field(key@) == Some(t@),
                None => self@.text_field(key@) is None,
            },
    {
        match self.get(key) {
            Some(v) => v.as_str(),
            None => None,
        }
    }
}

/// An array holds what its items hold.
pub proof fn lemma_array_view(items: Vec<Json>)
    ensures
        Json::Array(items)@ == JsonView::Array(json_views(items@)),
{
    assert(Json::Array(items)@->Array_0 =~= json_views(items@));
}

/// An object holds what its members hold.
pub proof fn lemma_object_view(fields: Vec<(String, Json)>)
    ensures
        Json::Object(fields)@ == JsonView::Object(
            map_of(fields@).map_values(|j: Json| j@),
        ),
{
    assert forall|k: Seq<char>| 0 <= #[trigger] position(fields@, k) by {
        lemma_position(fields@, k);
    }
    assert(Json::Object(fields)@->Object_0 =~= map_of(fields@).map_values(|j: Json| j@));
}

/// Gives the member `key` of an object the value `value`.
pub fn put_field(fields: &mut Vec<(String, Json)>, key: String, value: Json)
    ensures
        Json::Object(*final(fields))@ == JsonView::Object(
            (Json::Object(*old(fields))@->Object_0).insert(key@, value@),
        ),
{
    proof {
        lemma_object_view(*fields);
    }
    put_entry(fields, key, value);
    proof {
        lemma_object_view(*fields);
        assert(map_of(fields@).map_values(|j: Json| j@) =~= map_of(old(fields)@).map_values(
            |j: Json| j@,
        ).insert(key@, value@));
    }
}

impl Clone for Json {
    fn clone(&self) -> (r: Self)
        ensures
            r@ == self@,
        decreases self,
    {
        match self {
            Json::Null => Json::Null,
            Json::Bool(b) => Json::Bool(*b),
            Json::Number(t) => Json::Number(t.clone()),
            Json::Text(t) => Json::Text(t.clone()),
            Json::Array(items) => {
                let mut copies: Vec<Json> = Vec::new();
                for i in 0..items.len()
                    invariant
                        *self == Json::Array(*items),
                        copies@.len() == i,
                        forall|j: int| 0 <= j < i ==> (#[trigger] copies@[j])@ == items@[j]@,
                {
                    assert(decreases_to!(*self => self->Array_0));
                    assert(decreases_to!(*items => items@));
                    assert(decreases_to!(items@ => items@[i as int]));
                    let copy = items[i].clone();
                    copies.push(copy);
                }
                proof {
                    lemma_array_view(*items);
                    lemma_array_view(copies);
                    assert(json_views(copies@) =~= json_views(items@));
                }
                Json::Array(copies)
            },
            Json::Object(fields) => {
                let mut copies: Vec<(String, Json)> = Vec::new();
                for i in 0..fields.len()
                    invariant
                        *self == Json::Object(*fields),
                        copies@.len() == i,
                        forall|j: int|
                            0 <= j < i ==> (#[trigger] copies@[j]).0@ == fields@[j].0@
                                && copies@[j].1@ == fields@[j].1@,
                {
                    assert(decreases_to!(*self => self->Object_0));
                    assert(decreases_to!(*fields => fields@));
                    assert(decreases_to!(fields@ => fields@[i as int]));
                    assert(decreases_to!(fields@[i as int] => fields@[i as int].1));
                    let copy = fields[i].1.clone();
                    copies.push((fields[i].0.clone(), copy));
                }
                proof {
                    lemma_same_members(*fields, copies);
                }
                Json::Object(copies)
            },
        }
    }
}

/// Members with the same keys and values in the same order make up the same object.
pub proof fn lemma_same_members(a: Vec<(String, Json)>, b: Vec<(String, Json)>)
    requires
        a@.len() == b@.len(),
        forall|j: int|
            0 <= j < a@.len() ==> (#[trigger] b@[j]).0@ == a@[j].0@ && b@[j].1@ == a@[j].1@,
    ensures
        Json::Object(a)@ == Json::Object(b)@,
{
    assert forall|k: Seq<char>| #[trigger] position(b@, k) == position(a@, k) by {
        lemma_position(a@, k);
        let p = position(a@, k);
        assert forall|i: int| 0 <= i < p implies (#[trigger] b@[i]).0@ != k by {
            assert(a@[i].0@ != k);
        }
        lemma_position_is(b@, k, p);
    }
    assert forall|k: Seq<char>| 0 <= #[trigger] position(a@, k) by {
        lemma_position(a@, k);
    }
    assert(Json::Object(a)@->Object_0 =~= Json::Object(b)@->Object_0);
}

/// An object has the members that it has; nothing else has members, and a member is a text where
/// it is a string.
pub proof fn members_are_those_of_the_object(
    members: Map<Seq<char>, JsonView>,
    key: Seq<char>,
    other: JsonView,
    t: Seq<char>,
)
    ensures
        members.contains_key(key) ==> JsonView::Object(members).field(key) == Some(members[key]),
        !members.contains_key(key) ==> JsonView::Object(members).field(key) is None,
        !(other is Object) ==> other.field(key) is None,
        other.text_field(key) == Some(t) <==> other.field(key) == Some(JsonView::Text(t)),
        other.text() == Some(t) <==> other == JsonView::Text(t),
{
}

/// A value holds what it is made of: texts, items in their order, and for each key the member
/// that stands first.
pub proof fn values_hold_what_they_are_made_of(
    text: String,
    flag: bool,
    items: Vec<Json>,
    fields: Vec<(String, Json)>,
    i: int,
)
    ensures
        Json::Null@ == JsonView::Null,
        Json::Bool(flag)@ == JsonView::Bool(flag),
        Json::Text(text)@ == JsonView::Text(text@),
        Json::Number(text)@ == JsonView::Number(text@),
        Json::Array(items)@ is Array,
        (Json::Array(items)@->Array_0).len() == items@.len(),
        0 <= i < items@.len() ==> (Json::Array(items)@->Array_0)[i] == items@[i]@,
        Json::Object(fields)@ is Object,
        forall|k: Seq<char>| #[trigger]
            (Json::Object(fields)@->Object_0).contains_key(k) ==> exists|j: int|
                0 <= j < fields@.len() && (#[trigger] fields@[j]).0@ == k,
        0 <= i < fields@.len() && (forall|j: int|
            0 <= j < i ==> (#[trigger] fields@[j]).0@ != fields@[i].0@) ==> {
            &&& (Json::Object(fields)@->Object_0).contains_key(fields@[i].0@)
            &&& (Json::Object(fields)@->Object_0)[fields@[i].0@] == fields@[i].1@
        },
{
    lemma_array_view(items);
    lemma_object_view(fields);
    let members = Json::Object(fields)@->Object_0;
    assert forall|k: Seq<char>| #[trigger] members.contains_key(k) implies exists|j: int|
        0 <= j < fields@.len() && (#[trigger] fields@[j]).0@ == k by {
        lemma_position(fields@, k);
        assert(fields@[position(fields@, k)].0@ == k);
    }
    if 0 <= i < fields@.len() && (forall|j: int|
        0 <= j < i ==> (#[trigger] fields@[j]).0@ != fields@[i].0@) {
        lemma_position_is(fields@, fields@[i].0@, i);
    }
}

} // verus!
