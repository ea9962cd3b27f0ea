//! The text form of JSON, as `serde_json` reads and writes it.

use crate::error::{ErrorView, LighterError};
use crate::json::{json_views, lemma_array_view, lemma_object_view, Json, JsonView};
use crate::text_map::{keys_of, lemma_entry, lemma_position, lemma_position_is, map_of, position};
use vstd::prelude::*;

verus! {

/// A JSON value of `serde_json`.
#[verifier::external_type_specification]
#[verifier::external_body]
pub struct ExValue(serde_json::Value);

/// Why `serde_json` refused a text.
#[verifier::external_type_specification]
#[verifier::external_body]
pub struct ExJsonError(serde_json::Error);

/// What a `serde_json::Value` holds, with each number as the text that `serde_json::Number`'s
/// `Display` writes for it.
pub uninterp spec fn value_contents(value: serde_json::Value) -> JsonView;

/// What `serde_json::from_str` reads from a text, if it accepts it.
pub uninterp spec fn parsed_json(text: Seq<char>) -> Option<JsonView>;

/// `serde_json::from_str`, for a value of any shape: what it accepts and what it reads depend on
/// the text alone.
#[verifier::external_body]
fn parse_value(text: &str) -> (r: Result<serde_json::Value, serde_json::Error>)
    ensures
        match r {
            Ok(value) => parsed_json(text@) == Some(value_contents(value)),
            Err(_) => parsed_json(text@) is None,
        },
{
    serde_json::from_str::<serde_json::Value>(text)
}

/// The outermost layer of a `serde_json::Value`.
enum ValueNode {
    Null,
    Bool(bool),
    Number(String),
    Text(String),
    Array(Vec<serde_json::Value>),
    Object(Vec<(String, serde_json::Value)>),
}

/// What each of several values holds.
spec fn contents_of(items: Seq<serde_json::Value>) -> Seq<JsonView> {
    items.map_values(|v: serde_json::Value| value_contents(v))
}

/// What each of several members holds.
spec fn members_of(members: Seq<(String, serde_json::Value)>) -> Map<Seq<char>, JsonView> {
    map_of(members).map_values(|v: serde_json::Value| value_contents(v))
}

/// Whether `node` is the outermost layer of a value that holds `contents`.
spec fn is_layer(node: ValueNode, contents: JsonView) -> bool {
    match node {
        ValueNode::Null => contents == JsonView::Null,
        ValueNode::Bool(b) => contents == JsonView::Bool(b),
        ValueNode::Number(t) => contents == JsonView::Number(t@),
        ValueNode::Text(t) => contents == JsonView::Text(t@),
        ValueNode::Array(items) => contents == JsonView::Array(contents_of(items@)),
        ValueNode::Object(members) => {
            &&& keys_of(members@).no_duplicates()
            &&& contents == JsonView::Object(members_of(members@))
        },
    }
}

/// Takes a `serde_json::Value` apart, one layer deep: it is null, a boolean, a number, a string,
/// an array of values or an object with a value under each of its keys, no key twice. A number is
/// handed out as `Number`'s `Display` writes it.
#[verifier::external_body]
fn open_value(value: serde_json::Value) -> (node: ValueNode)
    ensures
        is_layer(node, value_contents(value)),
{
    match value {
        serde_json::Value::Null => ValueNode::Null,
        serde_json::Value::Bool(b) => ValueNode::Bool(b),
        serde_json::Value::Number(n) => ValueNode::Number(n.to_string()),
        serde_json::Value::String(s) => ValueNode::Text(s),
        serde_json::Value::Array(items) => ValueNode::Array(items),
        serde_json::Value::Object(members) => ValueNode::Object(members.into_iter().collect()),
    }
}

/// A layer says all of the value that it is taken from: what it is, its text, its items in their
/// order, and its members, each under its key.
proof fn layers_say_all(
    flag: bool,
    text: String,
    items: Vec<serde_json::Value>,
    members: Vec<(String, serde_json::Value)>,
    contents: JsonView,
    i: int,
)
    ensures
        is_layer(ValueNode::Null, contents) <==> contents == JsonView::Null,
        is_layer(ValueNode::Bool(flag), contents) <==> contents == JsonView::Bool(flag),
        is_layer(ValueNode::Number(text), contents) <==> contents == JsonView::Number(text@),
        is_layer(ValueNode::Text(text), contents) <==> contents == JsonView::Text(text@),
        is_layer(ValueNode::Array(items), contents) ==> {
            &&& contents is Array
            &&& (contents->Array_0).len() == items@.len()
            &&& 0 <= i < items@.len() ==> (contents->Array_0)[i] == value_contents(items@[i])
        },
        is_layer(ValueNode::Object(members), contents) ==> {
            &&& contents is Object
            &&& 0 <= i < members@.len() ==> {
                &&& (contents->Object_0).contains_key(members@[i].0@)
                &&& (contents->Object_0)[members@[i].0@] == value_contents(members@[i].1)
            }
            &&& forall|k: Seq<char>| #[trigger]
                (contents->Object_0).contains_key(k) ==> exists|j: int|
                    0 <= j < members@.len() && (#[trigger] members@[j]).0@ == k
        },
{
    if is_layer(ValueNode::Object(members), contents) {
        if 0 <= i < members@.len() {
            lemma_member(members@, i);
        }
        assert forall|k: Seq<char>| #[trigger] (contents->Object_0).contains_key(
            k,
        ) implies exists|j: int| 0 <= j < members@.len() && (#[trigger] members@[j]).0@ == k by {
            lemma_position(members@, k);
            assert(members@[position(members@, k)].0@ == k);
        }
    }
}

/// The entry `m` is in the map that entries with distinct keys stand for.
proof fn lemma_member(members: Seq<(String, serde_json::Value)>, m: int)
    requires
        keys_of(members).no_duplicates(),
        0 <= m < members.len(),
    ensures
        members_of(members).dom().finite(),
        members_of(members).contains_key(members[m].0@),
        members_of(members)[members[m].0@] == value_contents(members[m].1),
{
    lemma_entry(members, m);
    let keys = keys_of(members);
    assert forall|k: Seq<char>| #[trigger] members_of(members).dom().contains(
        k,
    ) implies keys.to_set().contains(k) by {
        lemma_position(members, k);
        assert(keys[position(members, k)] == k);
    }
    vstd::seq_lib::seq_to_set_is_finite(keys);
    vstd::set_lib::lemma_len_subset(members_of(members).dom(), keys.to_set());
}

/// Members with the same keys and contents in the same order make up the same object.
proof fn lemma_members(members: Seq<(String, serde_json::Value)>, fields: Vec<(String, Json)>)
    requires
        members.len() == fields@.len(),
        forall|j: int|
            0 <= j < members.len() ==> (#[trigger] fields@[j]).0@ == members[j].0@
                && fields@[j].1@ == value_contents(members[j].1),
    ensures
        Json::Object(fields)@ == JsonView::Object(members_of(members)),
{
    lemma_object_view(fields);
    assert forall|k: Seq<char>| #[trigger] position(fields@, k) == position(members, k) by {
        lemma_position(members, k);
        let p = position(members, k);
        assert forall|i: int| 0 <= i < p implies (#[trigger] fields@[i]).0@ != k by {
            assert(members[i].0@ != k);
        }
        lemma_position_is(fields@, k, p);
    }
    assert forall|k: Seq<char>| 0 <= #[trigger] position(members, k) by {
        lemma_position(members, k);
    }
    assert(map_of(fields@).map_values(|j: Json| j@) =~= members_of(members));
}

/// The value that a `serde_json::Value` holds.
fn from_value(value: serde_json::Value) -> (r: Json)
    ensures
        r@ == value_contents(value),
    decreases value_contents(value),
{
    let ghost contents = value_contents(value);
    match open_value(value) {
        ValueNode::Null => Json::Null,
        ValueNode::Bool(b) => Json::Bool(b),
        ValueNode::Number(t) => Json::Number(t),
        ValueNode::Text(t) => Json::Text(t),
        ValueNode::Array(items) => {
            let ghost all = items@;
            let mut list: Vec<Json> = Vec::new();
            for item in it: items
                invariant
                    it.seq() == all,
                    contents == JsonView::Array(contents_of(all)),
                    contents == value_contents(value),
                    list@.len() == it.index(),
                    forall|j: int|
                        0 <= j < list@.len() ==> (#[trigger] list@[j])@ == value_contents(all[j]),
            {
                proof {
                    let n = it.index();
                    assert(decreases_to!(contents => contents->Array_0));
                    assert(contents->Array_0[n] == value_contents(item));
                    assert(decreases_to!(contents->Array_0 => contents->Array_0[n]));
                }
                list.push(from_value(item));
            }
            proof {
                lemma_array_view(list);
                assert(json_views(list@) =~= contents_of(all));
            }
            Json::Array(list)
        },
        ValueNode::Object(members) => {
            let ghost all = members@;
            let mut fields: Vec<(String, Json)> = Vec::new();
            for member in it: members
                invariant
                    it.seq() == all,
                    keys_of(all).no_duplicates(),
                    contents == JsonView::Object(members_of(all)),
                    contents == value_contents(value),
                    fields@.len() == it.index(),
                    forall|j: int|
                        0 <= j < fields@.len() ==> (#[trigger] fields@[j]).0@ == all[j].0@
                            && fields@[j].1@ == value_contents(all[j].1),
            {
                proof {
                    let n = it.index();
                    lemma_member(all, n);
                    let key = all[n].0@;
                    assert(decreases_to!(contents => contents->Object_0));
                    assert(decreases_to!(contents->Object_0 => contents->Object_0[key]));
                }
                let (key, value) = member;
                fields.push((key, from_value(value)));
            }
            proof {
                lemma_members(all, fields);
            }
            Json::Object(fields)
        },
    }
}

/// The JSON value that `text` spells.
pub fn parse_json(text: &str) -> (r: Result<Json, LighterError>)
    ensures
        match r {
            Ok(json) => parsed_json(text@) == Some(json@),
            Err(e) => {
                &&& parsed_json(text@) is None
                &&& e@ == ErrorView::Generic("Unable to deserialize json message"@)
            },
        },
{
    match parse_value(text) {
        Ok(value) => Ok(from_value(value)),
        Err(_) => Err(LighterError::generic("Unable to deserialize json message")),
    }
}

/// Keys and the texts under them.
pub open spec fn pair_views(members: Seq<(String, String)>) -> Seq<(Seq<char>, Seq<char>)> {
    members.map_values(|m: (String, String)| (m.0@, m.1@))
}

/// An object with a string under each of several keys.
pub open spec fn text_object(members: Seq<(Seq<char>, Seq<char>)>) -> Map<Seq<char>, JsonView>
    decreases members.len(),
{
    if members.len() == 0 {
        Map::empty()
    } else {
        text_object(members.drop_last()).insert(members.last().0, JsonView::Text(members.last().1))
    }
}

/// The text that `serde_json` writes for an object of these keys and strings.
pub uninterp spec fn object_text(members: Seq<(Seq<char>, Seq<char>)>) -> Seq<char>;

/// `serde_json::Value`'s `FromIterator`, which makes an object of keys and strings, followed by
/// its `Display`: the text depends on the members alone, and `serde_json::from_str` reads the same
/// members back from it.
#[verifier::external_body]
fn write_object(members: Vec<(String, String)>) -> (r: String)
    requires
        keys_of(members@).no_duplicates(),
    ensures
        r@ == object_text(pair_views(members@)),
        parsed_json(r@) == Some(JsonView::Object(text_object(pair_views(members@)))),
{
    serde_json::Value::from_iter(members).to_string()
}

/// The members of a request to subscribe to `channel`, with a token where one is needed.
pub open spec fn subscribe_members(channel: Seq<char>, auth: Option<Seq<char>>) -> Seq<
    (Seq<char>, Seq<char>),
> {
    let members = seq![("type"@, "subscribe"@), ("channel"@, channel)];
    match auth {
        Some(token) => members.push(("auth"@, token)),
        None => members,
    }
}

/// The text of a request to subscribe to `channel`.
pub fn subscribe_request(channel: &str, auth: Option<&str>) -> (r: String)
    ensures
        r@ == object_text(
            subscribe_members(
                channel@,
                match auth {
                    Some(token) => Some(token@),
                    None => None,
                },
            ),
        ),
        parsed_json(r@) == Some(
            JsonView::Object(
                text_object(
                    subscribe_members(
                        channel@,
                        match auth {
                            Some(token) => Some(token@),
                            None => None,
                        },
                    ),
                ),
            ),
        ),
{
    proof {
        reveal_strlit("type");
        reveal_strlit("channel");
        reveal_strlit("auth");
        assert("type"@.len() != "channel"@.len());
        assert("type"@[0] != "auth"@[0]);
    }
    let mut members: Vec<(String, String)> = Vec::new();
    members.push(("type".to_owned(), "subscribe".to_owned()));
    members.push(("channel".to_owned(), channel.to_owned()));
    if let Some(token) = auth {
        members.push(("auth".to_owned(), token.to_owned()));
    }
    assert(pair_views(members@) =~= subscribe_members(
        channel@,
        match auth {
            Some(token) => Some(token@),
            None => None,
        },
    ));
    write_object(members)
}

/// The members of the answer to a ping.
pub open spec fn pong_members() -> Seq<(Seq<char>, Seq<char>)> {
    seq![("type"@, "pong"@)]
}

/// The text of the answer to a ping.
pub fn pong_request() -> (r: String)
    ensures
        r@ == object_text(pong_members()),
        parsed_json(r@) == Some(JsonView::Object(text_object(pong_members()))),
{
    let mut members: Vec<(String, String)> = Vec::new();
    members.push(("type".to_owned(), "pong".to_owned()));
    assert(pair_views(members@) =~= pong_members());
    write_object(members)
}

/// A request to subscribe reads back as an object that says so, names the channel, and carries
/// the token exactly where there is one.
pub proof fn subscribe_request_reads_back(channel: Seq<char>, auth: Option<Seq<char>>)
    ensures
        ({
            let request = JsonView::Object(text_object(subscribe_members(channel, auth)));
            &&& request.text_field("type"@) == Some("subscribe"@)
            &&& request.text_field("channel"@) == Some(channel)
            &&& request.text_field("auth"@) == auth
            &&& request.field("auth"@) is Some <==> auth is Some
        }),
{
    reveal_strlit("type");
    reveal_strlit("channel");
    reveal_strlit("auth");
    assert("type"@.len() == 4 && "channel"@.len() == 7 && "auth"@.len() == 4);
    assert("type"@[0] == 't');
    assert("auth"@[0] == 'a');
    reveal_with_fuel(text_object, 4);
    let base = seq![("type"@, "subscribe"@), ("channel"@, channel)];
    assert(base.drop_last() =~= seq![("type"@, "subscribe"@)]);
    assert(base.drop_last().drop_last() =~= Seq::<(Seq<char>, Seq<char>)>::empty());
    if let Some(token) = auth {
        assert(base.push(("auth"@, token)).drop_last() =~= base);
    }
}

/// The answer to a ping reads back as an object that says so.
pub proof fn pong_reads_back()
    ensures
        JsonView::Object(text_object(pong_members())).text_field("type"@) == Some("pong"@),
{
    reveal_with_fuel(text_object, 2);
}

/// A request to subscribe has a type, the channel, and the token where there is one, in this order
/// and nothing else; the answer to a ping has only its type.
pub proof fn requests_hold_nothing_else(channel: Seq<char>, token: Seq<char>, key: Seq<char>)
    ensures
        subscribe_members(channel, None) == seq![("type"@, "subscribe"@), ("channel"@, channel)],
        subscribe_members(channel, Some(token)) == seq![
            ("type"@, "subscribe"@),
            ("channel"@, channel),
            ("auth"@, token),
        ],
        pong_members() == seq![("type"@, "pong"@)],
        key != "type"@ && key != "channel"@ ==> JsonView::Object(
            text_object(subscribe_members(channel, None)),
        ).field(key) is None,
        key != "type"@ && key != "channel"@ && key != "auth"@ ==> JsonView::Object(
            text_object(subscribe_members(channel, Some(token))),
        ).field(key) is None,
        key != "type"@ ==> JsonView::Object(text_object(pong_members())).field(key) is None,
{
    reveal_with_fuel(text_object, 4);
    let base = seq![("type"@, "subscribe"@), ("channel"@, channel)];
    let full = base.push(("auth"@, token));
    assert(base.drop_last() =~= seq![("type"@, "subscribe"@)]);
    assert(base.drop_last().drop_last() =~= Seq::<(Seq<char>, Seq<char>)>::empty());
    assert(full.drop_last() =~= base);
    assert(full =~= seq![("type"@, "subscribe"@), ("channel"@, channel), ("auth"@, token)]);
    assert(pong_members().drop_last() =~= Seq::<(Seq<char>, Seq<char>)>::empty());
}

/// Keys and texts are taken as they are and in their order.
pub proof fn pairs_are_taken_as_they_are(members: Seq<(String, String)>, i: int)
    ensures
        pair_views(members).len() == members.len(),
        0 <= i < members.len() ==> pair_views(members)[i] == (members[i].0@, members[i].1@),
{
}

} // verus!
