//! The messages that go over the connection.

use crate::error::{ErrorView, LighterError};
use crate::json::{Json, JsonView};
use crate::text::{
    is_free_of, lemma_last_segment, lemma_one_segment, lemma_segments, same_text, segments, split,
    text_views, CharClass,
};
use crate::text_map::{lemma_position, lemma_position_is, position};
use vstd::prelude::*;

verus! {

/// A request to the exchange.
#[derive(Debug, Clone, PartialEq, Eq)]
pub struct WsRequest {
    pub method: String,
    pub params: Option<Json>,
}

/// An answer of the exchange.
#[derive(Debug, Clone, PartialEq, Eq)]
pub struct WsResponse {
    pub id: Option<String>,
    pub result: Option<Json>,
    pub error: Option<WsError>,
}

/// An error that the exchange reports.
#[derive(Debug, Clone, PartialEq, Eq)]
pub struct WsError {
    pub code: i32,
    pub message: String,
    pub data: Option<Json>,
}

/// What a message of the exchange is about, from its `type`.
#[derive(Debug, Clone, Copy, PartialEq, Eq)]
pub enum WsMessage {
    Connected,
    SubscribedOrderBook,
    UpdateOrderBook,
    SubscribedAccountAll,
    UpdateAccountAll,
    SubscribedAccountMarket,
    UpdateAccountMarket,
    SubscribedTrade,
    UpdateTrade,
    Ping,
}

impl WsMessage {
    /// The name of the message type.
    pub open spec fn name(self) -> Seq<char> {
        match self {
            WsMessage::Connected => "connected"@,
            WsMessage::SubscribedOrderBook => "subscribed/order_book"@,
            WsMessage::UpdateOrderBook => "update/order_book"@,
            WsMessage::SubscribedAccountAll => "subscribed/account_all"@,
            WsMessage::UpdateAccountAll => "update/account_all"@,
            WsMessage::SubscribedAccountMarket => "subscribed/account_market"@,
            WsMessage::UpdateAccountMarket => "update/account_market"@,
            WsMessage::SubscribedTrade => "subscribed/trade"@,
            WsMessage::UpdateTrade => "update/trade"@,
            WsMessage::Ping => "ping"@,
        }
    }
}

/// The message type of a name.
pub open spec fn message_named(name: Seq<char>) -> Option<WsMessage> {
    if name == WsMessage::Connected.name() {
        Some(WsMessage::Connected)
    } else if name == WsMessage::SubscribedOrderBook.name() {
        Some(WsMessage::SubscribedOrderBook)
    } else if name == WsMessage::UpdateOrderBook.name() {
        Some(WsMessage::UpdateOrderBook)
    } else if name == WsMessage::SubscribedAccountAll.name() {
        Some(WsMessage::SubscribedAccountAll)
    } else if name == WsMessage::UpdateAccountAll.name() {
        Some(WsMessage::UpdateAccountAll)
    } else if name == WsMessage::SubscribedAccountMarket.name() {
        Some(WsMessage::SubscribedAccountMarket)
    } else if name == WsMessage::UpdateAccountMarket.name() {
        Some(WsMessage::UpdateAccountMarket)
    } else if name == WsMessage::SubscribedTrade.name() {
        Some(WsMessage::SubscribedTrade)
    } else if name == WsMessage::UpdateTrade.name() {
        Some(WsMessage::UpdateTrade)
    } else if name == WsMessage::Ping.name() {
        Some(WsMessage::Ping)
    } else {
        None
    }
}

/// Whether `key` is the one key of an object.
pub open spec fn is_sole_key(members: Map<Seq<char>, JsonView>, key: Seq<char>) -> bool {
    &&& members.contains_key(key)
    &&& forall|k: Seq<char>| #[trigger] members.contains_key(k) ==> k == key
}

/// The message type that a value stands for: its name, or an object with the name for its one key
/// and null under it.
pub open spec fn message_of(value: JsonView) -> Option<WsMessage> {
    match value {
        JsonView::Text(name) => message_named(name),
        JsonView::Object(members) => {
            let key = choose|key: Seq<char>| is_sole_key(members, key);
            if is_sole_key(members, key) && members[key] == JsonView::Null {
                message_named(key)
            } else {
                None
            }
        },
        _ => None,
    }
}

impl WsMessage {
    /// The message type that `name` names.
    pub fn from_name(name: &str) -> (r: Option<WsMessage>)
        ensures
            r == message_named(name@),
    {
        if same_text(name, "connected") {
            Some(WsMessage::Connected)
        } else if same_text(name, "subscribed/order_book") {
            Some(WsMessage::SubscribedOrderBook)
        } else if same_text(name, "update/order_book") {
            Some(WsMessage::UpdateOrderBook)
        } else if same_text(name, "subscribed/account_all") {
            Some(WsMessage::SubscribedAccountAll)
        } else if same_text(name, "update/account_all") {
            Some(WsMessage::UpdateAccountAll)
        } else if same_text(name, "subscribed/account_market") {
            Some(WsMessage::SubscribedAccountMarket)
        } else if same_text(name, "update/account_market") {
            Some(WsMessage::UpdateAccountMarket)
        } else if same_text(name, "subscribed/trade") {
            Some(WsMessage::SubscribedTrade)
        } else if same_text(name, "update/trade") {
            Some(WsMessage::UpdateTrade)
        } else if same_text(name, "ping") {
            Some(WsMessage::Ping)
        } else {
            None
        }
    }

    /// The message type that `value` stands for.
    pub fn from_json(value: &Json) -> (r: Option<WsMessage>)
        ensures
            r == message_of(value@),
    {
        match value {
            Json::Text(name) => Self::from_name(name.as_str()),
            Json::Object(fields) => {
                let ghost members = value@->Object_0;
                if fields.len() == 0 {
                    assert forall|k: Seq<char>| !(#[trigger] members.contains_key(k)) by {}
                    return None;
                }
                let ghost key = fields@[0].0@;
                assert(position(fields@, key) == 0);
                assert(members.contains_key(key));
                for i in 1..fields.len()
                    invariant
                        *value == Json::Object(*fields),
                        members == value@->Object_0,
                        key == fields@[0].0@,
                        members.contains_key(key),
                        forall|j: int| 0 <= j < i ==> (#[trigger] fields@[j]).0@ == key,
                {
                    if !same_text(fields[i].0.as_str(), fields[0].0.as_str()) {
                        proof {
                            let other = fields@[i as int].0@;
                            lemma_position_is(fields@, other, i as int);
                            assert(members.contains_key(other));
                            assert forall|k: Seq<char>| !is_sole_key(members, k) by {}
                        }
                        return None;
                    }
                }
                proof {
                    assert forall|k: Seq<char>| #[trigger] members.contains_key(k) implies k
                        == key by {
                        lemma_position(fields@, k);
                    }
                    assert(is_sole_key(members, key));
                    assert(members[key] == fields@[0].1@);
                }
                match &fields[0].1 {
                    Json::Null => Self::from_name(fields[0].0.as_str()),
                    _ => None,
                }
            },
            _ => None,
        }
    }
}

/// Two message types never have the same name.
pub proof fn message_names_are_distinct(a: WsMessage, b: WsMessage)
    requires
        a.name() == b.name(),
    ensures
        a == b,
{
    reveal_strlit("connected");
    reveal_strlit("subscribed/order_book");
    reveal_strlit("update/order_book");
    reveal_strlit("subscribed/account_all");
    reveal_strlit("update/account_all");
    reveal_strlit("subscribed/account_market");
    reveal_strlit("update/account_market");
    reveal_strlit("subscribed/trade");
    reveal_strlit("update/trade");
    reveal_strlit("ping");
    assert("connected"@.len() == 9);
    assert("subscribed/order_book"@.len() == 21);
    assert("update/order_book"@.len() == 17);
    assert("subscribed/account_all"@.len() == 22);
    assert("update/account_all"@.len() == 18);
    assert("subscribed/account_market"@.len() == 25);
    assert("update/account_market"@.len() == 21);
    assert("subscribed/trade"@.len() == 16);
    assert("update/trade"@.len() == 12);
    assert("ping"@.len() == 4);
    assert("subscribed/order_book"@[0] == 's');
    assert("update/account_market"@[0] == 'u');
}

/// The name of a message type stands for that message type.
pub proof fn message_name_reads_back(m: WsMessage)
    ensures
        message_named(m.name()) == Some(m),
        message_of(JsonView::Text(m.name())) == Some(m),
{
    let found = message_named(m.name());
    assert(found is Some);
    message_names_are_distinct(found->0, m);
}

/// The market that a message is about: what follows the last `:` or `/` of its channel.
pub open spec fn market_id_of(msg: JsonView) -> Result<Seq<char>, ErrorView> {
    match msg.text_field("channel"@) {
        None => Err(ErrorView::Generic("Unable to get channel from message"@)),
        Some(channel) => {
            let id = segments(channel, CharClass::ColonOrSlash).last();
            if id.len() == 0 {
                Err(ErrorView::Generic("Unable to get market_id"@))
            } else {
                Ok(id)
            }
        },
    }
}

/// The market that a message is about.
pub fn extract_market_id(msg: &Json) -> (r: Result<String, LighterError>)
    ensures
        match r {
            Ok(id) => market_id_of(msg@) == Ok::<Seq<char>, ErrorView>(id@),
            Err(e) => market_id_of(msg@) == Err::<Seq<char>, ErrorView>(e@),
        },
{
    let channel = match msg.get_str("channel") {
        Some(channel) => channel,
        None => {
            return Err(LighterError::generic("Unable to get channel from message"));
        },
    };
    let parts = split(channel, CharClass::ColonOrSlash);
    proof {
        lemma_segments(channel@, CharClass::ColonOrSlash);
        assert(text_views(parts@).len() == parts@.len());
        assert(text_views(parts@).last() == parts@.last()@);
    }
    let id = parts[parts.len() - 1];
    if id.is_empty() {
        return Err(LighterError::generic("Unable to get market_id"));
    }
    Ok(id.to_owned())
}

/// The market of a message is what stands last in its channel, whether a colon or a slash comes
/// before it.
pub proof fn market_id_stands_last(msg: JsonView, head: Seq<char>, separator: char, id: Seq<char>)
    requires
        separator == ':' || separator == '/',
        is_free_of(id, CharClass::ColonOrSlash),
        id.len() > 0,
        msg.text_field("channel"@) == Some(head.push(separator) + id),
    ensures
        market_id_of(msg) == Ok::<Seq<char>, ErrorView>(id),
{
    lemma_last_segment(head, separator, id, CharClass::ColonOrSlash);
}

/// A channel without colon or slash is itself the market.
pub proof fn plain_channel_is_the_market(msg: JsonView, channel: Seq<char>)
    requires
        msg.text_field("channel"@) == Some(channel),
        channel.len() > 0,
        forall|i: int| 0 <= i < channel.len() ==> #[trigger] channel[i] != ':' && channel[i] != '/',
    ensures
        market_id_of(msg) == Ok::<Seq<char>, ErrorView>(channel),
{
    assert(is_free_of(channel, CharClass::ColonOrSlash));
    lemma_one_segment(channel, CharClass::ColonOrSlash);
}

/// A channel that is empty or ends with a colon or a slash names no market, and a message without
/// the text of a channel has none.
pub proof fn market_ids_that_are_missing(msg: JsonView, channel: Seq<char>)
    ensures
        msg.text_field("channel"@) == Some(channel) && (channel.len() == 0 || channel[channel.len()
            - 1] == ':' || channel[channel.len() - 1] == '/') ==> market_id_of(msg) == Err::<
            Seq<char>,
            ErrorView,
        >(ErrorView::Generic("Unable to get market_id"@)),
        msg.text_field("channel"@) is None ==> market_id_of(msg) == Err::<Seq<char>, ErrorView>(
            ErrorView::Generic("Unable to get channel from message"@),
        ),
{
    let none = Seq::<char>::empty();
    if channel.len() == 0 {
        assert(channel =~= none);
        lemma_one_segment(none, CharClass::ColonOrSlash);
    } else if channel[channel.len() - 1] == ':' || channel[channel.len() - 1] == '/' {
        let head = channel.drop_last();
        lemma_last_segment(head, channel.last(), none, CharClass::ColonOrSlash);
        assert(head.push(channel.last()) + none =~= channel);
    }
}

/// The names of the message types, and that no other text names one.
pub proof fn message_types_by_name(name: Seq<char>)
    ensures
        ({
            let kind = message_of(JsonView::Text(name));
            &&& name == "connected"@ <==> kind == Some(WsMessage::Connected)
            &&& name == "subscribed/order_book"@ <==> kind == Some(WsMessage::SubscribedOrderBook)
            &&& name == "update/order_book"@ <==> kind == Some(WsMessage::UpdateOrderBook)
            &&& name == "subscribed/account_all"@ <==> kind == Some(
                WsMessage::SubscribedAccountAll,
            )
            &&& name == "update/account_all"@ <==> kind == Some(WsMessage::UpdateAccountAll)
            &&& name == "subscribed/account_market"@ <==> kind == Some(
                WsMessage::SubscribedAccountMarket,
            )
            &&& name == "update/account_market"@ <==> kind == Some(WsMessage::UpdateAccountMarket)
            &&& name == "subscribed/trade"@ <==> kind == Some(WsMessage::SubscribedTrade)
            &&& name == "update/trade"@ <==> kind == Some(WsMessage::UpdateTrade)
            &&& name == "ping"@ <==> kind == Some(WsMessage::Ping)
        }),
{
    message_name_reads_back(WsMessage::Connected);
    message_name_reads_back(WsMessage::SubscribedOrderBook);
    message_name_reads_back(WsMessage::UpdateOrderBook);
    message_name_reads_back(WsMessage::SubscribedAccountAll);
    message_name_reads_back(WsMessage::UpdateAccountAll);
    message_name_reads_back(WsMessage::SubscribedAccountMarket);
    message_name_reads_back(WsMessage::UpdateAccountMarket);
    message_name_reads_back(WsMessage::SubscribedTrade);
    message_name_reads_back(WsMessage::UpdateTrade);
    message_name_reads_back(WsMessage::Ping);
}

/// A message type is its name, or an object whose one member has that name and is null; no other
/// value is one.
pub proof fn message_types_in_objects(
    members: Map<Seq<char>, JsonView>,
    name: Seq<char>,
    value: JsonView,
)
    ensures
        message_of(JsonView::Object(Map::empty().insert(name, JsonView::Null))) == message_of(
            JsonView::Text(name),
        ),
        members.contains_key(name) && members[name] != JsonView::Null ==> message_of(
            JsonView::Object(members),
        ) is None,
        members.contains_key(name) && (exists|k: Seq<char>| #[trigger]
            members.contains_key(k) && k != name) ==> message_of(JsonView::Object(members)) is None,
        (forall|k: Seq<char>| !#[trigger] members.contains_key(k)) ==> message_of(
            JsonView::Object(members),
        ) is None,
        !(value is Text) && !(value is Object) ==> message_of(value) is None,
{
    let one = Map::empty().insert(name, JsonView::Null);
    assert(is_sole_key(one, name));
    let key = choose|key: Seq<char>| is_sole_key(one, key);
    assert(is_sole_key(one, key));
    assert(key == name);
}

} // verus!
