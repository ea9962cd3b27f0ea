use lighter_ws::message::{extract_market_id, WsMessage};
use lighter_ws::wire::{parse_json, pong_request, subscribe_request};
use lighter_ws::{Action, Frame, HandshakeStep, Json, LighterConfig, LighterError, WsClient};
use lighter_ws::{WsError, WsRequest, WsResponse};

type Client = WsClient<u8, u8, u8>;

fn texts(list: &[&str]) -> Vec<String> {
    list.iter().map(|t| t.to_string()).collect()
}

fn json(text: &str) -> Json {
    parse_json(text).unwrap()
}

fn generic(message: &str) -> LighterError {
    LighterError::Generic(message.to_string())
}

fn client() -> Client {
    Client::builder()
        .with_order_books_subs(texts(&["1", "2"]), 1)
        .with_accounts_subs(texts(&["40", "0/40"]), 2)
        .with_trade_subs(texts(&["7"]), 3)
        .build()
        .unwrap()
}

fn send(client: &mut Client, text: &str) -> Result<Action, LighterError> {
    client.handle_message(Frame::Text(text.to_string()))
}

#[test]
fn building_needs_subscriptions() {
    assert_eq!(
        Client::builder().check_subs(),
        Err(generic("No subscriptions provided"))
    );
    assert_eq!(
        Client::builder().build().unwrap_err(),
        generic("No subscriptions provided")
    );
    assert_eq!(
        Client::builder().with_accounts_subs(Vec::new(), 0).build().unwrap_err(),
        LighterError::Config("Expected at least one account subscription".to_string())
    );
    assert_eq!(
        Client::builder()
            .with_accounts_subs(texts(&["1", "a/b/c", ""]), 0)
            .build()
            .unwrap_err(),
        LighterError::Config("Invalid account subscription `a/b/c`".to_string())
    );
    assert!(Client::builder().with_order_books_subs(Vec::new(), 0).build().is_ok());
}

#[test]
fn building_keeps_what_is_asked_for() {
    let client = client();
    assert_eq!(client.on_order_book_update, Some(1));
    assert_eq!(client.on_account_update, Some(2));
    assert_eq!(client.on_trade_update, Some(3));
    let books = client.order_books.as_ref().unwrap();
    assert_eq!(books.get("1"), Some(&None));
    assert_eq!(books.get("3"), None);
    let accounts = client.accounts.as_ref().unwrap();
    assert!(accounts.contains_key("40") && accounts.contains_key("0/40"));
    assert_eq!(client.account_channels.get("account_all/40").unwrap().key, "40");
    assert_eq!(client.account_channels.get("account_market/0/40").unwrap().key, "0/40");
    assert!(client.needs_auth_token());
    let config = LighterConfig { ws_url: "wss://example".to_string() };
    let builder = Client::builder().with_config(config).with_trade_subs(texts(&["7", "7"]), 3);
    assert_eq!(builder.config.as_ref().unwrap().ws_url, "wss://example");
    let other = builder.build().unwrap();
    assert!(!other.needs_auth_token());
    assert_eq!(other.trades.unwrap().entries.len(), 1);
    assert!(other.order_books.is_none() && other.accounts.is_none());
}

#[test]
fn accounts_that_share_a_key_share_a_state() {
    let client = Client::builder()
        .with_accounts_subs(texts(&["account_all/0/40", "0/40", " 0/40 "]), 2)
        .build()
        .unwrap();
    assert_eq!(client.accounts.as_ref().unwrap().entries.len(), 1);
    assert_eq!(client.account_channels.entries.len(), 2);
}

#[test]
fn frames_that_are_not_messages() {
    let mut client = client();
    assert_eq!(client.handle_message(Frame::Other), Ok(Action::Ignore));
    assert_eq!(send(&mut client, "{"), Err(generic("Unable to deserialize json message")));
    assert_eq!(send(&mut client, "{}"), Ok(Action::Ignore));
    assert_eq!(send(&mut client, r#"["type"]"#), Ok(Action::Ignore));
    for text in [r#"{"type":"unknown"}"#, r#"{"type":1}"#, r#"{"type":null}"#, r#"{"type":{}}"#] {
        assert_eq!(send(&mut client, text), Err(generic("Unable to deserialize api message")));
    }
}

#[test]
fn message_types() {
    for (name, kind) in [
        ("connected", WsMessage::Connected),
        ("subscribed/order_book", WsMessage::SubscribedOrderBook),
        ("update/order_book", WsMessage::UpdateOrderBook),
        ("subscribed/account_all", WsMessage::SubscribedAccountAll),
        ("update/account_all", WsMessage::UpdateAccountAll),
        ("subscribed/account_market", WsMessage::SubscribedAccountMarket),
        ("update/account_market", WsMessage::UpdateAccountMarket),
        ("subscribed/trade", WsMessage::SubscribedTrade),
        ("update/trade", WsMessage::UpdateTrade),
        ("ping", WsMessage::Ping),
    ] {
        assert_eq!(WsMessage::from_json(&Json::Text(name.to_string())), Some(kind));
        let object = Json::Object(vec![(name.to_string(), Json::Null)]);
        assert_eq!(WsMessage::from_json(&object), Some(kind));
    }
    assert_eq!(WsMessage::from_name("Connected"), None);
    assert_eq!(WsMessage::from_json(&json(r#"{"ping":1}"#)), None);
    assert_eq!(WsMessage::from_json(&json(r#"{"ping":null,"connected":null}"#)), None);
}

#[test]
fn a_ping_is_answered() {
    let mut client = client();
    assert_eq!(pong_request(), r#"{"type":"pong"}"#);
    assert_eq!(
        send(&mut client, r#"{"type":"ping"}"#),
        Ok(Action::Pong(r#"{"type":"pong"}"#.to_string()))
    );
    assert_eq!(send(&mut client, r#"{"type":"connected"}"#), Ok(Action::Subscribe));
}

#[test]
fn order_books_are_kept_merged_and_handed_out() {
    let mut client = client();
    let first = r#"{"type":"subscribed/order_book","channel":"order_book:1","order_book":{"asks":[{"price":"2","size":"1"}],"bids":[]}}"#;
    assert_eq!(
        send(&mut client, first),
        Ok(Action::OrderBook {
            market_id: "1".to_string(),
            order_book: json(r#"{"asks":[{"price":"2","size":"1"}],"bids":[]}"#),
        })
    );
    let second = r#"{"type":"update/order_book","channel":"order_book/1","order_book":{"asks":[{"price":"1.5","size":"4"}]}}"#;
    let merged = json(
        r#"{"asks":[{"price":"1.5","size":"4"},{"price":"2","size":"1"}],"bids":[]}"#,
    );
    assert_eq!(
        send(&mut client, second),
        Ok(Action::OrderBook { market_id: "1".to_string(), order_book: merged.clone() })
    );
    assert_eq!(client.order_books.as_ref().unwrap().get("1"), Some(&Some(merged)));
    assert_eq!(client.order_books.as_ref().unwrap().get("2"), Some(&None));
}

#[test]
fn order_book_errors_change_nothing() {
    let mut client = client();
    for (text, message) in [
        (r#"{"type":"update/order_book"}"#, "Unable to get channel from message"),
        (r#"{"type":"update/order_book","channel":5}"#, "Unable to get channel from message"),
        (r#"{"type":"update/order_book","channel":"order_book/"}"#, "Unable to get market_id"),
        (
            r#"{"type":"update/order_book","channel":"order_book:1"}"#,
            "Unable to get `order_book` update from message",
        ),
        (
            r#"{"type":"subscribed/order_book","channel":"order_book:1"}"#,
            "Unable to get `order_book` from message",
        ),
    ] {
        assert_eq!(send(&mut client, text), Err(generic(message)));
        assert_eq!(client.order_books.as_ref().unwrap().get("1"), Some(&None));
    }
}

#[test]
fn order_books_are_ignored_without_a_subscription() {
    let mut client = Client::builder().with_trade_subs(texts(&["7"]), 3).build().unwrap();
    let text = r#"{"type":"update/order_book","channel":"order_book:1","order_book":{}}"#;
    assert_eq!(send(&mut client, text), Ok(Action::Ignore));
}

#[test]
fn account_messages_are_kept_under_their_key() {
    let mut client = client();
    let text = r#"{"type":"update/account_market","channel":"account_market/0/40","x":1}"#;
    assert_eq!(
        send(&mut client, text),
        Ok(Action::Account { key: "0/40".to_string(), payload: json(text) })
    );
    assert_eq!(client.accounts.as_ref().unwrap().get("0/40"), Some(&Some(json(text))));
    assert_eq!(client.accounts.as_ref().unwrap().get("40"), Some(&None));
    let other = r#"{"type":"subscribed/account_all","channel":"account_all:40"}"#;
    assert_eq!(
        send(&mut client, other),
        Ok(Action::Account { key: "account_all:40".to_string(), payload: json(other) })
    );
    assert_eq!(client.accounts.as_ref().unwrap().get("40"), Some(&None));
    assert_eq!(client.accounts.as_ref().unwrap().entries.len(), 2);
    assert_eq!(
        send(&mut client, r#"{"type":"update/account_all"}"#),
        Err(generic("Account message missing `channel`"))
    );
    let mut none = Client::builder().with_trade_subs(texts(&["7"]), 3).build().unwrap();
    assert_eq!(send(&mut none, other), Ok(Action::Ignore));
}

#[test]
fn trades_are_handed_out_where_subscribed_to() {
    let mut client = client();
    let text = r#"{"type":"update/trade","channel":"trade:7","trades":[]}"#;
    assert_eq!(
        send(&mut client, text),
        Ok(Action::Trade { market_id: "7".to_string(), payload: json(text) })
    );
    assert_eq!(
        send(&mut client, r#"{"type":"subscribed/trade","channel":"trade:8"}"#),
        Ok(Action::Ignore)
    );
    assert_eq!(
        send(&mut client, r#"{"type":"subscribed/trade","channel":"trade:"}"#),
        Err(generic("Unable to get market_id"))
    );
}

#[test]
fn market_ids_stand_last() {
    for (channel, id) in [("order_book:1", "1"), ("order_book/1", "1"), ("a:b/c", "c"), ("9", "9")] {
        let msg = Json::Object(vec![("channel".to_string(), Json::Text(channel.to_string()))]);
        assert_eq!(extract_market_id(&msg), Ok(id.to_string()));
    }
}

#[test]
fn requests_to_subscribe() {
    assert_eq!(
        subscribe_request("trade/7", None),
        r#"{"channel":"trade/7","type":"subscribe"}"#
    );
    assert_eq!(
        subscribe_request("a\"b\\\n", Some("t")),
        r#"{"auth":"t","channel":"a\"b\\\n","type":"subscribe"}"#
    );
    let back = json(&subscribe_request("\u{1f600}/\u{0}", Some("t")));
    assert_eq!(back.get_str("type"), Some("subscribe"));
    assert_eq!(back.get_str("channel"), Some("\u{1f600}/\u{0}"));
    assert_eq!(back.get_str("auth"), Some("t"));
}

#[test]
fn subscribing_sends_each_channel_once() {
    let client = client();
    let mut handshake = client.handle_connected(true);
    let mut sent: Vec<String> = Vec::new();
    let mut fetched = 0;
    loop {
        match handshake.next_step().unwrap() {
            HandshakeStep::Send(text) => sent.push(text),
            HandshakeStep::FetchToken => {
                fetched += 1;
                handshake.supply_token("secret".to_string());
            }
            HandshakeStep::Done => break,
        }
    }
    assert_eq!(fetched, 1);
    assert_eq!(
        sent,
        [
            subscribe_request("order_book/1", None),
            subscribe_request("order_book/2", None),
            subscribe_request("account_all/40", Some("secret")),
            subscribe_request("account_market/0/40", Some("secret")),
            subscribe_request("trade/7", None),
        ]
    );
    assert_eq!(handshake.next_step(), Ok(HandshakeStep::Done));
}

#[test]
fn subscribing_without_a_signer_stops_at_the_accounts() {
    let mut handshake = client().handle_connected(false);
    assert!(matches!(handshake.next_step(), Ok(HandshakeStep::Send(_))));
    assert!(matches!(handshake.next_step(), Ok(HandshakeStep::Send(_))));
    for _ in 0..2 {
        assert_eq!(
            handshake.next_step(),
            Err(LighterError::Auth(
                "Account market subscriptions require authenticated config".to_string()
            ))
        );
    }
}

#[test]
fn failures_of_the_connection() {
    assert_eq!(Client::receive_failure(), generic("Unable to handle message"));
    assert_eq!(Client::pong_failure(), generic("Unable to send `pong`"));
    assert_eq!(
        lighter_ws::Handshake::send_failure("closed"),
        generic("Unable to send `connected` response: closed")
    );
}

#[test]
fn json_is_read_as_it_stands() {
    assert_eq!(
        json(r#" {"b":[1,-2,1.50,1e3,null,true],"a":{"é":"x"},"b2":18446744073709551615} "#),
        Json::Object(vec![
            (
                "a".to_string(),
                Json::Object(vec![("\u{e9}".to_string(), Json::Text("x".to_string()))])
            ),
            (
                "b".to_string(),
                Json::Array(vec![
                    Json::Number("1".to_string()),
                    Json::Number("-2".to_string()),
                    Json::Number("1.5".to_string()),
                    Json::Number("1000.0".to_string()),
                    Json::Null,
                    Json::Bool(true),
                ])
            ),
            ("b2".to_string(), Json::Number("18446744073709551615".to_string())),
        ])
    );
    assert_eq!(json(r#"{"a":1,"a":2}"#).get("a"), Some(&Json::Number("2".to_string())));
    assert_eq!(
        parse_json("[1,]"),
        Err(generic("Unable to deserialize json message"))
    );
}

#[test]
fn plain_messages_can_be_copied() {
    let request = WsRequest { method: "m".to_string(), params: Some(json("[1]")) };
    assert_eq!(request.clone(), request);
    let error = WsError { code: -1, message: "e".to_string(), data: None };
    let response = WsResponse { id: None, result: None, error: Some(error) };
    assert_eq!(response.clone(), response);
}
