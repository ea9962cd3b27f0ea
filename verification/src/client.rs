//! The client: what it is subscribed to, and how each message of the exchange changes it.

use crate::error::{ErrorView, LighterError};
use crate::json::{Json, JsonView};
use crate::decimal::{number_le, number_of};
use crate::message::{
    extract_market_id, market_id_of, message_of, message_types_by_name, WsMessage,
};
use crate::order_book::{
    deleted_level_is_gone, held_level_stays, is_merged_book, is_no_zero, last_change_is_listed,
    levels_of, listed_levels_are_changes_or_held, merge_order_books, merging_is_by_side,
};
use crate::subscription::AccountChannelMeta;
use crate::text::is_in_any_case;
use crate::text_map::TextMap;
use crate::wire::{object_text, parse_json, parsed_json, pong_members, pong_request};
use vstd::prelude::*;

verus! {

/// The last state that was received for each of several identifiers, if any.
pub type States = TextMap<Option<Json>>;

/// What a state holds.
pub open spec fn state_view(state: Option<Json>) -> Option<JsonView> {
    match state {
        Some(json) => Some(json@),
        None => None,
    }
}

/// What each of several states holds.
pub open spec fn states_view(states: States) -> Map<Seq<char>, Option<JsonView>> {
    states@.map_values(|s: Option<Json>| state_view(s))
}

/// What the states of a subscription hold, where there is one.
pub open spec fn group_view(group: Option<States>) -> Option<Map<Seq<char>, Option<JsonView>>> {
    match group {
        Some(states) => Some(states_view(states)),
        None => None,
    }
}

/// What the client is subscribed to and what it received.
#[verifier::ext_equal]
pub struct ClientView {
    /// The order book of each market, where order books are subscribed to.
    pub order_books: Option<Map<Seq<char>, Option<JsonView>>>,
    /// The last message of each account, where accounts are subscribed to.
    pub accounts: Option<Map<Seq<char>, Option<JsonView>>>,
    /// The markets whose trades are subscribed to.
    pub trades: Option<Map<Seq<char>, Option<JsonView>>>,
    /// Each account channel: the key of its messages, and whether it needs a token.
    pub channels: Map<Seq<char>, (Seq<char>, bool)>,
}

/// A client. The three handlers are what its user hands in for the updates.
#[derive(Debug)]
pub struct WsClient<F1, F2, F3> {
    pub order_books: Option<States>,
    pub accounts: Option<States>,
    pub trades: Option<States>,
    pub account_channels: TextMap<AccountChannelMeta>,
    pub on_order_book_update: Option<F1>,
    pub on_account_update: Option<F2>,
    pub on_trade_update: Option<F3>,
}

/// What the client knows of each account channel.
pub open spec fn channels_view(channels: TextMap<AccountChannelMeta>) -> Map<
    Seq<char>,
    (Seq<char>, bool),
> {
    channels@.map_values(|m: AccountChannelMeta| (m.key@, m.requires_auth))
}

impl<F1, F2, F3> View for WsClient<F1, F2, F3> {
    type V = ClientView;

    open spec fn view(&self) -> ClientView {
        ClientView {
            order_books: group_view(self.order_books),
            accounts: group_view(self.accounts),
            trades: group_view(self.trades),
            channels: channels_view(self.account_channels),
        }
    }
}

impl ClientView {
    /// Account channels go with an account subscription, and the messages of each have a place
    /// among the states of the accounts.
    pub open spec fn wf(self) -> bool {
        forall|c: Seq<char>| #[trigger]
            self.channels.contains_key(c) ==> {
                &&& self.accounts is Some
                &&& self.accounts->0.contains_key(self.channels[c].0)
            }
    }
}

pub open spec fn group_wf(group: Option<States>) -> bool {
    group matches Some(states) ==> states.wf()
}

impl<F1, F2, F3> WsClient<F1, F2, F3> {
    /// Each handler goes with the subscription that it is for.
    pub open spec fn wf(self) -> bool {
        &&& group_wf(self.order_books)
        &&& group_wf(self.accounts)
        &&& group_wf(self.trades)
        &&& self.account_channels.wf()
        &&& self.on_order_book_update is Some <==> self.order_books is Some
        &&& self.on_account_update is Some <==> self.accounts is Some
        &&& self.on_trade_update is Some <==> self.trades is Some
        &&& self@.wf()
    }

    /// Whether two clients have the same handlers.
    pub open spec fn same_handlers(self, other: Self) -> bool {
        &&& self.on_order_book_update == other.on_order_book_update
        &&& self.on_account_update == other.on_account_update
        &&& self.on_trade_update == other.on_trade_update
    }
}

/// What is to be done after a message.
pub enum ActionView {
    Ignore,
    Subscribe,
    Pong(Seq<char>),
    OrderBook { market_id: Seq<char>, order_book: JsonView },
    Account { key: Seq<char>, payload: JsonView },
    Trade { market_id: Seq<char>, payload: JsonView },
}

/// What is to be done after a message.
#[derive(Debug, PartialEq, Eq)]
pub enum Action {
    /// Nothing.
    Ignore,
    /// Subscribe to the channels.
    Subscribe,
    /// Send this text, the answer to a ping.
    Pong(String),
    /// Hand the order book of a market to its handler.
    OrderBook { market_id: String, order_book: Json },
    /// Hand a message on an account to its handler.
    Account { key: String, payload: Json },
    /// Hand a message on the trades of a market to its handler.
    Trade { market_id: String, payload: Json },
}

impl View for Action {
    type V = ActionView;

    open spec fn view(&self) -> ActionView {
        match *self {
            Action::Ignore => ActionView::Ignore,
            Action::Subscribe => ActionView::Subscribe,
            Action::Pong(text) => ActionView::Pong(text@),
            Action::OrderBook { market_id, order_book } => ActionView::OrderBook {
                market_id: market_id@,
                order_book: order_book@,
            },
            Action::Account { key, payload } => ActionView::Account {
                key: key@,
                payload: payload@,
            },
            Action::Trade { market_id, payload } => ActionView::Trade {
                market_id: market_id@,
                payload: payload@,
            },
        }
    }
}

/// What comes of a message: something to be done, or an error.
pub type OutcomeView = Result<ActionView, ErrorView>;

/// What a result of handling a message says.
pub open spec fn outcome_view(r: Result<Action, LighterError>) -> OutcomeView {
    match r {
        Ok(a) => Ok(a@),
        Err(e) => Err(e@),
    }
}

/// Whether `book` is the order book of a market after an update: merged into the one that is
/// held, or the update itself where none is.
pub open spec fn is_next_book(
    states: Map<Seq<char>, Option<JsonView>>,
    market_id: Seq<char>,
    update: JsonView,
    book: JsonView,
) -> bool {
    if states.contains_key(market_id) && states[market_id] is Some {
        is_merged_book(states[market_id]->0, update, book)
    } else {
        book == update
    }
}

/// Whether an update of the order book of a market takes `before` to `after` with `outcome`: the
/// book is kept and handed out where order books are subscribed to.
pub open spec fn book_updated(
    before: ClientView,
    market_id: Seq<char>,
    update: JsonView,
    after: ClientView,
    outcome: OutcomeView,
) -> bool {
    match before.order_books {
        Some(states) => {
            &&& outcome matches Ok(ActionView::OrderBook { market_id: id, order_book: book })
            &&& id == market_id
            &&& is_next_book(states, market_id, update, book)
            &&& after == ClientView {
                order_books: Some(states.insert(market_id, Some(book))),
                ..before
            }
        },
        None => after == before && outcome == Ok::<ActionView, ErrorView>(ActionView::Ignore),
    }
}

/// Whether a message with an order book takes `before` to `after` with `outcome`; `missing` is
/// the error where it has none.
pub open spec fn order_book_handled(
    before: ClientView,
    msg: JsonView,
    missing: Seq<char>,
    after: ClientView,
    outcome: OutcomeView,
) -> bool {
    match (market_id_of(msg), msg.field("order_book"@)) {
        (Ok(id), Some(update)) => book_updated(before, id, update, after, outcome),
        (Ok(_), None) => after == before && outcome == Err::<ActionView, ErrorView>(
            ErrorView::Generic(missing),
        ),
        (Err(e), _) => after == before && outcome == Err::<ActionView, ErrorView>(e),
    }
}

/// What a message on an account leads to: it is kept under the key of its channel where the
/// channel is subscribed to, and handed out under that key, else under the name of the channel.
pub open spec fn account_handled(before: ClientView, msg: JsonView) -> (ClientView, OutcomeView) {
    match msg.text_field("channel"@) {
        None => (before, Err(ErrorView::Generic("Account message missing `channel`"@))),
        Some(channel) => {
            let known = before.channels.contains_key(channel);
            let key = if known {
                before.channels[channel].0
            } else {
                channel
            };
            match before.accounts {
                Some(states) => (
                    if known {
                        ClientView { accounts: Some(states.insert(key, Some(msg))), ..before }
                    } else {
                        before
                    },
                    Ok(ActionView::Account { key, payload: msg }),
                ),
                None => (before, Ok(ActionView::Ignore)),
            }
        },
    }
}

/// What a message on trades leads to: it is handed out where its market is subscribed to.
pub open spec fn trade_outcome(before: ClientView, msg: JsonView) -> OutcomeView {
    match market_id_of(msg) {
        Err(e) => Err(e),
        Ok(id) => match before.trades {
            Some(states) if states.contains_key(id) => Ok(
                ActionView::Trade { market_id: id, payload: msg },
            ),
            _ => Ok(ActionView::Ignore),
        },
    }
}

/// Whether the message `msg` takes `before` to `after` with `outcome`.
pub open spec fn dispatched(
    before: ClientView,
    msg: JsonView,
    after: ClientView,
    outcome: OutcomeView,
) -> bool {
    match msg.field("type"@) {
        None => after == before && outcome == Ok::<ActionView, ErrorView>(ActionView::Ignore),
        Some(kind) => match message_of(kind) {
            None => after == before && outcome == Err::<ActionView, ErrorView>(
                ErrorView::Generic("Unable to deserialize api message"@),
            ),
            Some(WsMessage::Connected) => after == before && outcome == Ok::<
                ActionView,
                ErrorView,
            >(ActionView::Subscribe),
            Some(WsMessage::SubscribedOrderBook) => order_book_handled(
                before,
                msg,
                "Unable to get `order_book` from message"@,
                after,
                outcome,
            ),
            Some(WsMessage::UpdateOrderBook) => order_book_handled(
                before,
                msg,
                "Unable to get `order_book` update from message"@,
                after,
                outcome,
            ),
            Some(WsMessage::SubscribedAccountAll)
            | Some(WsMessage::UpdateAccountAll)
            | Some(WsMessage::SubscribedAccountMarket)
            | Some(WsMessage::UpdateAccountMarket) => account_handled(before, msg) == (
                after,
                outcome,
            ),
            Some(WsMessage::SubscribedTrade) | Some(WsMessage::UpdateTrade) => after == before
                && outcome == trade_outcome(before, msg),
            Some(WsMessage::Ping) => after == before && outcome == Ok::<ActionView, ErrorView>(
                ActionView::Pong(object_text(pong_members())),
            ),
        },
    }
}

/// Whether what came over the connection takes `before` to `after` with `outcome`.
pub open spec fn frame_handled(
    before: ClientView,
    frame: Frame,
    after: ClientView,
    outcome: OutcomeView,
) -> bool {
    match frame {
        Frame::Text(text) => match parsed_json(text@) {
            Some(msg) => dispatched(before, msg, after, outcome),
            None => after == before && outcome == Err::<ActionView, ErrorView>(
                ErrorView::Generic("Unable to deserialize json message"@),
            ),
        },
        Frame::Other => after == before && outcome == Ok::<ActionView, ErrorView>(
            ActionView::Ignore,
        ),
    }
}

/// What comes over the connection.
#[derive(Debug, PartialEq, Eq)]
pub enum Frame {
    /// A text.
    Text(String),
    /// Bytes, or a frame of the connection itself.
    Other,
}

impl<F1, F2, F3> WsClient<F1, F2, F3> {
    /// Handles what came over the connection.
    pub fn handle_message(&mut self, msg: Frame) -> (r: Result<Action, LighterError>)
        requires
            old(self).wf(),
        ensures
            final(self).wf(),
            final(self).same_handlers(*old(self)),
            frame_handled(old(self)@, msg, final(self)@, outcome_view(r)),
    {
        match msg {
            Frame::Text(text) => match parse_json(text.as_str()) {
                Ok(json) => self.dispatch(json),
                Err(e) => Err(e),
            },
            Frame::Other => Ok(Action::Ignore),
        }
    }

    /// Handles a message of the exchange.
    pub fn dispatch(&mut self, msg: Json) -> (r: Result<Action, LighterError>)
        requires
            old(self).wf(),
        ensures
            final(self).wf(),
            final(self).same_handlers(*old(self)),
            dispatched(old(self)@, msg@, final(self)@, outcome_view(r)),
    {
        let kind = match msg.get("type") {
            Some(kind) => WsMessage::from_json(kind),
            None => {
                return Ok(Action::Ignore);
            },
        };
        match kind {
            None => Err(LighterError::generic("Unable to deserialize api message")),
            Some(WsMessage::Connected) => Ok(Action::Subscribe),
            Some(WsMessage::SubscribedOrderBook) => self.handle_subscribed_order_book(msg),
            Some(WsMessage::UpdateOrderBook) => self.handle_update_order_book(msg),
            Some(WsMessage::SubscribedAccountAll)
            | Some(WsMessage::UpdateAccountAll)
            | Some(WsMessage::SubscribedAccountMarket)
            | Some(WsMessage::UpdateAccountMarket) => self.handle_account_message(msg),
            Some(WsMessage::SubscribedTrade) | Some(WsMessage::UpdateTrade) => {
                self.handle_trade_message(msg)
            },
            Some(WsMessage::Ping) => Ok(Action::Pong(pong_request())),
        }
    }

    /// Handles the first order book of a market.
    pub fn handle_subscribed_order_book(&mut self, msg: Json) -> (r: Result<Action, LighterError>)
        requires
            old(self).wf(),
        ensures
            final(self).wf(),
            final(self).same_handlers(*old(self)),
            order_book_handled(
                old(self)@,
                msg@,
                "Unable to get `order_book` from message"@,
                final(self)@,
                outcome_view(r),
            ),
    {
        let market_id = match extract_market_id(&msg) {
            Ok(id) => id,
            Err(e) => {
                return Err(e);
            },
        };
        match msg.get("order_book") {
            Some(order_book) => self.update_order_book_state(market_id, order_book.clone()),
            None => Err(LighterError::generic("Unable to get `order_book` from message")),
        }
    }

    /// Handles an update of the order book of a market.
    pub fn handle_update_order_book(&mut self, msg: Json) -> (r: Result<Action, LighterError>)
        requires
            old(self).wf(),
        ensures
            final(self).wf(),
            final(self).same_handlers(*old(self)),
            order_book_handled(
                old(self)@,
                msg@,
                "Unable to get `order_book` update from message"@,
                final(self)@,
                outcome_view(r),
            ),
    {
        let market_id = match extract_market_id(&msg) {
            Ok(id) => id,
            Err(e) => {
                return Err(e);
            },
        };
        match msg.get("order_book") {
            Some(order_book) => self.update_order_book_state(market_id, order_book.clone()),
            None => Err(LighterError::generic("Unable to get `order_book` update from message")),
        }
    }

    /// Keeps the order book of a market, merged into the one that is held, and hands it out.
    pub fn update_order_book_state(&mut self, market_id: String, order_book: Json) -> (r: Result<
        Action,
        LighterError,
    >)
        requires
            old(self).wf(),
        ensures
            final(self).wf(),
            final(self).same_handlers(*old(self)),
            book_updated(old(self)@, market_id@, order_book@, final(self)@, outcome_view(r)),
    {
        let ghost before = self@;
        let outcome = match &mut self.order_books {
            Some(states) => {
                let ghost held = *states;
                let merged = match states.get(market_id.as_str()) {
                    Some(Some(existing)) => merge_order_books(existing.clone(), order_book),
                    _ => order_book,
                };
                let copy = merged.clone();
                states.insert(market_id.clone(), Some(copy));
                assert(states_view(*states) =~= states_view(held).insert(
                    market_id@,
                    Some(merged@),
                ));
                Ok(Action::OrderBook { market_id, order_book: merged })
            },
            None => Ok(Action::Ignore),
        };
        assert(self@.accounts == before.accounts);
        assert(self@.channels == before.channels);
        outcome
    }

    /// Keeps a message on an account and hands it out.
    pub fn handle_account_message(&mut self, msg: Json) -> (r: Result<Action, LighterError>)
        requires
            old(self).wf(),
        ensures
            final(self).wf(),
            final(self).same_handlers(*old(self)),
            account_handled(old(self)@, msg@) == (final(self)@, outcome_view(r)),
    {
        let channel = match msg.get_str("channel") {
            Some(channel) => channel.to_owned(),
            None => {
                return Err(LighterError::generic("Account message missing `channel`"));
            },
        };
        let (known, key) = match self.account_channels.get(channel.as_str()) {
            Some(meta) => (true, meta.key.clone()),
            None => (false, channel),
        };
        match &mut self.accounts {
            Some(states) => {
                if known {
                    let ghost held = *states;
                    let copy = msg.clone();
                    states.insert(key.clone(), Some(copy));
                    assert(states_view(*states) =~= states_view(held).insert(key@, Some(msg@)));
                }
                Ok(Action::Account { key, payload: msg })
            },
            None => Ok(Action::Ignore),
        }
    }

    /// Hands out a message on the trades of a market.
    pub fn handle_trade_message(&self, msg: Json) -> (r: Result<Action, LighterError>)
        ensures
            outcome_view(r) == trade_outcome(self@, msg@),
    {
        let market_id = match extract_market_id(&msg) {
            Ok(id) => id,
            Err(e) => {
                return Err(e);
            },
        };
        match &self.trades {
            Some(states) => {
                if states.contains_key(market_id.as_str()) {
                    Ok(Action::Trade { market_id, payload: msg })
                } else {
                    Ok(Action::Ignore)
                }
            },
            None => Ok(Action::Ignore),
        }
    }
}

impl<F1, F2, F3> WsClient<F1, F2, F3> {
    /// The error where nothing could be received.
    pub fn receive_failure() -> (r: LighterError)
        ensures
            r@ == ErrorView::Generic("Unable to handle message"@),
    {
        LighterError::generic("Unable to handle message")
    }

    /// The error where the answer to a ping could not be sent.
    pub fn pong_failure() -> (r: LighterError)
        ensures
            r@ == ErrorView::Generic("Unable to send `pong`"@),
    {
        LighterError::generic("Unable to send `pong`")
    }
}

/// A message that ends in an error leaves the client as it was.
pub proof fn errors_change_nothing(
    before: ClientView,
    frame: Frame,
    after: ClientView,
    outcome: OutcomeView,
)
    requires
        frame_handled(before, frame, after, outcome),
        outcome is Err,
    ensures
        after == before,
{
}

/// What the client is subscribed to stays the same: no message adds or drops a group of
/// subscriptions or an account channel, no account or trade is added or dropped, and no order
/// book is dropped.
pub proof fn subscriptions_stay(
    before: ClientView,
    frame: Frame,
    after: ClientView,
    outcome: OutcomeView,
)
    requires
        before.wf(),
        frame_handled(before, frame, after, outcome),
    ensures
        after.wf(),
        after.channels == before.channels,
        after.trades == before.trades,
        after.order_books is Some <==> before.order_books is Some,
        after.accounts is Some <==> before.accounts is Some,
        before.accounts is Some ==> after.accounts->0.dom() == before.accounts->0.dom(),
        before.order_books is Some ==> before.order_books->0.dom().subset_of(
            after.order_books->0.dom(),
        ),
{
    if let Frame::Text(text) = frame {
        if let Some(msg) = parsed_json(text@) {
            if let Some(channel) = msg.text_field("channel"@) {
                if before.channels.contains_key(channel) {
                    let key = before.channels[channel].0;
                    let states = before.accounts->0;
                    assert(states.insert(key, Some(msg)).dom() =~= states.dom());
                }
            }
        }
    }
}

/// The order book that is handed out is the one that is kept, and no other order book changes.
pub proof fn delivered_book_is_kept(
    before: ClientView,
    frame: Frame,
    after: ClientView,
    market_id: Seq<char>,
    order_book: JsonView,
)
    requires
        frame_handled(
            before,
            frame,
            after,
            Ok(ActionView::OrderBook { market_id, order_book }),
        ),
    ensures
        before.order_books is Some,
        after == (ClientView {
            order_books: Some(before.order_books->0.insert(market_id, Some(order_book))),
            ..before
        }),
{
}

/// A message on a subscribed account channel is kept under the key of the channel and handed out
/// under it; no other account changes. One on another channel is handed out under the name of the
/// channel and changes nothing.
pub proof fn delivered_account_is_kept(
    before: ClientView,
    frame: Frame,
    after: ClientView,
    key: Seq<char>,
    payload: JsonView,
)
    requires
        frame_handled(before, frame, after, Ok(ActionView::Account { key, payload })),
    ensures
        before.accounts is Some,
        payload.text_field("channel"@) is Some,
        ({
            let channel = payload.text_field("channel"@)->0;
            if before.channels.contains_key(channel) {
                &&& key == before.channels[channel].0
                &&& after == (ClientView {
                    accounts: Some(before.accounts->0.insert(key, Some(payload))),
                    ..before
                })
            } else {
                key == channel && after == before
            }
        }),
{
}

/// Messages on trades are handed out only for markets that are subscribed to, and are not kept.
pub proof fn delivered_trade_is_subscribed(
    before: ClientView,
    frame: Frame,
    after: ClientView,
    market_id: Seq<char>,
    payload: JsonView,
)
    requires
        frame_handled(before, frame, after, Ok(ActionView::Trade { market_id, payload })),
    ensures
        before.trades is Some,
        before.trades->0.contains_key(market_id),
        market_id_of(payload) == Ok::<Seq<char>, ErrorView>(market_id),
        after == before,
{
}

/// What a client shows of itself is what it is made of: its groups with the identifiers and states
/// in them, and its account channels.
pub proof fn clients_show_what_they_hold<F1, F2, F3>(
    client: WsClient<F1, F2, F3>,
    states: States,
    id: Seq<char>,
)
    ensures
        client@.order_books is Some <==> client.order_books is Some,
        client@.accounts is Some <==> client.accounts is Some,
        client@.trades is Some <==> client.trades is Some,
        client.order_books == Some(states) ==> client@.order_books == Some(states_view(states)),
        client.accounts == Some(states) ==> client@.accounts == Some(states_view(states)),
        client.trades == Some(states) ==> client@.trades == Some(states_view(states)),
        states_view(states).contains_key(id) <==> states@.contains_key(id),
        states@.contains_key(id) && states@[id] is None ==> states_view(states)[id] is None,
        states@.contains_key(id) && states@[id] is Some ==> states_view(states)[id] == Some(
            states@[id]->0@,
        ),
        client@.channels.contains_key(id) <==> client.account_channels@.contains_key(id),
        client.account_channels@.contains_key(id) ==> client@.channels[id] == (
            client.account_channels@[id].key@,
            client.account_channels@[id].requires_auth,
        ),
{
}

/// What is to be done and what went wrong show what they are made of.
pub proof fn outcomes_show_what_they_hold(text: String, json: Json, e: LighterError)
    ensures
        outcome_view(Ok(Action::Ignore)) == Ok::<ActionView, ErrorView>(ActionView::Ignore),
        outcome_view(Ok(Action::Subscribe)) == Ok::<ActionView, ErrorView>(ActionView::Subscribe),
        outcome_view(Ok(Action::Pong(text))) == Ok::<ActionView, ErrorView>(
            ActionView::Pong(text@),
        ),
        outcome_view(Ok(Action::OrderBook { market_id: text, order_book: json })) == Ok::<
            ActionView,
            ErrorView,
        >(ActionView::OrderBook { market_id: text@, order_book: json@ }),
        outcome_view(Ok(Action::Account { key: text, payload: json })) == Ok::<
            ActionView,
            ErrorView,
        >(ActionView::Account { key: text@, payload: json@ }),
        outcome_view(Ok(Action::Trade { market_id: text, payload: json })) == Ok::<
            ActionView,
            ErrorView,
        >(ActionView::Trade { market_id: text@, payload: json@ }),
        outcome_view(Err(e)) == Err::<ActionView, ErrorView>(e@),
        LighterError::Config(text)@ == ErrorView::Config(text@),
        LighterError::Generic(text)@ == ErrorView::Generic(text@),
        LighterError::Auth(text)@ == ErrorView::Auth(text@),
{
}

/// Two clients have the same handlers where each of the three is the same.
pub proof fn handlers_are_three<F1, F2, F3>(a: WsClient<F1, F2, F3>, b: WsClient<F1, F2, F3>)
    ensures
        a.same_handlers(b) <==> {
            &&& a.on_order_book_update == b.on_order_book_update
            &&& a.on_account_update == b.on_account_update
            &&& a.on_trade_update == b.on_trade_update
        },
{
}

/// Every order book message with a market and an order book is kept and handed out where order
/// books are subscribed to: the first book of a market as it is, every later one merged into the
/// one that is held, whichever sides it has. Nothing else of the client changes.
pub proof fn order_books_are_kept_and_handed_out(
    before: ClientView,
    text: String,
    msg: JsonView,
    kind: Seq<char>,
    market_id: Seq<char>,
    update: JsonView,
    after: ClientView,
    outcome: OutcomeView,
)
    requires
        frame_handled(before, Frame::Text(text), after, outcome),
        parsed_json(text@) == Some(msg),
        msg.field("type"@) is Some,
        message_of(msg.field("type"@)->0) == message_of(JsonView::Text(kind)),
        kind == "subscribed/order_book"@ || kind == "update/order_book"@,
        market_id_of(msg) == Ok::<Seq<char>, ErrorView>(market_id),
        msg.field("order_book"@) == Some(update),
        before.order_books is Some,
    ensures
        outcome matches Ok(ActionView::OrderBook { market_id: id, order_book: book }) && {
            let held = before.order_books->0;
            &&& id == market_id
            &&& after.order_books is Some
            &&& after.order_books->0.dom() == held.dom().insert(market_id)
            &&& after.order_books->0[market_id] == Some(book)
            &&& forall|other: Seq<char>|
                other != market_id && #[trigger] held.contains_key(other)
                    ==> after.order_books->0[other] == held[other]
            &&& after.accounts == before.accounts
            &&& after.trades == before.trades
            &&& after.channels == before.channels
            &&& !held.contains_key(market_id) || held[market_id] is None ==> book == update
            &&& held.contains_key(market_id) && held[market_id] is Some ==> is_merged_book(
                held[market_id]->0,
                update,
                book,
            )
        },
{
    message_types_by_name(kind);
}

/// An order book message that comes after another one of its market leaves every level that it
/// does not mention: a level on a side of the held book stays listed on that side of the book that
/// is handed out, where its price is a number that no change of that side and no later level has.
pub proof fn updates_leave_what_they_do_not_mention(
    before: ClientView,
    text: String,
    msg: JsonView,
    kind: Seq<char>,
    market_id: Seq<char>,
    update: JsonView,
    after: ClientView,
    outcome: OutcomeView,
    side: Seq<char>,
    levels: Seq<JsonView>,
    k: int,
    p: Seq<char>,
)
    requires
        frame_handled(before, Frame::Text(text), after, outcome),
        parsed_json(text@) == Some(msg),
        msg.field("type"@) is Some,
        message_of(msg.field("type"@)->0) == message_of(JsonView::Text(kind)),
        kind == "subscribed/order_book"@ || kind == "update/order_book"@,
        market_id_of(msg) == Ok::<Seq<char>, ErrorView>(market_id),
        msg.field("order_book"@) == Some(update),
        update is Object,
        before.order_books is Some,
        before.order_books->0.contains_key(market_id),
        before.order_books->0[market_id] is Some,
        before.order_books->0[market_id]->0 is Object,
        side == "asks"@ || side == "bids"@,
        before.order_books->0[market_id]->0.field(side) == Some(JsonView::Array(levels)),
        update.field(side) is None || update.field(side)->0 is Array,
        0 <= k < levels.len(),
        levels[k].text_field("price"@) == Some(p),
        number_of(p) is Some,
        forall|j: int|
            k < j < levels.len() ==> (#[trigger] levels[j]).text_field("price"@) != Some(p),
        update.field(side) is Some ==> forall|j: int|
            0 <= j < (update.field(side)->0->Array_0).len() ==> (
            #[trigger] (update.field(side)->0->Array_0)[j]).text_field("price"@) != Some(p),
    ensures
        outcome matches Ok(ActionView::OrderBook { market_id: id, order_book: book }) && {
            &&& id == market_id
            &&& after.order_books->0[market_id] == Some(book)
            &&& book.field(side) matches Some(JsonView::Array(_))
            &&& (book.field(side)->0->Array_0).contains(levels[k])
            &&& forall|key: Seq<char>|
                key != "asks"@ && key != "bids"@ ==> #[trigger] book.field(key)
                    == before.order_books->0[market_id]->0.field(key)
        },
{
    order_books_are_kept_and_handed_out(
        before,
        text,
        msg,
        kind,
        market_id,
        update,
        after,
        outcome,
    );
    let held = before.order_books->0[market_id]->0;
    let book = outcome->Ok_0->OrderBook_order_book;
    let changes = update.field(side)->0->Array_0;
    merging_is_by_side(held, update, book, side, changes, levels);
    if update.field(side) is Some {
        held_level_stays(
            levels,
            changes,
            side == "bids"@,
            book.field(side)->0->Array_0,
            k,
            p,
        );
    } else {
        assert(levels[k] == (book.field(side)->0->Array_0)[k]);
    }
    assert forall|key: Seq<char>| key != "asks"@ && key != "bids"@ implies #[trigger] book.field(key)
        == held.field(key) by {
        merging_is_by_side(held, update, book, key, changes, levels);
    }
}

/// Where an order book message comes after another one of its market and has a list of changes for
/// a side, the last change at a price that is a number is listed there, unless it is to be deleted
/// or has an amount of zero.
pub proof fn updates_set_what_they_mention(
    before: ClientView,
    text: String,
    msg: JsonView,
    kind: Seq<char>,
    market_id: Seq<char>,
    update: JsonView,
    after: ClientView,
    outcome: OutcomeView,
    side: Seq<char>,
    changes: Seq<JsonView>,
    k: int,
    p: Seq<char>,
)
    requires
        frame_handled(before, Frame::Text(text), after, outcome),
        parsed_json(text@) == Some(msg),
        msg.field("type"@) is Some,
        message_of(msg.field("type"@)->0) == message_of(JsonView::Text(kind)),
        kind == "subscribed/order_book"@ || kind == "update/order_book"@,
        market_id_of(msg) == Ok::<Seq<char>, ErrorView>(market_id),
        msg.field("order_book"@) == Some(update),
        update is Object,
        before.order_books is Some,
        before.order_books->0.contains_key(market_id),
        before.order_books->0[market_id] is Some,
        before.order_books->0[market_id]->0 is Object,
        side == "asks"@ || side == "bids"@,
        update.field(side) == Some(JsonView::Array(changes)),
        0 <= k < changes.len(),
        changes[k].text_field("price"@) == Some(p),
        number_of(p) is Some,
        forall|j: int|
            k < j < changes.len() ==> (#[trigger] changes[j]).text_field("price"@) != Some(p),
    ensures
        outcome matches Ok(ActionView::OrderBook { market_id: id, order_book: book }) && {
            let listed = book.field(side)->0->Array_0;
            &&& book.field(side) matches Some(JsonView::Array(_))
            &&& forall|i: int, j: int|
                0 <= i < j < listed.len() ==> {
                    let a = number_of((#[trigger] listed[i]).text_field("price"@)->0)->0;
                    let b = number_of((#[trigger] listed[j]).text_field("price"@)->0)->0;
                    if side == "asks"@ {
                        number_le(a, b)
                    } else {
                        number_le(b, a)
                    }
                }
            &&& (forall|action: Seq<char>| #[trigger]
                is_in_any_case(action, "delete"@) ==> changes[k].text_field("action"@) != Some(
                    action,
                )) && is_no_zero(changes[k], "remaining_base_amount"@) && is_no_zero(
                changes[k],
                "size"@,
            ) && is_no_zero(changes[k], "quantity"@) && is_no_zero(changes[k], "qty"@)
                ==> listed.contains(changes[k])
            &&& (exists|action: Seq<char>| #[trigger]
                is_in_any_case(action, "delete"@) && changes[k].text_field("action"@) == Some(
                    action,
                )) ==> forall|i: int|
                0 <= i < listed.len() ==> (#[trigger] listed[i]).text_field("price"@) != Some(p)
        },
{
    order_books_are_kept_and_handed_out(
        before,
        text,
        msg,
        kind,
        market_id,
        update,
        after,
        outcome,
    );
    let held = before.order_books->0[market_id]->0;
    let book = outcome->Ok_0->OrderBook_order_book;
    let levels = levels_of(held.field(side));
    let listed = book.field(side)->0->Array_0;
    let falling = side == "bids"@;
    merging_is_by_side(held, update, book, side, changes, levels);
    reveal_strlit("asks");
    reveal_strlit("bids");
    assert("asks"@[0] != "bids"@[0]);
    listed_levels_are_changes_or_held(levels, changes, falling, listed);
    if exists|action: Seq<char>| #[trigger]
        is_in_any_case(action, "delete"@) && changes[k].text_field("action"@) == Some(action) {
        let action = choose|action: Seq<char>| #[trigger]
            is_in_any_case(action, "delete"@) && changes[k].text_field("action"@) == Some(action);
        deleted_level_is_gone(levels, changes, falling, listed, k, p, action);
    } else if is_no_zero(changes[k], "remaining_base_amount"@) && is_no_zero(changes[k], "size"@)
        && is_no_zero(changes[k], "quantity"@) && is_no_zero(changes[k], "qty"@) {
        last_change_is_listed(levels, changes, falling, listed, k, p);
    }
}

/// Order book messages are ignored where order books are not subscribed to, and one without a
/// market or an order book is an error that says so.
pub proof fn order_books_that_are_not_kept(
    before: ClientView,
    text: String,
    msg: JsonView,
    kind: Seq<char>,
    after: ClientView,
    outcome: OutcomeView,
)
    requires
        frame_handled(before, Frame::Text(text), after, outcome),
        parsed_json(text@) == Some(msg),
        msg.field("type"@) is Some,
        message_of(msg.field("type"@)->0) == message_of(JsonView::Text(kind)),
        kind == "subscribed/order_book"@ || kind == "update/order_book"@,
    ensures
        market_id_of(msg) matches Err(e) ==> after == before && outcome == Err::<
            ActionView,
            ErrorView,
        >(e),
        market_id_of(msg) is Ok && msg.field("order_book"@) is None ==> after == before && outcome
            == Err::<ActionView, ErrorView>(
            ErrorView::Generic(
                if kind == "update/order_book"@ {
                    "Unable to get `order_book` update from message"@
                } else {
                    "Unable to get `order_book` from message"@
                },
            ),
        ),
        market_id_of(msg) is Ok && msg.field("order_book"@) is Some && before.order_books is None
            ==> after == before && outcome == Ok::<ActionView, ErrorView>(ActionView::Ignore),
{
    message_types_by_name(kind);
}

/// Every account message with a channel is handed out where accounts are subscribed to, whatever
/// was received before: under the key of its channel, and then it is what is kept there, or under
/// the name of the channel where that is not subscribed to. Nothing else of the client changes.
pub proof fn account_messages_are_kept_and_handed_out(
    before: ClientView,
    text: String,
    msg: JsonView,
    kind: Seq<char>,
    channel: Seq<char>,
    after: ClientView,
    outcome: OutcomeView,
)
    requires
        frame_handled(before, Frame::Text(text), after, outcome),
        parsed_json(text@) == Some(msg),
        msg.field("type"@) is Some,
        message_of(msg.field("type"@)->0) == message_of(JsonView::Text(kind)),
        kind == "subscribed/account_all"@ || kind == "update/account_all"@ || kind
            == "subscribed/account_market"@ || kind == "update/account_market"@,
        msg.text_field("channel"@) == Some(channel),
    ensures
        before.accounts is Some ==> {
            let known = before.channels.contains_key(channel);
            let key = if known {
                before.channels[channel].0
            } else {
                channel
            };
            let held = before.accounts->0;
            &&& outcome == Ok::<ActionView, ErrorView>(ActionView::Account { key, payload: msg })
            &&& known ==> {
                &&& after.accounts is Some
                &&& after.accounts->0.dom() == held.dom().insert(key)
                &&& after.accounts->0[key] == Some(msg)
                &&& forall|other: Seq<char>|
                    other != key && #[trigger] held.contains_key(other)
                        ==> after.accounts->0[other] == held[other]
            }
            &&& !known ==> after.accounts == before.accounts
        },
        before.accounts is None ==> after.accounts is None && outcome == Ok::<
            ActionView,
            ErrorView,
        >(ActionView::Ignore),
        after.order_books == before.order_books,
        after.trades == before.trades,
        after.channels == before.channels,
{
    message_types_by_name(kind);
}

/// An account message without the text of a channel is an error that says so.
pub proof fn account_messages_need_a_channel(
    before: ClientView,
    text: String,
    msg: JsonView,
    kind: Seq<char>,
    after: ClientView,
    outcome: OutcomeView,
)
    requires
        frame_handled(before, Frame::Text(text), after, outcome),
        parsed_json(text@) == Some(msg),
        msg.field("type"@) is Some,
        message_of(msg.field("type"@)->0) == message_of(JsonView::Text(kind)),
        kind == "subscribed/account_all"@ || kind == "update/account_all"@ || kind
            == "subscribed/account_market"@ || kind == "update/account_market"@,
        msg.text_field("channel"@) is None,
    ensures
        after == before,
        outcome == Err::<ActionView, ErrorView>(
            ErrorView::Generic("Account message missing `channel`"@),
        ),
{
    message_types_by_name(kind);
}

/// Every message on the trades of a market that is subscribed to is handed out as it is, whatever
/// was received before; one of another market is ignored, and one without a market is an error
/// that says so. None of them changes the client.
pub proof fn trades_are_handed_out(
    before: ClientView,
    text: String,
    msg: JsonView,
    kind: Seq<char>,
    after: ClientView,
    outcome: OutcomeView,
)
    requires
        frame_handled(before, Frame::Text(text), after, outcome),
        parsed_json(text@) == Some(msg),
        msg.field("type"@) is Some,
        message_of(msg.field("type"@)->0) == message_of(JsonView::Text(kind)),
        kind == "subscribed/trade"@ || kind == "update/trade"@,
    ensures
        after == before,
        market_id_of(msg) matches Ok(id) ==> outcome == Ok::<ActionView, ErrorView>(
            if before.trades is Some && before.trades->0.contains_key(id) {
                ActionView::Trade { market_id: id, payload: msg }
            } else {
                ActionView::Ignore
            },
        ),
        market_id_of(msg) matches Err(e) ==> outcome == Err::<ActionView, ErrorView>(e),
{
    message_types_by_name(kind);
}

/// A ping is answered with the object whose one member says that it is a pong, and the message
/// that the connection stands with subscribing. Neither changes the client.
pub proof fn pings_and_greetings_are_answered(
    before: ClientView,
    text: String,
    msg: JsonView,
    kind: Seq<char>,
    after: ClientView,
    outcome: OutcomeView,
)
    requires
        frame_handled(before, Frame::Text(text), after, outcome),
        parsed_json(text@) == Some(msg),
        msg.field("type"@) is Some,
        message_of(msg.field("type"@)->0) == message_of(JsonView::Text(kind)),
        kind == "ping"@ || kind == "connected"@,
    ensures
        after == before,
        outcome == Ok::<ActionView, ErrorView>(
            if kind == "ping"@ {
                ActionView::Pong(object_text(seq![("type"@, "pong"@)]))
            } else {
                ActionView::Subscribe
            },
        ),
{
    message_types_by_name(kind);
    reveal_strlit("ping");
    reveal_strlit("connected");
    assert("ping"@.len() != "connected"@.len());
}

/// What is no text and what has no type is ignored; what is no JSON or of a type that is not known
/// is an error that says so. None of them changes the client.
pub proof fn frames_that_say_nothing(
    before: ClientView,
    frame: Frame,
    after: ClientView,
    outcome: OutcomeView,
    name: Seq<char>,
)
    requires
        frame_handled(before, frame, after, outcome),
    ensures
        frame is Other ==> after == before && outcome == Ok::<ActionView, ErrorView>(
            ActionView::Ignore,
        ),
        frame matches Frame::Text(text) ==> match parsed_json(text@) {
            None => after == before && outcome == Err::<ActionView, ErrorView>(
                ErrorView::Generic("Unable to deserialize json message"@),
            ),
            Some(msg) => {
                &&& msg.field("type"@) is None ==> after == before && outcome == Ok::<
                    ActionView,
                    ErrorView,
                >(ActionView::Ignore)
                &&& msg.field("type"@) == Some(JsonView::Text(name)) && name != "connected"@ && name
                    != "subscribed/order_book"@ && name != "update/order_book"@ && name
                    != "subscribed/account_all"@ && name != "update/account_all"@ && name
                    != "subscribed/account_market"@ && name != "update/account_market"@ && name
                    != "subscribed/trade"@ && name != "update/trade"@ && name != "ping"@ ==> after
                    == before && outcome == Err::<ActionView, ErrorView>(
                    ErrorView::Generic("Unable to deserialize api message"@),
                )
                &&& msg.field("type"@) is Some && message_of(msg.field("type"@)->0) is None
                    ==> after == before && outcome == Err::<ActionView, ErrorView>(
                    ErrorView::Generic("Unable to deserialize api message"@),
                )
            },
        },
{
    message_types_by_name(name);
}

} // verus!
