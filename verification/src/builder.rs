//! How a client is put together.

use crate::client::{channels_view, states_view, ClientView, States, WsClient};
use crate::error::{ErrorView, LighterError};
use crate::handshake::are_account_channels;
use crate::json::JsonView;
use crate::subscription::{
    channels_are_keys_after_a_prefix, parse_outcome, AccountChannelMeta, AccountSubscription,
    SubscriptionView,
};
use crate::text_map::TextMap;
use vstd::prelude::*;

verus! {

/// Where the exchange is reached.
#[derive(Debug, PartialEq, Eq)]
pub struct LighterConfig {
    pub ws_url: String,
}

/// A client in the making: what to subscribe to, each with the handler of its updates.
pub struct WsClientBuilder<F1, F2, F3> {
    pub config: Option<LighterConfig>,
    pub order_books_subs: Option<(Vec<String>, F1)>,
    pub accounts_subs: Option<(Vec<String>, F2)>,
    pub trade_subs: Option<(Vec<String>, F3)>,
}

/// The texts of a list.
pub open spec fn list_view(list: Vec<String>) -> Seq<Seq<char>> {
    list@.map_values(|s: String| s@)
}

/// The list of a subscription, where there is one.
pub open spec fn subs_view<F>(subs: Option<(Vec<String>, F)>) -> Option<Seq<Seq<char>>> {
    match subs {
        Some((list, _)) => Some(list_view(list)),
        None => None,
    }
}

/// The handler of a subscription, where there is one.
pub open spec fn handler_of<F>(subs: Option<(Vec<String>, F)>) -> Option<F> {
    match subs {
        Some((_, handler)) => Some(handler),
        None => None,
    }
}

/// The states of a new subscription to `ids`: nothing has been received for any of them.
pub open spec fn fresh_states(ids: Seq<Seq<char>>) -> Map<Seq<char>, Option<JsonView>> {
    Map::new(|id: Seq<char>| ids.contains(id), |id: Seq<char>| None)
}

/// The states of a new subscription, where there is one.
pub open spec fn fresh_group(ids: Option<Seq<Seq<char>>>) -> Option<
    Map<Seq<char>, Option<JsonView>>,
> {
    match ids {
        Some(ids) => Some(fresh_states(ids)),
        None => None,
    }
}

/// Why the first of several account subscriptions that cannot be parsed cannot be.
pub open spec fn first_failure(raws: Seq<Seq<char>>) -> Option<ErrorView>
    decreases raws.len(),
{
    if raws.len() == 0 {
        None
    } else {
        match (first_failure(raws.drop_last()), parse_outcome(raws.last())) {
            (Some(e), _) => Some(e),
            (None, Err(e)) => Some(e),
            (None, Ok(_)) => None,
        }
    }
}

/// The account subscriptions that several texts stand for.
pub open spec fn parsed_subs(raws: Seq<Seq<char>>) -> Seq<SubscriptionView> {
    raws.map_values(|raw: Seq<char>| parse_outcome(raw)->Ok_0)
}

/// The keys of several account subscriptions.
pub open spec fn sub_keys(subs: Seq<SubscriptionView>) -> Seq<Seq<char>> {
    subs.map_values(|s: SubscriptionView| s.key())
}

/// Whether `channels` are the channels of `subs`, each with the key of its subscription; all of
/// them need a token.
pub open spec fn are_channels_of(
    subs: Seq<SubscriptionView>,
    channels: Map<Seq<char>, (Seq<char>, bool)>,
) -> bool {
    &&& forall|i: int|
        0 <= i < subs.len() ==> {
            let sub = #[trigger] subs[i];
            channels.contains_key(sub.channel()) && channels[sub.channel()] == (sub.key(), true)
        }
    &&& forall|c: Seq<char>| #[trigger]
        channels.contains_key(c) ==> exists|i: int|
            0 <= i < subs.len() && (#[trigger] subs[i]).channel() == c
}

impl<F1, F2, F3> WsClientBuilder<F1, F2, F3> {
    /// Whether there is nothing to subscribe to.
    pub open spec fn has_no_subs(self) -> bool {
        self.accounts_subs is None && self.order_books_subs is None && self.trade_subs is None
    }

    /// Why no client can be built.
    pub open spec fn failure(self) -> Option<ErrorView> {
        if self.has_no_subs() {
            Some(ErrorView::Generic("No subscriptions provided"@))
        } else {
            match subs_view(self.accounts_subs) {
                Some(raws) if raws.len() == 0 => Some(
                    ErrorView::Config("Expected at least one account subscription"@),
                ),
                Some(raws) => first_failure(raws),
                None => None,
            }
        }
    }
}

/// Whether `client` is what a new client holds that subscribes to these order books, accounts and
/// trades.
pub open spec fn is_new_client(
    order_books: Option<Seq<Seq<char>>>,
    accounts: Option<Seq<Seq<char>>>,
    trades: Option<Seq<Seq<char>>>,
    client: ClientView,
) -> bool {
    &&& client.order_books == fresh_group(order_books)
    &&& client.trades == fresh_group(trades)
    &&& match accounts {
        Some(raws) => {
            &&& client.accounts == Some(fresh_states(sub_keys(parsed_subs(raws))))
            &&& are_channels_of(parsed_subs(raws), client.channels)
        },
        None => client.accounts is None && client.channels == Map::<
            Seq<char>,
            (Seq<char>, bool),
        >::empty(),
    }
}

/// Channels tell subscriptions with different keys apart.
pub proof fn same_channel_same_key(a: SubscriptionView, b: SubscriptionView)
    requires
        a.channel() == b.channel(),
    ensures
        a.key() == b.key(),
{
    reveal_strlit("account_all/");
    reveal_strlit("account_market/");
    let (all, market) = ("account_all/"@, "account_market/"@);
    assert(all[8] == 'a');
    assert(market[8] == 'm');
    assert(a is AccountAll ==> a.channel() =~= all + a.key());
    assert(b is AccountAll ==> b.channel() =~= all + b.key());
    assert(a is AccountMarket ==> a.channel() =~= market + a.key());
    assert(b is AccountMarket ==> b.channel() =~= market + b.key());
    assert(a is AccountAll ==> a.channel()[8] == 'a');
    assert(b is AccountAll ==> b.channel()[8] == 'a');
    assert(a is AccountMarket ==> a.channel()[8] == 'm');
    assert(b is AccountMarket ==> b.channel()[8] == 'm');
    if a is AccountAll {
        assert(a.key() =~= a.channel().skip(all.len() as int));
        assert(b.key() =~= b.channel().skip(all.len() as int));
    } else {
        assert(a.key() =~= a.channel().skip(market.len() as int));
        assert(b.key() =~= b.channel().skip(market.len() as int));
    }
}

/// The states of a new subscription to `ids`.
fn new_states(ids: &Vec<String>) -> (r: States)
    ensures
        r.wf(),
        states_view(r) == fresh_states(list_view(*ids)),
{
    let mut states: States = TextMap::new();
    let ghost all = list_view(*ids);
    assert(states_view(states) =~= fresh_states(all.take(0)));
    for i in 0..ids.len()
        invariant
            all == list_view(*ids),
            states.wf(),
            states_view(states) == fresh_states(all.take(i as int)),
    {
        let ghost held = states;
        let ghost id = ids@[i as int]@;
        states.insert(ids[i].clone(), None);
        proof {
            lemma_fresh_push(all.take(i as int), id);
            assert(all.take(i + 1) =~= all.take(i as int).push(id));
            assert(states_view(states) =~= states_view(held).insert(id, None));
        }
    }
    assert(all.take(ids@.len() as int) =~= all);
    states
}

proof fn lemma_fresh_push(ids: Seq<Seq<char>>, id: Seq<char>)
    ensures
        fresh_states(ids.push(id)) == fresh_states(ids).insert(id, None),
{
    let (a, b) = (fresh_states(ids.push(id)), fresh_states(ids).insert(id, None));
    assert forall|k: Seq<char>| #[trigger] a.contains_key(k) == b.contains_key(k) by {
        if ids.contains(k) {
            let j = choose|j: int| 0 <= j < ids.len() && ids[j] == k;
            assert(ids.push(id)[j] == k);
        }
        if k == id {
            assert(ids.push(id)[ids.len() as int] == k);
        }
    }
    assert(a =~= b);
}

/// The first failure of a part that starts the list is the first failure of the list.
proof fn lemma_failure_stays(raws: Seq<Seq<char>>, n: int)
    requires
        0 <= n <= raws.len(),
        first_failure(raws.take(n)) is Some,
    ensures
        first_failure(raws) == first_failure(raws.take(n)),
    decreases raws.len(),
{
    if n == raws.len() {
        assert(raws.take(n) =~= raws);
    } else {
        assert(raws.drop_last().take(n) =~= raws.take(n));
        lemma_failure_stays(raws.drop_last(), n);
    }
}

/// One more subscription adds its channel.
proof fn lemma_channels_push(
    subs: Seq<SubscriptionView>,
    sub: SubscriptionView,
    before: Map<Seq<char>, (Seq<char>, bool)>,
    after: Map<Seq<char>, (Seq<char>, bool)>,
)
    requires
        are_channels_of(subs, before),
        before.contains_key(sub.channel()) ==> after == before,
        !before.contains_key(sub.channel()) ==> after == before.insert(
            sub.channel(),
            (sub.key(), true),
        ),
    ensures
        are_channels_of(subs.push(sub), after),
{
    let more = subs.push(sub);
    assert(more[subs.len() as int] == sub);
    if before.contains_key(sub.channel()) {
        let i = choose|i: int| 0 <= i < subs.len() && (#[trigger] subs[i]).channel() == sub.channel();
        same_channel_same_key(subs[i], sub);
    }
    assert forall|i: int| 0 <= i < more.len() implies {
        let s = #[trigger] more[i];
        after.contains_key(s.channel()) && after[s.channel()] == (s.key(), true)
    } by {
        if i < subs.len() {
            assert(more[i] == subs[i]);
        }
    }
    assert forall|c: Seq<char>| #[trigger] after.contains_key(c) implies exists|i: int|
        0 <= i < more.len() && (#[trigger] more[i]).channel() == c by {
        if before.contains_key(c) {
            let i = choose|i: int| 0 <= i < subs.len() && (#[trigger] subs[i]).channel() == c;
            assert(more[i].channel() == c);
        } else {
            assert(more[subs.len() as int].channel() == c);
        }
    }
}

/// The states and channels of new account subscriptions.
fn new_accounts(raws: &Vec<String>) -> (r: Result<
    (States, TextMap<AccountChannelMeta>),
    LighterError,
>)
    ensures
        match r {
            Ok((states, channels)) => {
                let subs = parsed_subs(list_view(*raws));
                &&& first_failure(list_view(*raws)) is None
                &&& states.wf()
                &&& channels.wf()
                &&& states_view(states) == fresh_states(sub_keys(subs))
                &&& are_channels_of(subs, channels_view(channels))
            },
            Err(e) => first_failure(list_view(*raws)) == Some(e@),
        },
{
    let ghost all = list_view(*raws);
    let mut states: States = TextMap::new();
    let mut channels: TextMap<AccountChannelMeta> = TextMap::new();
    proof {
        assert(all.take(0) =~= Seq::<Seq<char>>::empty());
        assert(states_view(states) =~= fresh_states(sub_keys(parsed_subs(all.take(0)))));
    }
    for i in 0..raws.len()
        invariant
            all == list_view(*raws),
            first_failure(all.take(i as int)) is None,
            states.wf(),
            channels.wf(),
            states_view(states) == fresh_states(sub_keys(parsed_subs(all.take(i as int)))),
            are_channels_of(parsed_subs(all.take(i as int)), channels_view(channels)),
    {
        let ghost raw = raws@[i as int]@;
        let ghost done = parsed_subs(all.take(i as int));
        proof {
            assert(all.take(i + 1).drop_last() =~= all.take(i as int));
            assert(all.take(i + 1).last() == raw);
        }
        let sub = match AccountSubscription::parse(raws[i].as_str()) {
            Ok(sub) => sub,
            Err(e) => {
                proof {
                    lemma_failure_stays(all, i + 1);
                }
                return Err(e);
            },
        };
        assert(parsed_subs(all.take(i + 1)) =~= done.push(sub@));
        assert(sub_keys(done.push(sub@)) =~= sub_keys(done).push(sub@.key()));
        let key = sub.key();
        let channel = sub.channel();
        let ghost held_channels = channels_view(channels);
        let ghost held_states = states_view(states);
        let ghost name = key@;
        if !channels.contains_key(channel.as_str()) {
            channels.insert(channel, AccountChannelMeta::new(key.clone(), true));
            assert(channels_view(channels) =~= held_channels.insert(
                sub@.channel(),
                (sub@.key(), true),
            ));
        }
        states.insert(key, None);
        proof {
            assert(states_view(states) =~= held_states.insert(name, None));
            lemma_fresh_push(sub_keys(done), name);
            lemma_channels_push(done, sub@, held_channels, channels_view(channels));
        }
    }
    assert(all.take(raws@.len() as int) =~= all);
    Ok((states, channels))
}

impl<F1, F2, F3> WsClientBuilder<F1, F2, F3> {
    /// Reaches the exchange as `config` says.
    pub fn with_config(self, config: LighterConfig) -> (r: Self)
        ensures
            r == (WsClientBuilder { config: Some(config), ..self }),
    {
        WsClientBuilder { config: Some(config), ..self }
    }

    /// Subscribes to the order books of the markets `order_book_subs`.
    pub fn with_order_books_subs(
        self,
        order_book_subs: Vec<String>,
        order_book_update_fn: F1,
    ) -> (r: Self)
        ensures
            r == (WsClientBuilder {
                order_books_subs: Some((order_book_subs, order_book_update_fn)),
                ..self
            }),
    {
        WsClientBuilder { order_books_subs: Some((order_book_subs, order_book_update_fn)), ..self }
    }

    /// Subscribes to accounts.
    ///
    /// Entries can be plain account identifiers (e.g. `40` or `account_all/40`) or
    /// market-specific tuples (e.g. `0/40` or `account_market/0/40`).
    pub fn with_accounts_subs(self, account_subs: Vec<String>, account_update_fn: F2) -> (r: Self)
        ensures
            r == (WsClientBuilder {
                accounts_subs: Some((account_subs, account_update_fn)),
                ..self
            }),
    {
        WsClientBuilder { accounts_subs: Some((account_subs, account_update_fn)), ..self }
    }

    /// Subscribes to the trades of the markets `trade_subs`.
    pub fn with_trade_subs(self, trade_subs: Vec<String>, trade_update_fn: F3) -> (r: Self)
        ensures
            r == (WsClientBuilder { trade_subs: Some((trade_subs, trade_update_fn)), ..self }),
    {
        WsClientBuilder { trade_subs: Some((trade_subs, trade_update_fn)), ..self }
    }

    /// Fails where there is nothing to subscribe to.
    pub fn check_subs(&self) -> (r: Result<(), LighterError>)
        ensures
            match r {
                Ok(_) => !self.has_no_subs(),
                Err(e) => self.has_no_subs() && self.failure() == Some(e@),
            },
    {
        if self.accounts_subs.is_none() && self.order_books_subs.is_none()
            && self.trade_subs.is_none() {
            return Err(LighterError::generic("No subscriptions provided"));
        }
        Ok(())
    }

    /// The client, before anything has been received.
    pub fn build(self) -> (r: Result<WsClient<F1, F2, F3>, LighterError>)
        ensures
            match r {
                Ok(client) => {
                    &&& self.failure() is None
                    &&& client.wf()
                    &&& is_new_client(
                        subs_view(self.order_books_subs),
                        subs_view(self.accounts_subs),
                        subs_view(self.trade_subs),
                        client@,
                    )
                    &&& client.on_order_book_update == handler_of(self.order_books_subs)
                    &&& client.on_account_update == handler_of(self.accounts_subs)
                    &&& client.on_trade_update == handler_of(self.trade_subs)
                },
                Err(e) => self.failure() == Some(e@),
            },
    {
        if let Err(e) = self.check_subs() {
            return Err(e);
        }
        let (order_books, on_order_book_update) = match self.order_books_subs {
            Some((ids, handler)) => (Some(new_states(&ids)), Some(handler)),
            None => (None, None),
        };
        let mut account_channels: TextMap<AccountChannelMeta> = TextMap::new();
        assert(channels_view(account_channels) =~= Map::<Seq<char>, (Seq<char>, bool)>::empty());
        let (accounts, on_account_update) = match self.accounts_subs {
            Some((raws, handler)) => {
                if raws.len() == 0 {
                    return Err(LighterError::config("Expected at least one account subscription"));
                }
                match new_accounts(&raws) {
                    Ok((states, channels)) => {
                        account_channels = channels;
                        (Some(states), Some(handler))
                    },
                    Err(e) => {
                        return Err(e);
                    },
                }
            },
            None => (None, None),
        };
        let (trades, on_trade_update) = match self.trade_subs {
            Some((ids, handler)) => (Some(new_states(&ids)), Some(handler)),
            None => (None, None),
        };
        let client = WsClient {
            order_books,
            accounts,
            trades,
            account_channels,
            on_order_book_update,
            on_account_update,
            on_trade_update,
        };
        proof {
            if let Some(raws) = subs_view(self.accounts_subs) {
                lemma_channels_wf(raws, client@);
            }
        }
        Ok(client)
    }
}

/// The channels of new account subscriptions have their keys among the states.
proof fn lemma_channels_wf(raws: Seq<Seq<char>>, client: ClientView)
    requires
        client.accounts == Some(fresh_states(sub_keys(parsed_subs(raws)))),
        are_channels_of(parsed_subs(raws), client.channels),
    ensures
        client.wf(),
{
    let subs = parsed_subs(raws);
    assert forall|c: Seq<char>| #[trigger] client.channels.contains_key(
        c,
    ) implies client.accounts->0.contains_key(client.channels[c].0) by {
        let i = choose|i: int| 0 <= i < subs.len() && (#[trigger] subs[i]).channel() == c;
        assert(client.channels[c] == (subs[i].key(), true));
        assert(sub_keys(subs)[i] == subs[i].key());
    }
}

impl<F1, F2, F3> WsClient<F1, F2, F3> {
    /// A builder of a client that subscribes to nothing yet.
    pub fn builder() -> (r: WsClientBuilder<F1, F2, F3>)
        ensures
            r == (WsClientBuilder::<F1, F2, F3> {
                config: None,
                order_books_subs: None,
                accounts_subs: None,
                trade_subs: None,
            }),
    {
        WsClientBuilder {
            config: None,
            order_books_subs: None,
            accounts_subs: None,
            trade_subs: None,
        }
    }
}

/// A new client needs a token exactly where it subscribes to accounts.
pub proof fn token_is_needed_for_accounts(
    order_books: Option<Seq<Seq<char>>>,
    accounts: Option<Seq<Seq<char>>>,
    trades: Option<Seq<Seq<char>>>,
    client: ClientView,
)
    requires
        is_new_client(order_books, accounts, trades, client),
        accounts matches Some(raws) ==> raws.len() > 0,
    ensures
        accounts is Some <==> exists|c: Seq<char>| #[trigger]
            client.channels.contains_key(c) && client.channels[c].1,
{
    if let Some(raws) = accounts {
        let sub = parsed_subs(raws)[0];
        assert(client.channels.contains_key(sub.channel()));
    }
}

/// The account channels of a new client are the channels of account subscriptions.
pub proof fn new_channels_are_account_channels(
    order_books: Option<Seq<Seq<char>>>,
    accounts: Option<Seq<Seq<char>>>,
    trades: Option<Seq<Seq<char>>>,
    client: ClientView,
)
    requires
        is_new_client(order_books, accounts, trades, client),
    ensures
        are_account_channels(client.channels),
{
    if let Some(raws) = accounts {
        let subs = parsed_subs(raws);
        assert forall|c: Seq<char>| #[trigger] client.channels.contains_key(c) implies exists|
            sub: SubscriptionView,
        | #[trigger] sub.channel() == c by {
            let i = choose|i: int| 0 <= i < subs.len() && (#[trigger] subs[i]).channel() == c;
            assert(subs[i].channel() == c);
        }
    }
}

/// Neither the order of a list nor what occurs twice in it makes a difference to what is
/// subscribed to.
pub proof fn subscriptions_are_a_set(a: Seq<Seq<char>>, b: Seq<Seq<char>>)
    requires
        forall|id: Seq<char>| #[trigger] a.contains(id) <==> b.contains(id),
    ensures
        fresh_states(a) == fresh_states(b),
{
    assert(fresh_states(a) =~= fresh_states(b));
}

proof fn lemma_no_failure(raws: Seq<Seq<char>>)
    requires
        forall|i: int| 0 <= i < raws.len() ==> parse_outcome(#[trigger] raws[i]) is Ok,
    ensures
        first_failure(raws) is None,
    decreases raws.len(),
{
    if raws.len() > 0 {
        let shorter = raws.drop_last();
        assert forall|i: int| 0 <= i < shorter.len() implies parse_outcome(
            #[trigger] shorter[i],
        ) is Ok by {
            assert(shorter[i] == raws[i]);
        }
        lemma_no_failure(shorter);
        assert(parse_outcome(raws[raws.len() - 1]) is Ok);
    }
}

impl<F1, F2, F3> WsClientBuilder<F1, F2, F3> {
    /// Anything to subscribe to is enough to build a client, if account subscriptions, where they
    /// are asked for, are there and each of them can be parsed.
    pub proof fn anything_to_subscribe_to_is_enough(self)
        requires
            self.order_books_subs is Some || self.accounts_subs is Some || self.trade_subs is Some,
            self.accounts_subs is Some ==> {
                let list = (self.accounts_subs->0).0@;
                &&& list.len() > 0
                &&& forall|i: int|
                    0 <= i < list.len() ==> parse_outcome((#[trigger] list[i])@) is Ok
            },
        ensures
            self.failure() is None,
            !self.has_no_subs(),
    {
        if let Some((list, _)) = self.accounts_subs {
            let raws = list_view(list);
            assert forall|i: int| 0 <= i < raws.len() implies parse_outcome(
                #[trigger] raws[i],
            ) is Ok by {
                assert(raws[i] == list@[i]@);
            }
            lemma_no_failure(raws);
        }
    }

    /// Without account subscriptions, order books or trades are enough, whichever markets they
    /// are of, even none.
    pub proof fn order_books_or_trades_are_enough(self)
        requires
            self.accounts_subs is None,
            self.order_books_subs is Some || self.trade_subs is Some,
        ensures
            self.failure() is None,
            !self.has_no_subs(),
    {
    }

    /// No client can be built from nothing, from an empty list of account subscriptions, or where
    /// one of them cannot be parsed: then the first such one says why.
    pub proof fn what_cannot_be_built(self, k: int)
        ensures
            self.order_books_subs is None && self.accounts_subs is None && self.trade_subs is None
                ==> self.has_no_subs() && self.failure() == Some(
                ErrorView::Generic("No subscriptions provided"@),
            ),
            self.accounts_subs is Some && (self.accounts_subs->0).0@.len() == 0 ==> self.failure()
                == Some(ErrorView::Config("Expected at least one account subscription"@)),
            self.accounts_subs is Some ==> {
                let list = (self.accounts_subs->0).0@;
                0 <= k < list.len() && (forall|i: int|
                    0 <= i < k ==> parse_outcome((#[trigger] list[i])@) is Ok) && parse_outcome(
                    list[k]@,
                ) is Err ==> self.failure() == Some(parse_outcome(list[k]@)->Err_0)
            },
    {
        if let Some((list, _)) = self.accounts_subs {
            let raws = list_view(list);
            if 0 <= k < raws.len() && (forall|i: int|
                0 <= i < k ==> parse_outcome((#[trigger] list@[i])@) is Ok) && parse_outcome(
                list@[k]@,
            ) is Err {
                let head = raws.take(k);
                assert forall|i: int| 0 <= i < head.len() implies parse_outcome(
                    #[trigger] head[i],
                ) is Ok by {
                    assert(head[i] == list@[i]@);
                }
                lemma_no_failure(head);
                let part = raws.take(k + 1);
                assert(part.drop_last() =~= head);
                assert(part.last() == list@[k]@);
                lemma_failure_stays(raws, k + 1);
            }
        }
    }

    /// A client gets the handlers and the lists that its builder was given.
    pub proof fn lists_and_handlers_are_those_given(self, i: int)
        ensures
            handler_of(self.order_books_subs) is Some <==> self.order_books_subs is Some,
            handler_of(self.accounts_subs) is Some <==> self.accounts_subs is Some,
            handler_of(self.trade_subs) is Some <==> self.trade_subs is Some,
            self.order_books_subs matches Some((list, f)) ==> {
                &&& handler_of(self.order_books_subs) == Some(f)
                &&& subs_view(self.order_books_subs) is Some
                &&& subs_view(self.order_books_subs)->0.len() == list@.len()
                &&& 0 <= i < list@.len() ==> subs_view(self.order_books_subs)->0[i] == list@[i]@
            },
            self.accounts_subs matches Some((list, f)) ==> {
                &&& handler_of(self.accounts_subs) == Some(f)
                &&& subs_view(self.accounts_subs) is Some
                &&& subs_view(self.accounts_subs)->0.len() == list@.len()
                &&& 0 <= i < list@.len() ==> subs_view(self.accounts_subs)->0[i] == list@[i]@
            },
            self.trade_subs matches Some((list, f)) ==> {
                &&& handler_of(self.trade_subs) == Some(f)
                &&& subs_view(self.trade_subs) is Some
                &&& subs_view(self.trade_subs)->0.len() == list@.len()
                &&& 0 <= i < list@.len() ==> subs_view(self.trade_subs)->0[i] == list@[i]@
            },
            self.order_books_subs is None ==> subs_view(self.order_books_subs) is None,
            self.accounts_subs is None ==> subs_view(self.accounts_subs) is None,
            self.trade_subs is None ==> subs_view(self.trade_subs) is None,
    {
    }
}

/// A new client is subscribed to the order books and trades that are asked for and no others,
/// each group exactly where it is asked for, and has received nothing for any of them.
pub proof fn new_clients_have_the_markets_asked_for(
    order_books: Option<Seq<Seq<char>>>,
    accounts: Option<Seq<Seq<char>>>,
    trades: Option<Seq<Seq<char>>>,
    client: ClientView,
    id: Seq<char>,
)
    requires
        is_new_client(order_books, accounts, trades, client),
    ensures
        client.order_books is Some <==> order_books is Some,
        client.accounts is Some <==> accounts is Some,
        client.trades is Some <==> trades is Some,
        order_books is Some ==> {
            &&& client.order_books->0.contains_key(id) <==> exists|i: int|
                0 <= i < order_books->0.len() && #[trigger] order_books->0[i] == id
            &&& client.order_books->0.contains_key(id) ==> client.order_books->0[id] is None
        },
        trades is Some ==> {
            &&& client.trades->0.contains_key(id) <==> exists|i: int|
                0 <= i < trades->0.len() && #[trigger] trades->0[i] == id
            &&& client.trades->0.contains_key(id) ==> client.trades->0[id] is None
        },
        accounts is None ==> !client.channels.contains_key(id),
{
}

/// Each account subscription that is asked for gives a new client its channel, which needs a
/// token, and a place for what is received on it, in which there is nothing yet: for an account
/// under its identifier, for an account in a market under the two with a slash between them.
pub proof fn new_clients_have_the_accounts_asked_for(
    order_books: Option<Seq<Seq<char>>>,
    accounts: Option<Seq<Seq<char>>>,
    trades: Option<Seq<Seq<char>>>,
    client: ClientView,
    i: int,
)
    requires
        is_new_client(order_books, accounts, trades, client),
        accounts is Some,
        0 <= i < accounts->0.len(),
        parse_outcome(accounts->0[i]) is Ok,
    ensures
        parse_outcome(accounts->0[i])->Ok_0 matches SubscriptionView::AccountAll { account_id } ==> {
            let channel = "account_all/"@ + account_id;
            &&& client.channels.contains_key(channel)
            &&& client.channels[channel] == (account_id, true)
            &&& client.accounts->0.contains_key(account_id)
            &&& client.accounts->0[account_id] is None
        },
        parse_outcome(accounts->0[i])->Ok_0 matches SubscriptionView::AccountMarket {
            market_id,
            account_id,
        } ==> {
            let key = market_id + seq!['/'] + account_id;
            let channel = "account_market/"@ + key;
            &&& client.channels.contains_key(channel)
            &&& client.channels[channel] == (key, true)
            &&& client.accounts->0.contains_key(key)
            &&& client.accounts->0[key] is None
        },
{
    let subs = parsed_subs(accounts->0);
    let sub = parse_outcome(accounts->0[i])->Ok_0;
    assert(subs[i] == sub);
    assert(sub_keys(subs)[i] == sub.key());
    match sub {
        SubscriptionView::AccountAll { account_id } => {
            channels_are_keys_after_a_prefix(account_id, account_id);
        },
        SubscriptionView::AccountMarket { market_id, account_id } => {
            channels_are_keys_after_a_prefix(market_id, account_id);
        },
    }
}

/// A new client has no channel and no account but those of the account subscriptions that are
/// asked for.
pub proof fn new_clients_have_no_other_accounts(
    order_books: Option<Seq<Seq<char>>>,
    accounts: Option<Seq<Seq<char>>>,
    trades: Option<Seq<Seq<char>>>,
    client: ClientView,
    name: Seq<char>,
)
    requires
        is_new_client(order_books, accounts, trades, client),
        accounts is Some,
    ensures
        client.channels.contains_key(name) ==> exists|i: int|
            0 <= i < accounts->0.len() && (parse_outcome(
                #[trigger] accounts->0[i],
            )->Ok_0).channel() == name,
        client.accounts->0.contains_key(name) ==> exists|i: int|
            0 <= i < accounts->0.len() && (parse_outcome(
                #[trigger] accounts->0[i],
            )->Ok_0).key() == name,
{
    let raws = accounts->0;
    let subs = parsed_subs(raws);
    if client.channels.contains_key(name) {
        let i = choose|i: int| 0 <= i < subs.len() && (#[trigger] subs[i]).channel() == name;
        assert((parse_outcome(raws[i])->Ok_0).channel() == name);
    }
    if client.accounts->0.contains_key(name) {
        let keys = sub_keys(subs);
        let i = choose|i: int| 0 <= i < keys.len() && keys[i] == name;
        assert(subs[i].key() == name);
        assert((parse_outcome(raws[i])->Ok_0).key() == name);
    }
}

} // verus!
