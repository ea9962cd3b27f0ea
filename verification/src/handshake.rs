//! Subscribing, once the exchange says that the connection stands.

use crate::client::{channels_view, states_view, States, WsClient};
use crate::error::{ErrorView, LighterError};
use crate::json::JsonView;
use crate::subscription::{AccountChannelMeta, SubscriptionView};
use crate::text_map::{lemma_entry, lemma_position, position, TextMap};
use crate::wire::{
    object_text, requests_hold_nothing_else, subscribe_members, subscribe_request,
};
use vstd::prelude::*;

verus! {

/// A channel to subscribe to.
#[derive(Debug, PartialEq, Eq)]
pub struct ChannelRequest {
    pub channel: String,
    pub requires_auth: bool,
}

/// The name of a channel, and whether subscribing to it needs a token.
pub type RequestView = (Seq<char>, bool);

/// What several requests ask for.
pub open spec fn request_views(requests: Seq<ChannelRequest>) -> Seq<RequestView> {
    requests.map_values(|r: ChannelRequest| (r.channel@, r.requires_auth))
}

/// Where the subscribing stands.
pub struct HandshakeView {
    /// Every channel to subscribe to, in order.
    pub requests: Seq<RequestView>,
    /// How many of them have been subscribed to.
    pub sent: int,
    /// Whether a token can be had.
    pub has_signer: bool,
    /// The token, once it is there.
    pub token: Option<Seq<char>>,
}

/// What is to be done next.
pub enum StepView {
    Send(Seq<char>),
    FetchToken,
    Done,
}

/// The text of the request to subscribe to a channel.
pub open spec fn request_text(request: RequestView, token: Option<Seq<char>>) -> Seq<char> {
    object_text(
        subscribe_members(
            request.0,
            if request.1 {
                token
            } else {
                None
            },
        ),
    )
}

impl HandshakeView {
    pub open spec fn wf(self) -> bool {
        0 <= self.sent <= self.requests.len()
    }

    /// What is to be done next: send the next request, with the token where it needs one, once
    /// the token is there. A token that is needed and cannot be had is an error.
    pub open spec fn step(self) -> Result<StepView, ErrorView> {
        if self.sent >= self.requests.len() {
            Ok(StepView::Done)
        } else {
            let request = self.requests[self.sent];
            if request.1 && !self.has_signer {
                Err(
                    ErrorView::Auth("Account market subscriptions require authenticated config"@),
                )
            } else if request.1 && self.token is None {
                Ok(StepView::FetchToken)
            } else {
                Ok(StepView::Send(request_text(request, self.token)))
            }
        }
    }

    /// The subscribing with one more request sent.
    pub open spec fn advanced(self) -> HandshakeView {
        HandshakeView { sent: self.sent + 1, ..self }
    }

    /// The subscribing with a token.
    pub open spec fn with_token(self, token: Seq<char>) -> HandshakeView {
        HandshakeView { token: Some(token), ..self }
    }
}

/// What is to be done next.
#[derive(Debug, PartialEq, Eq)]
pub enum HandshakeStep {
    /// Send this text.
    Send(String),
    /// Fetch a token and supply it.
    FetchToken,
    /// Nothing: every channel has been subscribed to.
    Done,
}

impl View for HandshakeStep {
    type V = StepView;

    open spec fn view(&self) -> StepView {
        match *self {
            HandshakeStep::Send(text) => StepView::Send(text@),
            HandshakeStep::FetchToken => StepView::FetchToken,
            HandshakeStep::Done => StepView::Done,
        }
    }
}

/// The subscribing to the channels of a client, one request after the other. One token serves
/// for all the requests that need one.
#[derive(Debug)]
pub struct Handshake {
    pub requests: Vec<ChannelRequest>,
    pub sent: usize,
    pub has_signer: bool,
    pub token: Option<String>,
}

impl View for Handshake {
    type V = HandshakeView;

    open spec fn view(&self) -> HandshakeView {
        HandshakeView {
            requests: request_views(self.requests@),
            sent: self.sent as int,
            has_signer: self.has_signer,
            token: match self.token {
                Some(token) => Some(token@),
                None => None,
            },
        }
    }
}

impl Handshake {
    /// What is to be done next. A request that is handed out counts as sent.
    pub fn next_step(&mut self) -> (r: Result<HandshakeStep, LighterError>)
        ensures
            old(self)@.wf() ==> final(self)@.wf(),
            match r {
                Ok(step) => old(self)@.step() == Ok::<StepView, ErrorView>(step@),
                Err(e) => old(self)@.step() == Err::<StepView, ErrorView>(e@),
            },
            final(self)@ == if old(self)@.step() matches Ok(StepView::Send(_)) {
                old(self)@.advanced()
            } else {
                old(self)@
            },
    {
        assert(request_views(self.requests@).len() == self.requests@.len());
        if self.sent >= self.requests.len() {
            return Ok(HandshakeStep::Done);
        }
        let request = &self.requests[self.sent];
        assert(request_views(self.requests@)[self.sent as int] == (
            request.channel@,
            request.requires_auth,
        ));
        let text = if request.requires_auth {
            if !self.has_signer {
                return Err(
                    LighterError::auth(
                        "Account market subscriptions require authenticated config",
                    ),
                );
            }
            match &self.token {
                Some(token) => subscribe_request(request.channel.as_str(), Some(token.as_str())),
                None => {
                    return Ok(HandshakeStep::FetchToken);
                },
            }
        } else {
            subscribe_request(request.channel.as_str(), None)
        };
        self.sent = self.sent + 1;
        Ok(HandshakeStep::Send(text))
    }

    /// Takes the token that was fetched.
    pub fn supply_token(&mut self, token: String)
        ensures
            final(self)@ == old(self)@.with_token(token@),
    {
        self.token = Some(token);
    }

    /// The error where a request could not be sent, for the reason `detail`.
    pub fn send_failure(detail: &str) -> (r: LighterError)
        ensures
            r@ == ErrorView::Generic("Unable to send `connected` response: "@ + detail@),
    {
        let mut message = "Unable to send `connected` response: ".to_owned();
        message.append(detail);
        LighterError::Generic(message)
    }
}

/// The requests for the channels `prefix` followed by each of `ids`.
pub open spec fn id_requests(prefix: Seq<char>, ids: Seq<Seq<char>>) -> Seq<RequestView> {
    ids.map_values(|id: Seq<char>| (prefix + id, false))
}

/// The requests for the channels of a subscription, where there is one.
pub open spec fn group_requests(prefix: Seq<char>, group: Option<States>) -> Seq<RequestView> {
    match group {
        Some(states) => id_requests(prefix, states.keys()),
        None => Seq::empty(),
    }
}

/// The requests for account channels.
pub open spec fn channel_requests(channels: TextMap<AccountChannelMeta>) -> Seq<RequestView> {
    channels.entries@.map_values(|e: (String, AccountChannelMeta)| (e.0@, e.1.requires_auth))
}

/// Adds the requests for the channels of a subscription.
fn push_group(requests: &mut Vec<ChannelRequest>, prefix: &str, group: &Option<States>)
    ensures
        request_views(final(requests)@) == request_views(old(requests)@) + group_requests(
            prefix@,
            *group,
        ),
{
    let ghost start = request_views(requests@);
    match group {
        Some(states) => {
            let ghost keys = states.keys();
            assert(start + id_requests(prefix@, keys.take(0)) =~= start);
            for i in 0..states.entries.len()
                invariant
                    keys == states.keys(),
                    request_views(requests@) == start + id_requests(prefix@, keys.take(i as int)),
            {
                let ghost held = requests@;
                let mut channel = prefix.to_owned();
                channel.append(states.entries[i].0.as_str());
                assert(channel@ == prefix@ + keys[i as int]);
                requests.push(ChannelRequest { channel, requires_auth: false });
                assert(request_views(requests@) =~= request_views(held).push(
                    (prefix@ + keys[i as int], false),
                ));
                assert(id_requests(prefix@, keys.take(i + 1)) =~= id_requests(
                    prefix@,
                    keys.take(i as int),
                ).push((prefix@ + keys[i as int], false)));
            }
            assert(keys.take(keys.len() as int) =~= keys);
        },
        None => {
            assert(start + group_requests(prefix@, *group) =~= start);
        },
    }
}

impl<F1, F2, F3> WsClient<F1, F2, F3> {
    /// Every channel that the client subscribes to: order books, then accounts, then trades.
    pub open spec fn all_requests(self) -> Seq<RequestView> {
        group_requests("order_book/"@, self.order_books) + channel_requests(self.account_channels)
            + group_requests("trade/"@, self.trades)
    }

    /// Starts to subscribe to the channels; `has_signer` tells whether a token can be had.
    pub fn handle_connected(&self, has_signer: bool) -> (r: Handshake)
        ensures
            r@ == (HandshakeView {
                requests: self.all_requests(),
                sent: 0,
                has_signer,
                token: None,
            }),
            r@.wf(),
    {
        let mut requests: Vec<ChannelRequest> = Vec::new();
        assert(request_views(requests@) =~= Seq::<RequestView>::empty());
        push_group(&mut requests, "order_book/", &self.order_books);
        let ghost books = group_requests("order_book/"@, self.order_books);
        let ghost accounts = channel_requests(self.account_channels);
        assert(request_views(requests@) =~= books);
        assert(books + accounts.take(0) =~= books);
        for i in 0..self.account_channels.entries.len()
            invariant
                accounts == channel_requests(self.account_channels),
                request_views(requests@) == books + accounts.take(i as int),
        {
            let ghost held = requests@;
            let entry = &self.account_channels.entries[i];
            requests.push(
                ChannelRequest { channel: entry.0.clone(), requires_auth: entry.1.requires_auth },
            );
            assert(request_views(requests@) =~= request_views(held).push(accounts[i as int]));
            assert(accounts.take(i + 1) =~= accounts.take(i as int).push(accounts[i as int]));
        }
        assert(accounts.take(accounts.len() as int) =~= accounts);
        push_group(&mut requests, "trade/", &self.trades);
        Handshake { requests, sent: 0, has_signer, token: None }
    }

    /// Whether a token is needed to subscribe to the channels.
    pub fn needs_auth_token(&self) -> (r: bool)
        requires
            self.wf(),
        ensures
            r == exists|c: Seq<char>| #[trigger]
                self@.channels.contains_key(c) && self@.channels[c].1,
    {
        let ghost entries = self.account_channels.entries@;
        for i in 0..self.account_channels.entries.len()
            invariant
                self.wf(),
                entries == self.account_channels.entries@,
                forall|j: int| 0 <= j < i ==> !(#[trigger] entries[j]).1.requires_auth,
        {
            if self.account_channels.entries[i].1.requires_auth {
                proof {
                    lemma_entry(entries, i as int);
                    assert(self@.channels.contains_key(entries[i as int].0@));
                }
                return true;
            }
        }
        assert forall|c: Seq<char>| #[trigger]
            self@.channels.contains_key(c) implies !self@.channels[c].1 by {
            lemma_position(entries, c);
        }
        false
    }
}

/// Everything that is done from here on, where `token` is what is fetched.
pub open spec fn transcript(h: HandshakeView, token: Seq<char>) -> Seq<StepView>
    decreases
            h.requests.len() - h.sent,
            if h.token is None {
                1int
            } else {
                0int
            },
{
    match h.step() {
        Ok(StepView::Send(text)) => seq![StepView::Send(text)] + transcript(h.advanced(), token),
        Ok(StepView::FetchToken) => seq![StepView::FetchToken] + transcript(
            h.with_token(token),
            token,
        ),
        _ => Seq::empty(),
    }
}

/// The texts that are sent, in order.
pub open spec fn sent_texts(steps: Seq<StepView>) -> Seq<Seq<char>>
    decreases steps.len(),
{
    if steps.len() == 0 {
        Seq::empty()
    } else {
        match steps[0] {
            StepView::Send(text) => seq![text] + sent_texts(steps.drop_first()),
            _ => sent_texts(steps.drop_first()),
        }
    }
}

/// How often a token is fetched.
pub open spec fn fetches(steps: Seq<StepView>) -> nat
    decreases steps.len(),
{
    if steps.len() == 0 {
        0
    } else {
        fetches(steps.drop_first()) + if steps[0] is FetchToken {
            1nat
        } else {
            0
        }
    }
}

/// The token that serves: the one that is there, or the one that is fetched.
pub open spec fn token_used(h: HandshakeView, token: Seq<char>) -> Seq<char> {
    match h.token {
        Some(held) => held,
        None => token,
    }
}

/// Whether one of the requests that are left needs a token.
pub open spec fn needs_token(h: HandshakeView) -> bool {
    exists|i: int| h.sent <= i < h.requests.len() && (#[trigger] h.requests[i]).1
}

/// Where a token can be had or none is needed, each request that is left is sent once and in
/// order, those that need a token all with the same one, and the token is fetched once if one of
/// them needs it and it is not there yet, else not at all.
#[verifier::rlimit(40)]
pub proof fn each_request_is_sent_once(h: HandshakeView, token: Seq<char>)
    requires
        h.wf(),
        h.has_signer || !needs_token(h),
    ensures
        sent_texts(transcript(h, token)) == h.requests.skip(h.sent).map_values(
            |r: RequestView| request_text(r, Some(token_used(h, token))),
        ),
        fetches(transcript(h, token)) == if needs_token(h) && h.token is None {
            1nat
        } else {
            0
        },
    decreases
            h.requests.len() - h.sent,
            if h.token is None {
                1int
            } else {
                0int
            },
{
    let steps = transcript(h, token);
    let used = token_used(h, token);
    let text_of = |r: RequestView| request_text(r, Some(used));
    if h.sent < h.requests.len() {
        let request = h.requests[h.sent];
        let rest = h.requests.skip(h.sent);
        if request.1 && h.token is None {
            each_request_is_sent_once(h.with_token(token), token);
            let tail = transcript(h.with_token(token), token);
            assert(steps =~= seq![StepView::FetchToken] + tail);
            assert(steps.drop_first() =~= tail);
            assert(needs_token(h));
        } else {
            let next = h.advanced();
            if needs_token(next) {
                let i = choose|i: int|
                    next.sent <= i < next.requests.len() && (#[trigger] next.requests[i]).1;
                assert(h.requests[i].1);
            }
            if needs_token(h) && !request.1 {
                let i = choose|i: int|
                    h.sent <= i < h.requests.len() && (#[trigger] h.requests[i]).1;
                assert(next.requests[i].1);
            }
            each_request_is_sent_once(next, token);
            let tail = transcript(next, token);
            let text = request_text(request, h.token);
            assert(text == text_of(request));
            assert(steps =~= seq![StepView::Send(text)] + tail);
            assert(steps.drop_first() =~= tail);
            assert(rest.map_values(text_of) =~= seq![text] + next.requests.skip(
                next.sent,
            ).map_values(text_of));
        }
    } else {
        assert(h.requests.skip(h.sent).map_values(text_of) =~= Seq::<Seq<char>>::empty());
    }
}

/// The channels that several requests name.
pub open spec fn names_of(requests: Seq<RequestView>) -> Seq<Seq<char>> {
    requests.map_values(|r: RequestView| r.0)
}

/// Whether `request` is for the channel `prefix` followed by one of the identifiers that `states`
/// are held for.
pub open spec fn is_id_request(
    prefix: Seq<char>,
    states: Map<Seq<char>, Option<JsonView>>,
    request: RequestView,
) -> bool {
    exists|id: Seq<char>| #[trigger] states.contains_key(id) && request == (prefix + id, false)
}

/// Whether every account channel of a client is the channel of an account subscription.
pub open spec fn are_account_channels(channels: Map<Seq<char>, (Seq<char>, bool)>) -> bool {
    forall|c: Seq<char>| #[trigger]
        channels.contains_key(c) ==> exists|sub: SubscriptionView| #[trigger] sub.channel() == c
}

proof fn lemma_group_requests(prefix: Seq<char>, group: Option<States>)
    requires
        group matches Some(states) ==> states.wf(),
    ensures
        names_of(group_requests(prefix, group)).no_duplicates(),
        forall|i: int|
            0 <= i < group_requests(prefix, group).len() ==> prefix.is_prefix_of(
                (#[trigger] group_requests(prefix, group)[i]).0,
            ),
        group matches Some(states) ==> forall|id: Seq<char>| #[trigger]
            states@.contains_key(id) ==> group_requests(prefix, group).contains(
                (prefix + id, false),
            ),
        forall|i: int|
            0 <= i < group_requests(prefix, group).len() ==> group is Some && is_id_request(
                prefix,
                states_view(group->0),
                #[trigger] group_requests(prefix, group)[i],
            ),
{
    if let Some(states) = group {
        let requests = group_requests(prefix, group);
        let keys = states.keys();
        assert forall|i: int, j: int|
            0 <= i < requests.len() && 0 <= j < requests.len() && i != j implies names_of(
            requests,
        )[i] != names_of(requests)[j] by {
            assert(keys[i] != keys[j]);
            if prefix + keys[i] == prefix + keys[j] {
                assert(keys[i] =~= (prefix + keys[i]).skip(prefix.len() as int));
                assert(keys[j] =~= (prefix + keys[j]).skip(prefix.len() as int));
            }
        }
        assert forall|i: int| 0 <= i < requests.len() implies prefix.is_prefix_of(
            (#[trigger] requests[i]).0,
        ) by {
            assert((prefix + keys[i]).take(prefix.len() as int) =~= prefix);
        }
        assert forall|id: Seq<char>| #[trigger] states@.contains_key(id) implies requests.contains(
            (prefix + id, false),
        ) by {
            lemma_position(states.entries@, id);
            let p = position(states.entries@, id);
            assert(keys[p] == id);
            assert(requests[p] == (prefix + id, false));
        }
        assert forall|i: int| 0 <= i < requests.len() implies is_id_request(
            prefix,
            states_view(states),
            #[trigger] requests[i],
        ) by {
            lemma_entry(states.entries@, i);
            assert(keys[i] == states.entries@[i].0@);
            assert(states_view(states).contains_key(keys[i]));
            assert(requests[i] == (prefix + keys[i], false));
        }
    }
}

proof fn lemma_channel_requests(channels: TextMap<AccountChannelMeta>)
    requires
        channels.wf(),
    ensures
        names_of(channel_requests(channels)).no_duplicates(),
        forall|i: int|
            0 <= i < channel_requests(channels).len() ==> {
                let request = #[trigger] channel_requests(channels)[i];
                &&& channels_view(channels).contains_key(request.0)
                &&& channels_view(channels)[request.0].1 == request.1
            },
        forall|c: Seq<char>| #[trigger]
            channels_view(channels).contains_key(c) ==> channel_requests(channels).contains(
                (c, channels_view(channels)[c].1),
            ),
{
    let requests = channel_requests(channels);
    let entries = channels.entries@;
    assert forall|i: int, j: int|
        0 <= i < requests.len() && 0 <= j < requests.len() && i != j implies names_of(requests)[i]
        != names_of(requests)[j] by {
        assert(channels.keys()[i] != channels.keys()[j]);
    }
    assert forall|i: int| 0 <= i < requests.len() implies {
        let request = #[trigger] requests[i];
        &&& channels_view(channels).contains_key(request.0)
        &&& channels_view(channels)[request.0].1 == request.1
    } by {
        lemma_entry(entries, i);
    }
    assert forall|c: Seq<char>| #[trigger] channels_view(channels).contains_key(
        c,
    ) implies requests.contains((c, channels_view(channels)[c].1)) by {
        lemma_position(entries, c);
        let p = position(entries, c);
        assert(requests[p] == (c, channels_view(channels)[c].1));
    }
}

impl<F1, F2, F3> WsClient<F1, F2, F3> {
    /// Whether `request` is for something that the client is subscribed to.
    pub open spec fn is_subscribed(self, request: RequestView) -> bool {
        ||| self@.order_books is Some && is_id_request(
            "order_book/"@,
            self@.order_books->0,
            request,
        )
        ||| self@.trades is Some && is_id_request("trade/"@, self@.trades->0, request)
        ||| self@.channels.contains_key(request.0) && self@.channels[request.0].1 == request.1
    }

    /// The requests of a client name every channel that it is subscribed to, no other, and none
    /// twice.
    #[verifier::rlimit(40)]
    pub proof fn requests_cover_subscriptions(self)
        requires
            self.wf(),
            are_account_channels(self@.channels),
        ensures
            names_of(self.all_requests()).no_duplicates(),
            forall|i: int|
                0 <= i < self.all_requests().len() ==> self.is_subscribed(
                    #[trigger] self.all_requests()[i],
                ),
            self@.order_books matches Some(states) ==> forall|id: Seq<char>| #[trigger]
                states.contains_key(id) ==> self.all_requests().contains(
                    ("order_book/"@ + id, false),
                ),
            self@.trades matches Some(states) ==> forall|id: Seq<char>| #[trigger]
                states.contains_key(id) ==> self.all_requests().contains(("trade/"@ + id, false)),
            forall|c: Seq<char>| #[trigger]
                self@.channels.contains_key(c) ==> self.all_requests().contains(
                    (c, self@.channels[c].1),
                ),
    {
        let books = group_requests("order_book/"@, self.order_books);
        let accounts = channel_requests(self.account_channels);
        let trades = group_requests("trade/"@, self.trades);
        let all = self.all_requests();
        lemma_group_requests("order_book/"@, self.order_books);
        lemma_group_requests("trade/"@, self.trades);
        lemma_channel_requests(self.account_channels);
        reveal_strlit("order_book/");
        reveal_strlit("trade/");
        reveal_strlit("account_all/");
        reveal_strlit("account_market/");
        assert("order_book/"@[0] == 'o');
        assert("trade/"@[0] == 't');
        assert forall|i: int| 0 <= i < all.len() implies (#[trigger] all[i]).0.len() > 0
            && all[i].0[0] == if i < books.len() {
            'o'
        } else if i < books.len() + accounts.len() {
            'a'
        } else {
            't'
        } by {
            if i < books.len() {
                assert(all[i] == books[i]);
                assert(books[i].0.take("order_book/"@.len() as int)[0] == 'o');
            } else if i < books.len() + accounts.len() {
                let c = accounts[i - books.len()].0;
                assert(all[i].0 == c);
                let sub = choose|sub: SubscriptionView| #[trigger] sub.channel() == c;
                assert("account_all/"@[0] == 'a');
                assert("account_market/"@[0] == 'a');
                assert(sub.channel()[0] == 'a');
            } else {
                let j = i - books.len() - accounts.len();
                assert(all[i] == trades[j]);
                assert(trades[j].0.take("trade/"@.len() as int)[0] == 't');
            }
        }
        assert forall|i: int, j: int|
            0 <= i < all.len() && 0 <= j < all.len() && i != j implies names_of(all)[i]
            != names_of(all)[j] by {
            let (m, n) = (books.len() as int, (books.len() + accounts.len()) as int);
            if all[i].0 == all[j].0 {
                assert(all[i].0[0] == all[j].0[0]);
                if i < m {
                    assert(names_of(books)[i] == names_of(books)[j]);
                } else if i < n {
                    assert(names_of(accounts)[i - m] == names_of(accounts)[j - m]);
                } else {
                    assert(names_of(trades)[i - n] == names_of(trades)[j - n]);
                }
            }
        }
        assert forall|i: int| 0 <= i < all.len() implies self.is_subscribed(#[trigger] all[i]) by {
            let (m, n) = (books.len() as int, (books.len() + accounts.len()) as int);
            if i < m {
                assert(all[i] == books[i]);
            } else if i < n {
                assert(all[i] == accounts[i - m]);
            } else {
                assert(all[i] == trades[i - n]);
            }
        }
        assert forall|r: RequestView|
            books.contains(r) || accounts.contains(r) || trades.contains(r) implies #[trigger]
        all.contains(r) by {
            if books.contains(r) {
                let k = choose|k: int| 0 <= k < books.len() && books[k] == r;
                assert(all[k] == r);
            } else if accounts.contains(r) {
                let k = choose|k: int| 0 <= k < accounts.len() && accounts[k] == r;
                assert(all[books.len() + k] == r);
            } else {
                let k = choose|k: int| 0 <= k < trades.len() && trades[k] == r;
                assert(all[books.len() + accounts.len() + k] == r);
            }
        }
    }

    /// Subscribing needs a token exactly where an account channel does, and a client that has a
    /// signer in that case sends all its requests.
    pub proof fn signer_is_enough(self, has_signer: bool, token: Seq<char>)
        requires
            self.wf(),
        ensures
            ({
                let h = HandshakeView {
                    requests: self.all_requests(),
                    sent: 0,
                    has_signer,
                    token: None,
                };
                &&& needs_token(h) <==> exists|c: Seq<char>| #[trigger]
                    self@.channels.contains_key(c) && self@.channels[c].1
                &&& has_signer || !needs_token(h) ==> sent_texts(transcript(h, token))
                    == self.all_requests().map_values(
                    |r: RequestView| request_text(r, Some(token)),
                )
            }),
    {
        let h = HandshakeView { requests: self.all_requests(), sent: 0, has_signer, token: None };
        if has_signer || !needs_token(h) {
            each_request_is_sent_once(h, token);
            assert(h.requests.skip(0) =~= h.requests);
        }
        let books = group_requests("order_book/"@, self.order_books);
        let accounts = channel_requests(self.account_channels);
        let entries = self.account_channels.entries@;
        lemma_channel_requests(self.account_channels);
        if needs_token(h) {
            let i = choose|i: int| 0 <= i < h.requests.len() && (#[trigger] h.requests[i]).1;
            let j = i - books.len();
            assert(h.requests[i] == accounts[j]);
            lemma_entry(entries, j);
            assert(self@.channels.contains_key(entries[j].0@));
            assert(self@.channels[entries[j].0@].1);
        }
        if exists|c: Seq<char>| #[trigger] self@.channels.contains_key(c) && self@.channels[c].1 {
            let c = choose|c: Seq<char>| #[trigger]
                self@.channels.contains_key(c) && self@.channels[c].1;
            let k = choose|k: int| 0 <= k < accounts.len() && accounts[k] == (c, true);
            assert(accounts.contains((c, true)));
            assert(h.requests[books.len() + k] == (c, true));
        }
    }
}

/// The next step is to send the next request: at once where it needs no token, with the token
/// where it needs one and it is there; else the token is fetched, and it is an error where it
/// cannot be. After the last request nothing is left to do.
pub proof fn steps_follow_the_requests(h: HandshakeView, channel: Seq<char>, token: Seq<char>)
    requires
        h.wf(),
    ensures
        h.sent == h.requests.len() <==> h.step() == Ok::<StepView, ErrorView>(StepView::Done),
        h.sent < h.requests.len() && h.requests[h.sent] == (channel, false) ==> h.step() == Ok::<
            StepView,
            ErrorView,
        >(StepView::Send(object_text(seq![("type"@, "subscribe"@), ("channel"@, channel)]))),
        h.sent < h.requests.len() && h.requests[h.sent] == (channel, true) ==> {
            &&& !h.has_signer ==> h.step() == Err::<StepView, ErrorView>(
                ErrorView::Auth("Account market subscriptions require authenticated config"@),
            )
            &&& h.has_signer && h.token is None ==> h.step() == Ok::<StepView, ErrorView>(
                StepView::FetchToken,
            )
            &&& h.has_signer && h.token == Some(token) ==> h.step() == Ok::<StepView, ErrorView>(
                StepView::Send(
                    object_text(
                        seq![("type"@, "subscribe"@), ("channel"@, channel), ("auth"@, token)],
                    ),
                ),
            )
        },
{
    requests_hold_nothing_else(channel, token, channel);
}

/// Sending a request moves on to the next one and changes nothing else; a token that is supplied
/// is the token from then on and changes nothing else.
pub proof fn steps_change_one_thing(h: HandshakeView, token: Seq<char>)
    ensures
        h.advanced().sent == h.sent + 1,
        h.advanced().requests == h.requests,
        h.advanced().has_signer == h.has_signer,
        h.advanced().token == h.token,
        h.with_token(token).token == Some(token),
        h.with_token(token).sent == h.sent,
        h.with_token(token).requests == h.requests,
        h.with_token(token).has_signer == h.has_signer,
{
}

/// A handshake shows the requests, the place, the signer and the token that it is made of.
pub proof fn handshakes_show_what_they_hold(h: Handshake, i: int)
    ensures
        h@.requests.len() == h.requests@.len(),
        0 <= i < h.requests@.len() ==> h@.requests[i] == (
            h.requests@[i].channel@,
            h.requests@[i].requires_auth,
        ),
        h@.sent == h.sent,
        h@.has_signer == h.has_signer,
        h.token is None <==> h@.token is None,
        h.token is Some ==> h@.token == Some(h.token->0@),
{
}

impl<F1, F2, F3> WsClient<F1, F2, F3> {
    /// The requests of a client are those for its order books, then those for its account
    /// channels, then those for its trades, each group in the order in which it is held; only
    /// account channels can need a token.
    pub proof fn requests_come_group_by_group(self, i: int)
        ensures
            ({
                let all = self.all_requests();
                let m = if self.order_books is Some {
                    self.order_books->0.entries@.len() as int
                } else {
                    0
                };
                let n = m + self.account_channels.entries@.len();
                let t = if self.trades is Some {
                    self.trades->0.entries@.len() as int
                } else {
                    0
                };
                &&& all.len() == n + t
                &&& 0 <= i < m ==> all[i] == (
                    "order_book/"@ + self.order_books->0.entries@[i].0@,
                    false,
                )
                &&& m <= i < n ==> all[i] == (
                    self.account_channels.entries@[i - m].0@,
                    self.account_channels.entries@[i - m].1.requires_auth,
                )
                &&& n <= i < n + t ==> all[i] == (
                    "trade/"@ + self.trades->0.entries@[i - n].0@,
                    false,
                )
            }),
    {
    }
}

} // verus!
