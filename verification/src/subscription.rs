//! Account subscriptions: how they are written, and the channels that they stand for.

use crate::error::{ErrorView, LighterError};
use crate::text::{
    every_text_can_be_trimmed, is_free_of, is_made_of, is_white_space, lemma_already_trimmed,
    lemma_last_segment, lemma_one_segment, lemma_segments, lemma_segments_free, lemma_trim_bounds,
    lemma_trim_end_bound, lemma_trim_start_bound, lemma_trimmed, lemma_trimmed_ends,
    lemma_trimmed_join, segments, separators_split, split, strip_prefix, text_views, trim,
    trim_start, trimmed, trimming_takes_off_what_surrounds, trimming_twice_is_trimming_once,
    CharClass,
};
use vstd::prelude::*;

verus! {

/// What an account subscription asks for.
pub enum SubscriptionView {
    AccountAll { account_id: Seq<char> },
    AccountMarket { market_id: Seq<char>, account_id: Seq<char> },
}

impl SubscriptionView {
    /// What tells the subscription from others: the account, and the market if there is one.
    pub open spec fn key(self) -> Seq<char> {
        match self {
            SubscriptionView::AccountAll { account_id } => account_id,
            SubscriptionView::AccountMarket { market_id, account_id } => market_id + "/"@
                + account_id,
        }
    }

    /// The channel that the exchange sends its messages on.
    pub open spec fn channel(self) -> Seq<char> {
        match self {
            SubscriptionView::AccountAll { account_id } => "account_all/"@ + account_id,
            SubscriptionView::AccountMarket { market_id, account_id } => "account_market/"@
                + market_id + "/"@ + account_id,
        }
    }
}

/// `s` without the white space around it.
pub open spec fn bare(s: Seq<char>) -> Seq<char> {
    trimmed(s, CharClass::WhiteSpace)
}

/// `prefix`, the subscription as it was written between backquotes, and `suffix`.
pub open spec fn quoted(prefix: Seq<char>, raw: Seq<char>, suffix: Seq<char>) -> Seq<char> {
    prefix + raw + "`"@ + suffix
}

/// The subscription to an account that `segment` names.
pub open spec fn account_outcome(segment: Seq<char>, raw: Seq<char>) -> Result<
    SubscriptionView,
    ErrorView,
> {
    if bare(segment).len() == 0 {
        Err(
            ErrorView::Config(
                quoted("Invalid account subscription `"@, raw, ": missing account id"@),
            ),
        )
    } else {
        Ok(SubscriptionView::AccountAll { account_id: bare(segment) })
    }
}

/// The subscription to an account in a market, from the identifiers of both.
pub open spec fn market_parts_outcome(
    market_id: Seq<char>,
    account_id: Seq<char>,
    raw: Seq<char>,
) -> Result<SubscriptionView, ErrorView> {
    if market_id.len() == 0 || account_id.len() == 0 {
        Err(ErrorView::Config(quoted("Invalid account market subscription `"@, raw, ""@)))
    } else {
        Ok(SubscriptionView::AccountMarket { market_id, account_id })
    }
}

/// The subscription to an account in a market that `segment` names, the market before the slash
/// and the account after it.
pub open spec fn market_outcome(segment: Seq<char>, raw: Seq<char>) -> Result<
    SubscriptionView,
    ErrorView,
> {
    let parts = segments(segment, CharClass::Slash);
    if parts.len() > 2 {
        Err(ErrorView::Config(quoted("Invalid account market subscription `"@, raw, ""@)))
    } else {
        let account = if parts.len() == 2 {
            bare(parts[1])
        } else {
            Seq::empty()
        };
        market_parts_outcome(bare(parts[0]), account, raw)
    }
}

/// The account subscription that `raw` stands for, once white space and then slashes around it
/// are gone: `account_market/` and `account_all/` say what it is; without them one slash makes it
/// a subscription to an account in a market, and no slash one to an account.
pub open spec fn parse_outcome(raw: Seq<char>) -> Result<SubscriptionView, ErrorView> {
    let outer = bare(raw);
    let inner = trimmed(outer, CharClass::Slash);
    let parts = segments(inner, CharClass::Slash);
    if outer.len() == 0 {
        Err(ErrorView::Config("Account subscription identifier cannot be empty"@))
    } else if inner.len() == 0 {
        Err(ErrorView::Config(quoted("Invalid account subscription `"@, outer, ""@)))
    } else if "account_market/"@.is_prefix_of(inner) {
        market_outcome(inner.skip("account_market/"@.len() as int), outer)
    } else if "account_all/"@.is_prefix_of(inner) {
        account_outcome(inner.skip("account_all/"@.len() as int), outer)
    } else if parts.len() > 2 {
        Err(ErrorView::Config(quoted("Invalid account subscription `"@, outer, ""@)))
    } else if parts.len() == 2 {
        market_parts_outcome(bare(parts[0]), bare(parts[1]), outer)
    } else {
        account_outcome(bare(parts[0]), outer)
    }
}

/// A subscription to the messages of an account.
#[derive(Debug, PartialEq, Eq)]
pub enum AccountSubscription {
    /// To everything of the account.
    AccountAll { account_id: String },
    /// To what the account does in one market.
    AccountMarket { market_id: String, account_id: String },
}

impl View for AccountSubscription {
    type V = SubscriptionView;

    open spec fn view(&self) -> SubscriptionView {
        match *self {
            AccountSubscription::AccountAll { account_id } => SubscriptionView::AccountAll {
                account_id: account_id@,
            },
            AccountSubscription::AccountMarket { market_id, account_id } => {
                SubscriptionView::AccountMarket { market_id: market_id@, account_id: account_id@ }
            },
        }
    }
}

/// What a result of parsing says.
pub open spec fn result_view(r: Result<AccountSubscription, LighterError>) -> Result<
    SubscriptionView,
    ErrorView,
> {
    match r {
        Ok(s) => Ok(s@),
        Err(e) => Err(e@),
    }
}

/// `prefix`, `raw`, a backquote and `suffix` as the message of a configuration error.
fn invalid(prefix: &str, raw: &str, suffix: &str) -> (r: LighterError)
    ensures
        r@ == ErrorView::Config(quoted(prefix@, raw@, suffix@)),
{
    let mut message = prefix.to_owned();
    message.append(raw);
    message.append("`");
    message.append(suffix);
    LighterError::Config(message)
}

impl AccountSubscription {
    /// The account subscription that `raw` stands for.
    ///
    /// It can be a plain account identifier (`40` or `account_all/40`) or one for a market
    /// (`0/40` or `account_market/0/40`).
    pub fn parse(raw: &str) -> (r: Result<Self, LighterError>)
        ensures
            result_view(r) == parse_outcome(raw@),
    {
        let outer = trim(raw, CharClass::WhiteSpace);
        if outer.is_empty() {
            return Err(LighterError::config("Account subscription identifier cannot be empty"));
        }
        let inner = trim(outer, CharClass::Slash);
        if inner.is_empty() {
            return Err(invalid("Invalid account subscription `", outer, ""));
        }
        if let Some(rest) = strip_prefix(inner, "account_market/") {
            assert(rest@ =~= inner@.skip("account_market/"@.len() as int));
            assert("account_market/"@.is_prefix_of(inner@));
            return Self::parse_market(rest, outer);
        }
        if let Some(rest) = strip_prefix(inner, "account_all/") {
            assert(rest@ =~= inner@.skip("account_all/"@.len() as int));
            assert("account_all/"@.is_prefix_of(inner@));
            return Self::parse_account(rest, outer);
        }
        let parts = split(inner, CharClass::Slash);
        let ghost views = text_views(parts@);
        assert(views.len() == parts@.len());
        proof {
            lemma_segments(inner@, CharClass::Slash);
        }
        if parts.len() > 2 {
            return Err(invalid("Invalid account subscription `", outer, ""));
        }
        assert(views[0] == parts@[0]@);
        let first = trim(parts[0], CharClass::WhiteSpace);
        if parts.len() == 2 {
            assert(views[1] == parts@[1]@);
            return Self::parse_market_parts(
                first,
                trim(parts[1], CharClass::WhiteSpace),
                outer,
            );
        }
        Self::parse_account(first, outer)
    }

    /// The subscription to the account that `segment` names; `raw` is what errors quote.
    pub fn parse_account(segment: &str, raw: &str) -> (r: Result<Self, LighterError>)
        ensures
            result_view(r) == account_outcome(segment@, raw@),
    {
        let account_id = trim(segment, CharClass::WhiteSpace);
        if account_id.is_empty() {
            return Err(invalid("Invalid account subscription `", raw, ": missing account id"));
        }
        Ok(AccountSubscription::AccountAll { account_id: account_id.to_owned() })
    }

    /// The subscription to the account in a market that `segment` names; `raw` is what errors
    /// quote.
    pub fn parse_market(segment: &str, raw: &str) -> (r: Result<Self, LighterError>)
        ensures
            result_view(r) == market_outcome(segment@, raw@),
    {
        let parts = split(segment, CharClass::Slash);
        let ghost views = text_views(parts@);
        assert(views.len() == parts@.len());
        proof {
            lemma_segments(segment@, CharClass::Slash);
        }
        if parts.len() > 2 {
            return Err(invalid("Invalid account market subscription `", raw, ""));
        }
        assert(views[0] == parts@[0]@);
        let market_id = trim(parts[0], CharClass::WhiteSpace);
        let account_id = if parts.len() == 2 {
            assert(views[1] == parts@[1]@);
            trim(parts[1], CharClass::WhiteSpace)
        } else {
            ""
        };
        proof {
            reveal_strlit("");
            assert(""@ =~= Seq::<char>::empty());
        }
        Self::parse_market_parts(market_id, account_id, raw)
    }

    /// The subscription to the account `account_id` in the market `market_id`; `raw` is what
    /// errors quote.
    pub fn parse_market_parts(market_id: &str, account_id: &str, raw: &str) -> (r: Result<
        Self,
        LighterError,
    >)
        ensures
            result_view(r) == market_parts_outcome(market_id@, account_id@, raw@),
    {
        if market_id.is_empty() || account_id.is_empty() {
            return Err(invalid("Invalid account market subscription `", raw, ""));
        }
        Ok(
            AccountSubscription::AccountMarket {
                market_id: market_id.to_owned(),
                account_id: account_id.to_owned(),
            },
        )
    }

    /// What tells the subscription from others.
    pub fn key(&self) -> (r: String)
        ensures
            r@ == self@.key(),
    {
        match self {
            AccountSubscription::AccountAll { account_id } => account_id.clone(),
            AccountSubscription::AccountMarket { market_id, account_id } => {
                let mut key = market_id.clone();
                key.append("/");
                key.append(account_id.as_str());
                key
            },
        }
    }

    /// The channel that the exchange sends its messages on.
    pub fn channel(&self) -> (r: String)
        ensures
            r@ == self@.channel(),
    {
        match self {
            AccountSubscription::AccountAll { account_id } => {
                let mut channel = "account_all/".to_owned();
                channel.append(account_id.as_str());
                channel
            },
            AccountSubscription::AccountMarket { market_id, account_id } => {
                let mut channel = "account_market/".to_owned();
                channel.append(market_id.as_str());
                channel.append("/");
                channel.append(account_id.as_str());
                channel
            },
        }
    }
}

/// What the client knows of a channel that it subscribed to for an account.
#[derive(Debug, PartialEq, Eq)]
pub struct AccountChannelMeta {
    pub key: String,
    pub requires_auth: bool,
}

impl AccountChannelMeta {
    /// A channel whose messages belong under `key`.
    pub fn new(key: String, requires_auth: bool) -> (r: Self)
        ensures
            r.key == key,
            r.requires_auth == requires_auth,
    {
        AccountChannelMeta { key, requires_auth }
    }
}

/// The subscription of a result, where it has one.
pub open spec fn parsed(outcome: Result<SubscriptionView, ErrorView>) -> Option<SubscriptionView> {
    match outcome {
        Ok(sub) => Some(sub),
        Err(_) => None,
    }
}

/// White space around a subscription makes no difference, neither to what it stands for nor to
/// the error.
pub proof fn surrounding_white_space_is_ignored(raw: Seq<char>)
    ensures
        parse_outcome(bare(raw)) == parse_outcome(raw),
{
    trimming_twice_is_trimming_once(raw, CharClass::WhiteSpace);
}

/// Slashes around a subscription make no difference to what it stands for.
pub proof fn surrounding_slashes_are_ignored(raw: Seq<char>)
    ensures
        parsed(parse_outcome("/"@ + bare(raw) + "/"@)) == parsed(parse_outcome(raw)),
{
    reveal_strlit("/");
    let outer = bare(raw);
    let wrapped = "/"@ + outer + "/"@;
    assert(!is_white_space('/'));
    lemma_already_trimmed(wrapped, CharClass::WhiteSpace);
    let (a, b) = lemma_trim_bounds(outer, CharClass::Slash);
    let n = wrapped.len() as int;
    if a < b {
        assert forall|i: int| 0 <= i < a + 1 implies CharClass::Slash.has(
            #[trigger] wrapped[i],
        ) by {
            if i > 0 {
                assert(wrapped[i] == outer[i - 1]);
            }
        }
        assert forall|i: int| b + 1 <= i < n implies CharClass::Slash.has(
            #[trigger] wrapped[i],
        ) by {
            if i < n - 1 {
                assert(wrapped[i] == outer[i - 1]);
            }
        }
        lemma_trimmed(wrapped, CharClass::Slash, a + 1, b + 1);
        assert(wrapped.subrange(a + 1, b + 1) =~= outer.subrange(a, b));
    } else {
        assert forall|i: int| 0 <= i < n implies CharClass::Slash.has(#[trigger] wrapped[i]) by {
            if 0 < i < n - 1 {
                assert(wrapped[i] == outer[i - 1]);
            }
        }
        lemma_trimmed(wrapped, CharClass::Slash, 0, 0);
        assert(outer.subrange(a, b).len() == 0);
    }
}

/// Whether an identifier is there and has no white space around it.
pub open spec fn is_identifier(id: Seq<char>) -> bool {
    id.len() > 0 && bare(id) == id
}

/// The identifiers of a subscription are there and have no white space around them, and those of
/// a subscription to a market hold no slash.
pub proof fn parsed_identifiers_are_clean(raw: Seq<char>)
    ensures
        match parse_outcome(raw) {
            Ok(SubscriptionView::AccountAll { account_id }) => is_identifier(account_id),
            Ok(SubscriptionView::AccountMarket { market_id, account_id }) => {
                &&& is_identifier(market_id)
                &&& is_identifier(account_id)
                &&& is_free_of(market_id, CharClass::Slash)
                &&& is_free_of(account_id, CharClass::Slash)
            },
            Err(_) => true,
        },
{
    let inner = trimmed(bare(raw), CharClass::Slash);
    let market = inner.skip("account_market/"@.len() as int);
    let all = inner.skip("account_all/"@.len() as int);
    lemma_clean_segments(inner);
    lemma_clean_segments(market);
    trimming_twice_is_trimming_once(all, CharClass::WhiteSpace);
    let parts = segments(inner, CharClass::Slash);
    lemma_segments(inner, CharClass::Slash);
    lemma_segments(market, CharClass::Slash);
    trimming_twice_is_trimming_once(parts[0], CharClass::WhiteSpace);
}

/// Segments between slashes hold no slash, also without the white space around them.
proof fn lemma_clean_segments(s: Seq<char>)
    ensures
        forall|i: int|
            0 <= i < segments(s, CharClass::Slash).len() ==> {
                let id = bare(#[trigger] segments(s, CharClass::Slash)[i]);
                bare(id) == id && is_free_of(id, CharClass::Slash)
            },
{
    lemma_segments_free(s, CharClass::Slash);
    assert forall|i: int| 0 <= i < segments(s, CharClass::Slash).len() implies {
        let id = bare(#[trigger] segments(s, CharClass::Slash)[i]);
        bare(id) == id && is_free_of(id, CharClass::Slash)
    } by {
        let part = segments(s, CharClass::Slash)[i];
        trimming_twice_is_trimming_once(part, CharClass::WhiteSpace);
        lemma_trimmed_ends(part, CharClass::WhiteSpace);
        assert(is_free_of(part, CharClass::Slash));
    }
}

/// The channel of a subscription is itself a way to write the subscription.
///
/// An account identifier that ends in a slash (`account_all/40/ /` has `40/`) is left out: the
/// slash would be taken for one around the subscription.
pub proof fn channel_parses_back(raw: Seq<char>)
    requires
        parse_outcome(raw) matches Ok(sub) && (sub matches SubscriptionView::AccountAll {
            account_id,
        } ==> account_id.last() != '/'),
    ensures
        parse_outcome((parse_outcome(raw)->Ok_0).channel()) == parse_outcome(raw),
{
    parsed_identifiers_are_clean(raw);
    match parse_outcome(raw)->Ok_0 {
        SubscriptionView::AccountAll { account_id } => {
            let id = account_id;
            lemma_trimmed_ends(id, CharClass::WhiteSpace);
            assert(id.take(id.len() as int) =~= id);
            lemma_all_form(id, id.len() as int);
        },
        SubscriptionView::AccountMarket { market_id, account_id } => {
            market_forms_agree(market_id, account_id);
        },
    }
}

/// The two prefixes are not prefixes of each other.
proof fn lemma_prefixes(rest: Seq<char>)
    ensures
        "account_all/"@.len() == 12,
        "account_market/"@.len() == 15,
        "account_all/"@[0] == 'a',
        "account_market/"@[0] == 'a',
        "/"@ == seq!['/'],
        !is_white_space('a'),
        !is_white_space('/'),
        !"account_market/"@.is_prefix_of("account_all/"@ + rest),
        "account_all/"@.is_prefix_of("account_all/"@ + rest),
        "account_market/"@.is_prefix_of("account_market/"@ + rest),
        ("account_all/"@ + rest).skip(12) == rest,
        ("account_market/"@ + rest).skip(15) == rest,
{
    reveal_strlit("account_all/");
    reveal_strlit("account_market/");
    reveal_strlit("/");
    assert("/"@ =~= seq!['/']);
    let (all, market) = ("account_all/"@, "account_market/"@);
    assert(all.len() == 12);
    assert(market.len() == 15);
    assert(all[0] == 'a');
    assert(market[0] == 'a');
    assert(all[8] == 'a');
    assert(market[8] == 'm');
    assert((all + rest)[8] == 'a');
    if market.is_prefix_of(all + rest) {
        assert((all + rest).take(market.len() as int)[8] == market[8]);
    }
    assert((all + rest).take(12) =~= all);
    assert((market + rest).take(15) =~= market);
    assert((all + rest).skip(12) =~= rest);
    assert((market + rest).skip(15) =~= rest);
}

/// An account identifier can be written as it is or after `account_all/`: either way it is a
/// subscription to that account. (An identifier without slashes, and not only of white space.)
pub proof fn account_forms_agree(id: Seq<char>)
    requires
        is_free_of(id, CharClass::Slash),
        bare(id).len() > 0,
    ensures
        parse_outcome(id) == Ok::<SubscriptionView, ErrorView>(
            SubscriptionView::AccountAll { account_id: bare(id) },
        ),
        parse_outcome("account_all/"@ + id) == Ok::<SubscriptionView, ErrorView>(
            SubscriptionView::AccountAll { account_id: bare(id) },
        ),
{
    let plain = bare(id);
    trimming_twice_is_trimming_once(id, CharClass::WhiteSpace);
    lemma_trimmed_ends(id, CharClass::WhiteSpace);
    assert(is_free_of(plain, CharClass::Slash));
    assert(!CharClass::Slash.has(plain[plain.len() - 1]));
    lemma_already_trimmed(plain, CharClass::Slash);
    lemma_one_segment(plain, CharClass::Slash);
    lemma_no_slash_no_prefix(plain);
    let end = lemma_trim_end_bound(id, CharClass::WhiteSpace);
    lemma_all_form(id, end);
}

/// What is written after `account_all/` names the account.
proof fn lemma_all_form(id: Seq<char>, end: int)
    requires
        0 < end <= id.len(),
        forall|i: int| end <= i < id.len() ==> is_white_space(#[trigger] id[i]),
        !is_white_space(id[end - 1]),
        id[end - 1] != '/',
        bare(id.take(end)).len() > 0,
    ensures
        parse_outcome("account_all/"@ + id) == Ok::<SubscriptionView, ErrorView>(
            SubscriptionView::AccountAll { account_id: bare(id.take(end)) },
        ),
{
    let all = "account_all/"@;
    let rest = id.take(end);
    lemma_prefixes(rest);
    lemma_trimmed_join(all, id, CharClass::WhiteSpace, 0, end);
    assert(all.skip(0) =~= all);
    let inner = all + rest;
    assert(inner.last() == id[end - 1]);
    assert(inner[0] == 'a');
    lemma_already_trimmed(inner, CharClass::Slash);
}

/// Text without a slash starts with neither prefix.
proof fn lemma_no_slash_no_prefix(s: Seq<char>)
    requires
        is_free_of(s, CharClass::Slash),
    ensures
        !"account_market/"@.is_prefix_of(s),
        !"account_all/"@.is_prefix_of(s),
{
    reveal_strlit("account_all/");
    reveal_strlit("account_market/");
    assert("account_all/"@[11] == '/');
    assert("account_market/"@[14] == '/');
    if "account_market/"@.is_prefix_of(s) {
        assert(s[14] == s.take(15)[14]);
    }
    if "account_all/"@.is_prefix_of(s) {
        assert(s[11] == s.take(12)[11]);
    }
}

/// `m/a` is two segments where neither part holds a slash.
proof fn lemma_two_segments(m: Seq<char>, a: Seq<char>)
    requires
        is_free_of(m, CharClass::Slash),
        is_free_of(a, CharClass::Slash),
    ensures
        segments(m + "/"@ + a, CharClass::Slash) == seq![m, a],
{
    reveal_strlit("/");
    lemma_one_segment(m, CharClass::Slash);
    lemma_last_segment(m, '/', a, CharClass::Slash);
    assert(m + "/"@ + a =~= m.push('/') + a);
    assert(seq![m].push(a) =~= seq![m, a]);
}

/// `m/` is a prefix of text that starts with it and with no longer slash-free part.
proof fn lemma_prefix_of_join(word: Seq<char>, m: Seq<char>, a: Seq<char>)
    requires
        is_free_of(m, CharClass::Slash),
        is_free_of(word, CharClass::Slash),
        word != m,
    ensures
        !word.push('/').is_prefix_of(m + "/"@ + a),
{
    reveal_strlit("/");
    let joined = m + "/"@ + a;
    let prefix = word.push('/');
    if prefix.is_prefix_of(joined) {
        assert forall|i: int| 0 <= i < prefix.len() implies #[trigger] prefix[i] == joined[i] by {
            assert(joined.take(prefix.len() as int)[i] == joined[i]);
        }
        assert(joined[m.len() as int] == '/');
        assert(prefix[word.len() as int] == '/');
        if word.len() < m.len() {
            assert(joined[word.len() as int] == m[word.len() as int]);
        } else if m.len() < word.len() {
            assert(prefix[m.len() as int] == word[m.len() as int]);
        } else {
            assert forall|i: int| 0 <= i < m.len() implies word[i] == m[i] by {
                assert(prefix[i] == joined[i]);
            }
            assert(word =~= m);
        }
    }
}

/// An account in a market can be written as `market/account` or after `account_market/`: either
/// way it is a subscription to that account in that market. (Identifiers without slashes, and not
/// only of white space. The short form of a market that is called `account_all` or
/// `account_market` is left out: it reads as a prefix.)
pub proof fn market_forms_agree(m: Seq<char>, a: Seq<char>)
    requires
        is_free_of(m, CharClass::Slash),
        is_free_of(a, CharClass::Slash),
        bare(m).len() > 0,
        bare(a).len() > 0,
    ensures
        parse_outcome("account_market/"@ + m + "/"@ + a) == Ok::<SubscriptionView, ErrorView>(
            SubscriptionView::AccountMarket { market_id: bare(m), account_id: bare(a) },
        ),
        trim_start(m, CharClass::WhiteSpace) != "account_all"@ && trim_start(
            m,
            CharClass::WhiteSpace,
        ) != "account_market"@ ==> parse_outcome(m + "/"@ + a) == Ok::<
            SubscriptionView,
            ErrorView,
        >(SubscriptionView::AccountMarket { market_id: bare(m), account_id: bare(a) }),
{
    let start = lemma_trim_start_bound(m, CharClass::WhiteSpace);
    let end = lemma_trim_end_bound(a, CharClass::WhiteSpace);
    assert(!CharClass::Slash.has(a[end - 1]));
    assert(!CharClass::Slash.has(m[start]));
    lemma_long_form(m, a, end);
    if trim_start(m, CharClass::WhiteSpace) != "account_all"@ && trim_start(
        m,
        CharClass::WhiteSpace,
    ) != "account_market"@ {
        lemma_short_form(m, a, start, end);
    }
}

/// What follows `account_market/` decides.
proof fn lemma_after_market_prefix(raw: Seq<char>, rest: Seq<char>)
    requires
        bare(raw) == "account_market/"@ + rest,
        trimmed("account_market/"@ + rest, CharClass::Slash) == "account_market/"@ + rest,
    ensures
        parse_outcome(raw) == market_outcome(rest, "account_market/"@ + rest),
{
    lemma_prefixes(rest);
}

proof fn lemma_market_outcome(rest: Seq<char>, raw: Seq<char>, m: Seq<char>, a: Seq<char>)
    requires
        segments(rest, CharClass::Slash) == seq![m, a],
        bare(m).len() > 0,
        bare(a).len() > 0,
    ensures
        market_outcome(rest, raw) == Ok::<SubscriptionView, ErrorView>(
            SubscriptionView::AccountMarket { market_id: bare(m), account_id: bare(a) },
        ),
{
}

#[verifier::rlimit(40)]
proof fn lemma_long_form(m: Seq<char>, a: Seq<char>, end: int)
    requires
        is_free_of(m, CharClass::Slash),
        is_free_of(a, CharClass::Slash),
        bare(m).len() > 0,
        0 < end <= a.len(),
        forall|i: int| end <= i < a.len() ==> is_white_space(#[trigger] a[i]),
        !is_white_space(a[end - 1]),
        a[end - 1] != '/',
        bare(a.take(end)) == bare(a),
        bare(a).len() > 0,
    ensures
        parse_outcome("account_market/"@ + m + "/"@ + a) == Ok::<SubscriptionView, ErrorView>(
            SubscriptionView::AccountMarket { market_id: bare(m), account_id: bare(a) },
        ),
{
    let head = "account_market/"@ + m + "/"@;
    let rest = m + "/"@ + a.take(end);
    let inner = "account_market/"@ + rest;
    assert(bare(head + a) == inner) by {
        lemma_prefixes(rest);
        assert(head[0] == 'a');
        lemma_trimmed_join(head, a, CharClass::WhiteSpace, 0, end);
        assert(head.skip(0) + a.take(end) =~= inner);
    }
    assert(trimmed(inner, CharClass::Slash) == inner) by {
        lemma_prefixes(rest);
        assert(inner.last() == a[end - 1]);
        assert(inner[0] == 'a');
        lemma_already_trimmed(inner, CharClass::Slash);
    }
    lemma_free_take(a, end);
    lemma_two_segments(m, a.take(end));
    lemma_after_market_prefix(head + a, rest);
    lemma_market_outcome(rest, inner, m, a.take(end));
}

proof fn lemma_free_take(s: Seq<char>, end: int)
    requires
        is_free_of(s, CharClass::Slash),
        0 <= end <= s.len(),
    ensures
        is_free_of(s.take(end), CharClass::Slash),
        is_free_of(s.skip(end), CharClass::Slash),
{
    assert forall|i: int| 0 <= i < end implies !CharClass::Slash.has(#[trigger] s.take(end)[i]) by {
        assert(s.take(end)[i] == s[i]);
    }
    assert forall|i: int| 0 <= i < s.len() - end implies !CharClass::Slash.has(
        #[trigger] s.skip(end)[i],
    ) by {
        assert(s.skip(end)[i] == s[i + end]);
    }
}

#[verifier::rlimit(40)]
proof fn lemma_short_form(m: Seq<char>, a: Seq<char>, start: int, end: int)
    requires
        is_free_of(m, CharClass::Slash),
        is_free_of(a, CharClass::Slash),
        0 <= start < m.len(),
        forall|i: int| 0 <= i < start ==> is_white_space(#[trigger] m[i]),
        !is_white_space(m[start]),
        m[start] != '/',
        bare(m.skip(start)) == bare(m),
        bare(m).len() > 0,
        m.skip(start) != "account_all"@,
        m.skip(start) != "account_market"@,
        0 < end <= a.len(),
        forall|i: int| end <= i < a.len() ==> is_white_space(#[trigger] a[i]),
        !is_white_space(a[end - 1]),
        a[end - 1] != '/',
        bare(a.take(end)) == bare(a),
        bare(a).len() > 0,
    ensures
        parse_outcome(m + "/"@ + a) == Ok::<SubscriptionView, ErrorView>(
            SubscriptionView::AccountMarket { market_id: bare(m), account_id: bare(a) },
        ),
{
    reveal_strlit("/");
    let head = m + "/"@;
    let (m2, a2) = (m.skip(start), a.take(end));
    assert forall|i: int| 0 <= i < start implies is_white_space(#[trigger] head[i]) by {
        assert(head[i] == m[i]);
    }
    lemma_trimmed_join(head, a, CharClass::WhiteSpace, start, end);
    let inner = m2 + "/"@ + a2;
    assert(head.skip(start) + a2 =~= inner);
    assert(inner.last() == a[end - 1]);
    assert(inner[0] == m[start]);
    lemma_already_trimmed(inner, CharClass::Slash);
    lemma_free_take(a, end);
    lemma_free_take(m, start);
    lemma_two_segments(m2, a2);
    reveal_strlit("account_all/");
    reveal_strlit("account_market/");
    reveal_strlit("account_all");
    reveal_strlit("account_market");
    assert("account_all/"@ =~= "account_all"@.push('/'));
    assert("account_market/"@ =~= "account_market"@.push('/'));
    lemma_prefix_of_join("account_all"@, m2, a2);
    lemma_prefix_of_join("account_market"@, m2, a2);
    let parts = segments(inner, CharClass::Slash);
    assert(parts.len() == 2);
    assert(parts[0] == m2);
    assert(parts[1] == a2);
}

/// White space around an identifier is taken off, and nothing else of it.
pub proof fn identifiers_are_trimmed(left: Seq<char>, id: Seq<char>, right: Seq<char>)
    requires
        is_made_of(left, CharClass::WhiteSpace),
        is_made_of(right, CharClass::WhiteSpace),
        id.len() > 0 ==> !CharClass::WhiteSpace.has(id[0]) && !CharClass::WhiteSpace.has(
            id[id.len() - 1],
        ),
    ensures
        bare(left + id + right) == id,
{
    trimming_takes_off_what_surrounds(left, id, right, CharClass::WhiteSpace);
}

/// A text that says something: white space around slashes around what it says.
pub struct Written {
    pub left: Seq<char>,
    pub slashes_left: Seq<char>,
    pub inner: Seq<char>,
    pub slashes_right: Seq<char>,
    pub right: Seq<char>,
}

impl Written {
    /// What it says with the slashes around it, as errors quote it.
    pub open spec fn outer(self) -> Seq<char> {
        self.slashes_left + self.inner + self.slashes_right
    }

    pub open spec fn text(self) -> Seq<char> {
        self.left + self.outer() + self.right
    }

    pub open spec fn wf(self) -> bool {
        &&& is_made_of(self.left, CharClass::WhiteSpace)
        &&& is_made_of(self.slashes_left, CharClass::Slash)
        &&& is_made_of(self.slashes_right, CharClass::Slash)
        &&& is_made_of(self.right, CharClass::WhiteSpace)
        &&& self.inner.len() > 0
        &&& self.inner[0] != '/'
        &&& self.inner[self.inner.len() - 1] != '/'
        &&& !CharClass::WhiteSpace.has(self.outer()[0])
        &&& !CharClass::WhiteSpace.has(self.outer()[self.outer().len() - 1])
    }
}

proof fn lemma_written(w: Written)
    requires
        w.wf(),
    ensures
        bare(w.text()) == w.outer(),
        trimmed(w.outer(), CharClass::Slash) == w.inner,
        w.outer().len() > 0,
{
    trimming_takes_off_what_surrounds(w.left, w.outer(), w.right, CharClass::WhiteSpace);
    trimming_takes_off_what_surrounds(
        w.slashes_left,
        w.inner,
        w.slashes_right,
        CharClass::Slash,
    );
}

proof fn lemma_quoted(prefix: Seq<char>, raw: Seq<char>)
    ensures
        quoted(prefix, raw, ""@) == prefix + raw + "`"@,
{
    reveal_strlit("");
    assert(quoted(prefix, raw, ""@) =~= prefix + raw + "`"@);
}

/// Every text is white space, or slashes with white space around them, or says something.
pub proof fn every_text_is_blank_or_written(raw: Seq<char>) -> (w: Written)
    ensures
        w.text() == raw,
        ({
            ||| is_made_of(raw, CharClass::WhiteSpace)
            ||| is_made_of(w.outer(), CharClass::Slash) && w.outer().len() > 0 && is_made_of(
                w.left,
                CharClass::WhiteSpace,
            ) && is_made_of(w.right, CharClass::WhiteSpace)
            ||| w.wf()
        }),
{
    let outer = bare(raw);
    let (left, right) = every_text_can_be_trimmed(raw, CharClass::WhiteSpace);
    let inner = trimmed(outer, CharClass::Slash);
    let (slashes_left, slashes_right) = every_text_can_be_trimmed(outer, CharClass::Slash);
    let w = Written { left, slashes_left, inner, slashes_right, right };
    if outer.len() == 0 {
        assert(raw =~= left + right);
        assert forall|i: int| 0 <= i < raw.len() implies CharClass::WhiteSpace.has(
            #[trigger] raw[i],
        ) by {
            if i < left.len() {
                assert(raw[i] == left[i]);
            } else {
                assert(raw[i] == right[i - left.len()]);
            }
        }
    } else if inner.len() == 0 {
        assert(outer =~= slashes_left + slashes_right);
        assert forall|i: int| 0 <= i < outer.len() implies CharClass::Slash.has(
            #[trigger] outer[i],
        ) by {
            if i < slashes_left.len() {
                assert(outer[i] == slashes_left[i]);
            } else {
                assert(outer[i] == slashes_right[i - slashes_left.len()]);
            }
        }
    }
    w
}

/// White space alone is no subscription.
pub proof fn blank_text_is_refused(raw: Seq<char>)
    requires
        is_made_of(raw, CharClass::WhiteSpace),
    ensures
        parse_outcome(raw) == Err::<SubscriptionView, ErrorView>(
            ErrorView::Config("Account subscription identifier cannot be empty"@),
        ),
{
    let none = Seq::<char>::empty();
    trimming_takes_off_what_surrounds(raw, none, none, CharClass::WhiteSpace);
    assert(raw + none + none =~= raw);
}

/// Slashes alone are no subscription.
pub proof fn slashes_alone_are_refused(left: Seq<char>, slashes: Seq<char>, right: Seq<char>)
    requires
        is_made_of(left, CharClass::WhiteSpace),
        is_made_of(slashes, CharClass::Slash),
        is_made_of(right, CharClass::WhiteSpace),
        slashes.len() > 0,
    ensures
        parse_outcome(left + slashes + right) == Err::<SubscriptionView, ErrorView>(
            ErrorView::Config("Invalid account subscription `"@ + slashes + "`"@),
        ),
{
    assert(CharClass::Slash.has(slashes[0]) && CharClass::Slash.has(slashes[slashes.len() - 1]));
    assert(!is_white_space('/'));
    trimming_takes_off_what_surrounds(left, slashes, right, CharClass::WhiteSpace);
    let none = Seq::<char>::empty();
    trimming_takes_off_what_surrounds(slashes, none, none, CharClass::Slash);
    assert(slashes + none + none =~= slashes);
    lemma_quoted("Invalid account subscription `"@, slashes);
}

/// What says something without a slash names an account; it is refused where it is white space.
pub proof fn plain_text_names_an_account(w: Written)
    requires
        w.wf(),
        is_free_of(w.inner, CharClass::Slash),
    ensures
        parse_outcome(w.text()) == if is_made_of(w.inner, CharClass::WhiteSpace) {
            Err::<SubscriptionView, ErrorView>(
                ErrorView::Config(
                    "Invalid account subscription `"@ + w.outer() + "`"@ + ": missing account id"@,
                ),
            )
        } else {
            Ok(SubscriptionView::AccountAll { account_id: bare(w.inner) })
        },
{
    lemma_written(w);
    lemma_no_slash_no_prefix(w.inner);
    lemma_one_segment(w.inner, CharClass::Slash);
    trimming_twice_is_trimming_once(w.inner, CharClass::WhiteSpace);
    lemma_blank(w.inner);
}

/// White space, and nothing else, is trimmed to nothing.
proof fn lemma_blank(s: Seq<char>)
    ensures
        bare(s).len() == 0 <==> is_made_of(s, CharClass::WhiteSpace),
{
    let none = Seq::<char>::empty();
    let (left, right) = every_text_can_be_trimmed(s, CharClass::WhiteSpace);
    if is_made_of(s, CharClass::WhiteSpace) {
        trimming_takes_off_what_surrounds(s, none, none, CharClass::WhiteSpace);
        assert(s + none + none =~= s);
    }
    if bare(s).len() == 0 {
        assert forall|i: int| 0 <= i < s.len() implies CharClass::WhiteSpace.has(
            #[trigger] s[i],
        ) by {
            if i < left.len() {
                assert(s[i] == left[i]);
            } else {
                assert(s[i] == right[i - left.len()]);
            }
        }
    }
}

/// What follows `account_all/` names an account, slashes and all; it is refused where it is white
/// space.
pub proof fn account_prefix_names_an_account(w: Written, rest: Seq<char>)
    requires
        w.wf(),
        w.inner == "account_all/"@ + rest,
    ensures
        parse_outcome(w.text()) == if is_made_of(rest, CharClass::WhiteSpace) {
            Err::<SubscriptionView, ErrorView>(
                ErrorView::Config(
                    "Invalid account subscription `"@ + w.outer() + "`"@ + ": missing account id"@,
                ),
            )
        } else {
            Ok(SubscriptionView::AccountAll { account_id: bare(rest) })
        },
{
    lemma_written(w);
    lemma_prefixes(rest);
    lemma_blank(rest);
}

/// After `account_market/` one slash parts the market from the account; neither may be white
/// space.
pub proof fn market_prefix_names_market_and_account(w: Written, market: Seq<char>, account: Seq<char>)
    requires
        w.wf(),
        is_free_of(market, CharClass::Slash),
        is_free_of(account, CharClass::Slash),
        w.inner == "account_market/"@ + (market + "/"@ + account),
    ensures
        parse_outcome(w.text()) == if is_made_of(market, CharClass::WhiteSpace) || is_made_of(
            account,
            CharClass::WhiteSpace,
        ) {
            Err::<SubscriptionView, ErrorView>(
                ErrorView::Config("Invalid account market subscription `"@ + w.outer() + "`"@),
            )
        } else {
            Ok(
                SubscriptionView::AccountMarket {
                    market_id: bare(market),
                    account_id: bare(account),
                },
            )
        },
{
    let rest = market + "/"@ + account;
    lemma_written(w);
    lemma_prefixes(rest);
    lemma_two_segments(market, account);
    lemma_blank(market);
    lemma_blank(account);
    lemma_quoted("Invalid account market subscription `"@, w.outer());
    let parts = segments(rest, CharClass::Slash);
    assert(parts[0] == market && parts[1] == account);
}

/// After `account_market/` a market alone is refused, and so is anything after the account.
pub proof fn market_prefix_takes_two_parts(w: Written, rest: Seq<char>)
    requires
        w.wf(),
        w.inner == "account_market/"@ + rest,
        ({
            ||| is_free_of(rest, CharClass::Slash)
            ||| exists|a: Seq<char>, b: Seq<char>, c: Seq<char>|
                rest == #[trigger] three_parts(a, b, c)
        }),
    ensures
        parse_outcome(w.text()) == Err::<SubscriptionView, ErrorView>(
            ErrorView::Config("Invalid account market subscription `"@ + w.outer() + "`"@),
        ),
{
    lemma_written(w);
    lemma_prefixes(rest);
    lemma_quoted("Invalid account market subscription `"@, w.outer());
    if is_free_of(rest, CharClass::Slash) {
        lemma_one_segment(rest, CharClass::Slash);
    } else {
        let (a, b, c) = choose|a: Seq<char>, b: Seq<char>, c: Seq<char>|
            rest == #[trigger] three_parts(a, b, c);
        lemma_three_parts(a, b, c);
    }
}

/// Three texts with slashes between them.
pub open spec fn three_parts(a: Seq<char>, b: Seq<char>, c: Seq<char>) -> Seq<char> {
    a + seq!['/'] + b + seq!['/'] + c
}

proof fn lemma_three_parts(a: Seq<char>, b: Seq<char>, c: Seq<char>)
    ensures
        segments(three_parts(a, b, c), CharClass::Slash).len() > 2,
{
    let head = a + seq!['/'] + b;
    assert(head =~= a.push('/') + b);
    assert(three_parts(a, b, c) =~= head.push('/') + c);
    separators_split(a, '/', b, CharClass::Slash);
    separators_split(head, '/', c, CharClass::Slash);
    lemma_segments(a, CharClass::Slash);
    lemma_segments(b, CharClass::Slash);
    lemma_segments(c, CharClass::Slash);
}

/// Without a prefix one slash parts a market from an account; neither may be white space.
pub proof fn one_slash_parts_market_and_account(w: Written, market: Seq<char>, account: Seq<char>)
    requires
        w.wf(),
        is_free_of(market, CharClass::Slash),
        is_free_of(account, CharClass::Slash),
        market != "account_all"@,
        market != "account_market"@,
        w.inner == market + "/"@ + account,
    ensures
        parse_outcome(w.text()) == if is_made_of(market, CharClass::WhiteSpace) || is_made_of(
            account,
            CharClass::WhiteSpace,
        ) {
            Err::<SubscriptionView, ErrorView>(
                ErrorView::Config("Invalid account market subscription `"@ + w.outer() + "`"@),
            )
        } else {
            Ok(
                SubscriptionView::AccountMarket {
                    market_id: bare(market),
                    account_id: bare(account),
                },
            )
        },
{
    lemma_written(w);
    lemma_two_segments(market, account);
    lemma_not_prefixed(market, account);
    lemma_blank(market);
    lemma_blank(account);
    lemma_quoted("Invalid account market subscription `"@, w.outer());
    let parts = segments(w.inner, CharClass::Slash);
    assert(parts[0] == market && parts[1] == account);
}

proof fn lemma_not_prefixed(market: Seq<char>, rest: Seq<char>)
    requires
        is_free_of(market, CharClass::Slash),
        market != "account_all"@,
        market != "account_market"@,
    ensures
        !"account_all/"@.is_prefix_of(market + "/"@ + rest),
        !"account_market/"@.is_prefix_of(market + "/"@ + rest),
{
    reveal_strlit("account_all/");
    reveal_strlit("account_market/");
    reveal_strlit("account_all");
    reveal_strlit("account_market");
    assert("account_all/"@ =~= "account_all"@.push('/'));
    assert("account_market/"@ =~= "account_market"@.push('/'));
    lemma_prefix_of_join("account_all"@, market, rest);
    lemma_prefix_of_join("account_market"@, market, rest);
}

/// Without a prefix more than one slash is refused.
pub proof fn more_slashes_are_refused(w: Written, first: Seq<char>, second: Seq<char>, rest: Seq<char>)
    requires
        w.wf(),
        is_free_of(first, CharClass::Slash),
        first != "account_all"@,
        first != "account_market"@,
        w.inner == three_parts(first, second, rest),
    ensures
        parse_outcome(w.text()) == Err::<SubscriptionView, ErrorView>(
            ErrorView::Config("Invalid account subscription `"@ + w.outer() + "`"@),
        ),
{
    lemma_written(w);
    lemma_three_parts(first, second, rest);
    reveal_strlit("/");
    assert("/"@ =~= seq!['/']);
    assert(w.inner =~= first + "/"@ + (second + seq!['/'] + rest));
    lemma_not_prefixed(first, second + seq!['/'] + rest);
    lemma_quoted("Invalid account subscription `"@, w.outer());
}

/// The key of a subscription is the account, after the market and a slash where there is one, and
/// its channel is the key after the prefix of its form.
pub proof fn channels_are_keys_after_a_prefix(market: Seq<char>, account: Seq<char>)
    ensures
        ({
            let all = SubscriptionView::AccountAll { account_id: account };
            &&& all.key() == account
            &&& all.channel() == "account_all/"@ + all.key()
        }),
        ({
            let one = SubscriptionView::AccountMarket { market_id: market, account_id: account };
            &&& one.key() == market + seq!['/'] + account
            &&& one.channel() == "account_market/"@ + one.key()
        }),
{
    reveal_strlit("/");
    assert("/"@ =~= seq!['/']);
    let one = SubscriptionView::AccountMarket { market_id: market, account_id: account };
    assert(one.channel() =~= "account_market/"@ + one.key());
}

} // verus!
