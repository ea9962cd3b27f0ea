use lighter_ws::error::LighterError;
use lighter_ws::subscription::{AccountChannelMeta, AccountSubscription};

fn all(id: &str) -> AccountSubscription {
    AccountSubscription::AccountAll {
        account_id: id.to_string(),
    }
}

fn market(market_id: &str, account_id: &str) -> AccountSubscription {
    AccountSubscription::AccountMarket {
        market_id: market_id.to_string(),
        account_id: account_id.to_string(),
    }
}

fn config(message: &str) -> Result<AccountSubscription, LighterError> {
    Err(LighterError::Config(message.to_string()))
}

#[test]
fn parses_account_all_inputs() {
    for input in ["40", "account_all/40", "/account_all/40/"] {
        match AccountSubscription::parse(input).expect("valid account id") {
            AccountSubscription::AccountAll { account_id } => assert_eq!(account_id, "40"),
            _ => panic!("expected account_all"),
        }
    }
}

#[test]
fn parses_account_market_inputs() {
    for input in ["0/40", "account_market/0/40", "/account_market/0/40/"] {
        match AccountSubscription::parse(input).expect("valid account market") {
            AccountSubscription::AccountMarket {
                market_id,
                account_id,
            } => {
                assert_eq!(market_id, "0");
                assert_eq!(account_id, "40");
            }
            _ => panic!("expected account_market"),
        }
    }
}

#[test]
fn rejects_invalid_inputs() {
    assert!(AccountSubscription::parse("account_market/0").is_err());
    assert!(AccountSubscription::parse("account_market//40").is_err());
    assert!(AccountSubscription::parse("").is_err());
}

#[test]
fn errors_quote_the_subscription() {
    assert_eq!(
        AccountSubscription::parse(" \t"),
        config("Account subscription identifier cannot be empty")
    );
    assert_eq!(
        AccountSubscription::parse(" // "),
        config("Invalid account subscription `//`")
    );
    assert_eq!(
        AccountSubscription::parse(" a/b/c "),
        config("Invalid account subscription `a/b/c`")
    );
    assert_eq!(
        AccountSubscription::parse("account_market/0"),
        config("Invalid account market subscription `account_market/0`")
    );
    assert_eq!(
        AccountSubscription::parse("account_market/0/40/1"),
        config("Invalid account market subscription `account_market/0/40/1`")
    );
    assert_eq!(
        AccountSubscription::parse("0/ /"),
        config("Invalid account market subscription `0/ /`")
    );
    assert_eq!(
        AccountSubscription::parse("account_all/ /"),
        config("Invalid account subscription `account_all/ /`: missing account id")
    );
    assert_eq!(
        AccountSubscription::parse_account(" ", "raw"),
        config("Invalid account subscription `raw`: missing account id")
    );
    assert_eq!(
        AccountSubscription::parse_market("1/2/3", "raw"),
        config("Invalid account market subscription `raw`")
    );
    assert_eq!(
        AccountSubscription::parse_market_parts("", "40", "raw"),
        config("Invalid account market subscription `raw`")
    );
}

#[test]
fn white_space_and_slashes_around_are_ignored() {
    for input in ["40", " 40 ", "/40/", "\u{3000}//40//\u{a0}", "account_all/ 40", "account_all/40 /"] {
        assert_eq!(AccountSubscription::parse(input), Ok(all("40")));
    }
    for input in ["0/40", " 0 / 40 ", "//0/40", "account_market/ 0/40 "] {
        assert_eq!(AccountSubscription::parse(input), Ok(market("0", "40")));
    }
}

#[test]
fn prefixes_are_only_read_at_the_start() {
    assert_eq!(AccountSubscription::parse("account_all/a/b"), Ok(all("a/b")));
    assert_eq!(AccountSubscription::parse("account_market"), Ok(all("account_market")));
    assert_eq!(
        AccountSubscription::parse("/ account_all/40"),
        Ok(market("account_all", "40"))
    );
}

#[test]
fn channel_of_a_subscription_parses_back() {
    for input in ["40", "0/40", "account_all/a/b", "/ account_market/7"] {
        let sub = AccountSubscription::parse(input).unwrap();
        assert_eq!(AccountSubscription::parse(&sub.channel()), Ok(sub));
    }
    let sub = AccountSubscription::parse("account_all/40/ /").unwrap();
    assert_eq!(sub, all("40/"));
    assert_eq!(AccountSubscription::parse(&sub.channel()), Ok(all("40")));
}

#[test]
fn keys_and_channels() {
    assert_eq!(all("40").key(), "40");
    assert_eq!(all("40").channel(), "account_all/40");
    assert_eq!(market("0", "40").key(), "0/40");
    assert_eq!(market("0", "40").channel(), "account_market/0/40");
    let meta = AccountChannelMeta::new("0/40".to_string(), true);
    assert_eq!(meta.key, "0/40");
    assert!(meta.requires_auth);
}
