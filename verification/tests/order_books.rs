use lighter_ws::json::Json;
use lighter_ws::order_book::{is_zero_level, merge_order_books, update_orders};
use lighter_ws::wire::parse_json;

fn json(text: &str) -> Json {
    parse_json(text).unwrap()
}

fn list(text: &str) -> Vec<Json> {
    match json(text) {
        Json::Array(items) => items,
        _ => panic!("expected a list"),
    }
}

fn prices(levels: &[Json]) -> Vec<&str> {
    levels.iter().map(|level| level.get_str("price").unwrap()).collect()
}

#[test]
fn zero_levels() {
    for text in [
        r#"{"action":"delete","size":"1"}"#,
        r#"{"action":"DeLeTe"}"#,
        r#"{"remaining_base_amount":"0.00"}"#,
        r#"{"size":"0"}"#,
        r#"{"size":"-0.0e7"}"#,
        r#"{"quantity":0}"#,
        r#"{"qty":0.0}"#,
        r#"{"qty":-0.0}"#,
        r#"{"size":"1","qty":"0"}"#,
        r#"{"size":"1e-400"}"#,
        r#"{"size":1e-400}"#,
    ] {
        assert!(is_zero_level(&json(text)), "{text}");
    }
    for text in [
        r#"{}"#,
        r#"{"action":"update","size":"1"}"#,
        r#"{"action":0,"size":"0.1"}"#,
        r#"{"size":""}"#,
        r#"{"size":"none"}"#,
        r#"{"size":null,"qty":false}"#,
        r#"{"size":"nan"}"#,
        r#"{"size":5e-324}"#,
        r#"{"price":"0"}"#,
        r#"[{"size":"0"}]"#,
        r#""0""#,
    ] {
        assert!(!is_zero_level(&json(text)), "{text}");
    }
}

#[test]
fn updates_replace_remove_and_sort() {
    let existing = list(
        r#"[{"price":"10","size":"1"},{"price":"9.5","size":"2"},{"price":"11","size":"3"}]"#,
    );
    let changes = list(
        r#"[{"price":"9.5","size":"0"},{"price":"10","size":"7"},{"price":"100","size":"1"},{"price":"2","size":"1"}]"#,
    );
    let asks = update_orders(&changes, &existing, false);
    assert_eq!(prices(&asks), ["2", "10", "11", "100"]);
    assert_eq!(asks[1].get_str("size"), Some("7"));
    assert_eq!(asks[2].get_str("size"), Some("3"));
    let bids = update_orders(&changes, &existing, true);
    assert_eq!(prices(&bids), ["100", "11", "10", "2"]);
}

#[test]
fn levels_without_a_price_that_is_a_number_are_left_out() {
    let existing = list(r#"[{"price":"x","size":"1"},{"price":5},{"size":"2"},"no",{"price":"3"}]"#);
    let changes = list(r#"[{"price":"y","size":"1"},null,{"price":"-1"}]"#);
    assert_eq!(prices(&update_orders(&changes, &existing, false)), ["-1", "3"]);
}

#[test]
fn the_last_change_at_a_price_counts() {
    let changes = list(
        r#"[{"price":"1","size":"0"},{"price":"1","size":"4"},{"price":"2","size":"5"},{"price":"2","size":"0"}]"#,
    );
    let levels = update_orders(&changes, &Vec::new(), false);
    assert_eq!(prices(&levels), ["1"]);
    assert_eq!(levels[0].get_str("size"), Some("4"));
}

#[test]
fn different_texts_of_one_price_are_different_levels() {
    let existing = list(r#"[{"price":"1.0"},{"price":"1.00"},{"price":"0.5"}]"#);
    let levels = update_orders(&list(r#"[{"price":"1","size":"0"}]"#), &existing, true);
    assert_eq!(levels.len(), 3);
    assert_eq!(prices(&levels)[2], "0.5");
}

#[test]
fn applying_an_update_twice_changes_nothing_more() {
    let existing = list(r#"[{"price":"3","size":"1"},{"price":"4","size":"1"}]"#);
    let changes = list(r#"[{"price":"3","size":"0"},{"price":"5","size":"2"}]"#);
    let once = update_orders(&changes, &existing, false);
    assert_eq!(prices(&once), ["4", "5"]);
    assert_eq!(update_orders(&changes, &once, false), once);
    assert_eq!(update_orders(&Vec::new(), &once, false), once);
}

#[test]
fn a_list_with_a_price_that_is_not_a_number() {
    let existing = list(r#"[{"price":"nan"},{"price":"2"},{"price":"1"},{"price":"inf"}]"#);
    let levels = update_orders(&Vec::new(), &existing, false);
    assert_eq!(prices(&levels), ["1", "2", "inf", "nan"]);
}

#[test]
fn merging_keeps_the_rest_of_the_book() {
    let existing = json(
        r#"{"code":0,"asks":[{"price":"2","size":"1"}],"bids":[{"price":"1","size":"1"}],"offset":7}"#,
    );
    let update = json(r#"{"asks":[{"price":"3","size":"1"},{"price":"2","size":"0"}],"offset":8}"#);
    let merged = merge_order_books(existing, update);
    assert_eq!(merged.get("asks"), Some(&json(r#"[{"price":"3","size":"1"}]"#)));
    assert_eq!(merged.get("bids"), Some(&json(r#"[{"price":"1","size":"1"}]"#)));
    assert_eq!(merged.get("offset"), Some(&json("7")));
    assert_eq!(merged.get("code"), Some(&json("0")));
}

#[test]
fn bids_are_merged_from_the_highest_down() {
    let merged = merge_order_books(
        json(r#"{"bids":[{"price":"1"},{"price":"3"}]}"#),
        json(r#"{"bids":[{"price":"2"}]}"#),
    );
    match merged.get("bids") {
        Some(Json::Array(levels)) => assert_eq!(prices(levels), ["3", "2", "1"]),
        _ => panic!("expected a list"),
    }
}

#[test]
fn sides_that_are_not_lists() {
    let merged = merge_order_books(json(r#"{"asks":5}"#), json(r#"{"asks":[{"price":"1"}],"bids":null}"#));
    assert_eq!(merged.get("asks"), Some(&json(r#"[{"price":"1"}]"#)));
    assert_eq!(merged.get("bids"), Some(&Json::Null));
    let merged = merge_order_books(json(r#"{"asks":[{"price":"1"}]}"#), json(r#"{"asks":"gone"}"#));
    assert_eq!(merged.get("asks"), Some(&json(r#""gone""#)));
}

#[test]
fn books_that_are_not_objects_are_replaced() {
    assert_eq!(merge_order_books(json("[]"), json(r#"{"asks":1}"#)), json(r#"{"asks":1}"#));
    assert_eq!(merge_order_books(json(r#"{"asks":1}"#), json("null")), Json::Null);
    assert_eq!(
        merge_order_books(json(r#"{"asks":1,"x":2}"#), json("{}")),
        json(r#"{"asks":1,"x":2}"#)
    );
}
