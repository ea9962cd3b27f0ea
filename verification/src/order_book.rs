//! Order books as the exchange sends them, and how an update changes one.

use crate::decimal::{
    number_is_zero, number_le, number_of, number_order_is_total, number_order_is_transitive,
    read_number, Number, NumberView,
};
use crate::json::{json_views, lemma_array_view, put_field, Json, JsonView};
use crate::text::{
    is_in_any_case, is_plain, lower_case_forgets_case_only, lowered, same_text_ignoring_case,
};
use crate::text_map::{find_key, keys_of, lemma_entry, lemma_position, position, TextMap};
use vstd::prelude::*;

verus! {

/// The price of a level: the text under `price`.
pub open spec fn price_of(level: JsonView) -> Option<Seq<char>> {
    level.text_field("price"@)
}

/// Whether an amount, a number or the text of one, is zero.
pub open spec fn amount_is_zero(amount: Option<JsonView>) -> bool {
    match amount {
        Some(JsonView::Text(t)) => number_of(t) matches Some(n) && number_is_zero(n),
        Some(JsonView::Number(t)) => number_of(t) matches Some(n) && number_is_zero(n),
        _ => false,
    }
}

/// Whether a level takes its price out of the book: it says so, or one of its amounts is zero.
pub open spec fn removes_level(level: JsonView) -> bool {
    ||| level.text_field("action"@) matches Some(t) && lowered(t) == "delete"@
    ||| amount_is_zero(level.field("remaining_base_amount"@))
    ||| amount_is_zero(level.field("size"@))
    ||| amount_is_zero(level.field("quantity"@))
    ||| amount_is_zero(level.field("qty"@))
}

/// The levels of a list by price. Levels without a price are left out; of several with the same
/// price the last one counts.
pub open spec fn book_of(levels: Seq<JsonView>) -> Map<Seq<char>, JsonView>
    decreases levels.len(),
{
    if levels.len() == 0 {
        Map::empty()
    } else {
        let book = book_of(levels.drop_last());
        match price_of(levels.last()) {
            Some(p) => book.insert(p, levels.last()),
            None => book,
        }
    }
}

/// `book` after each of `changes` in turn has replaced the level at its price, or removed it.
pub open spec fn book_after(
    book: Map<Seq<char>, JsonView>,
    changes: Seq<JsonView>,
) -> Map<Seq<char>, JsonView>
    decreases changes.len(),
{
    if changes.len() == 0 {
        book
    } else {
        let before = book_after(book, changes.drop_last());
        match price_of(changes.last()) {
            Some(p) if removes_level(changes.last()) => before.remove(p),
            Some(p) => before.insert(p, changes.last()),
            None => before,
        }
    }
}

/// The number that the price of a level spells.
pub open spec fn rank(level: JsonView) -> NumberView {
    number_of(price_of(level)->0)->0
}

/// Whether `a` stands before `b`, or level with it: by falling price for bids (`sort_desc`), by
/// rising price for asks.
pub open spec fn before(a: NumberView, b: NumberView, sort_desc: bool) -> bool {
    if sort_desc {
        number_le(b, a)
    } else {
        number_le(a, b)
    }
}

/// Whether `level` is in `book` under its price, and the price is a number.
pub open spec fn is_level_of(book: Map<Seq<char>, JsonView>, level: JsonView) -> bool {
    &&& price_of(level) matches Some(p)
    &&& number_of(p) is Some
    &&& book.contains_key(p)
    &&& book[p] == level
}

/// Whether `levels` lists every level of `book` that has a number for its price, each once, in
/// the order of the prices.
pub open spec fn is_ladder(
    book: Map<Seq<char>, JsonView>,
    sort_desc: bool,
    levels: Seq<JsonView>,
) -> bool {
    &&& forall|i: int| 0 <= i < levels.len() ==> is_level_of(book, #[trigger] levels[i])
    &&& forall|i: int, j: int|
        0 <= i < j < levels.len() ==> price_of(#[trigger] levels[i]) != price_of(
            #[trigger] levels[j],
        )
    &&& forall|p: Seq<char>| #[trigger]
        book.contains_key(p) && number_of(p) is Some ==> levels.contains(book[p])
    &&& forall|i: int, j: int|
        0 <= i < j < levels.len() ==> before(
            rank(#[trigger] levels[i]),
            rank(#[trigger] levels[j]),
            sort_desc,
        )
}

/// Whether an amount is zero.
fn is_zero_amount(amount: Option<&Json>) -> (r: bool)
    ensures
        r == amount_is_zero(
            match amount {
                Some(a) => Some(a@),
                None => None,
            },
        ),
{
    let text = match amount {
        Some(Json::Text(t)) => t.as_str(),
        Some(Json::Number(t)) => t.as_str(),
        _ => {
            return false;
        },
    };
    match read_number(text) {
        Some(n) => n.is_zero(),
        None => false,
    }
}

/// Whether a level takes its price out of the book.
pub fn is_zero_level(order: &Json) -> (r: bool)
    ensures
        r == removes_level(order@),
{
    if let Some(action) = order.get_str("action") {
        proof {
            reveal_strlit("delete");
            assert(lowered("delete"@) =~= "delete"@);
        }
        if same_text_ignoring_case(action, "delete") {
            return true;
        }
    }
    is_zero_amount(order.get("remaining_base_amount")) || is_zero_amount(order.get("size"))
        || is_zero_amount(order.get("quantity")) || is_zero_amount(order.get("qty"))
}

/// What each value of a map holds.
pub open spec fn model_of(m: Map<Seq<char>, Json>) -> Map<Seq<char>, JsonView> {
    m.map_values(|j: Json| j@)
}

/// Every level of a book stands under its own price.
pub open spec fn keyed_by_price(book: Map<Seq<char>, JsonView>) -> bool {
    forall|p: Seq<char>| #[trigger] book.contains_key(p) ==> price_of(book[p]) == Some(p)
}

proof fn lemma_book_keyed(levels: Seq<JsonView>)
    ensures
        keyed_by_price(book_of(levels)),
    decreases levels.len(),
{
    if levels.len() > 0 {
        lemma_book_keyed(levels.drop_last());
    }
}

proof fn lemma_book_after_keyed(book: Map<Seq<char>, JsonView>, changes: Seq<JsonView>)
    requires
        keyed_by_price(book),
    ensures
        keyed_by_price(book_after(book, changes)),
    decreases changes.len(),
{
    if changes.len() > 0 {
        lemma_book_after_keyed(book, changes.drop_last());
    }
}

/// The levels of two lists by price, the second list applied to the first.
fn apply_levels(new_orders: &Vec<Json>, existing_orders: &Vec<Json>) -> (book: TextMap<Json>)
    ensures
        book.wf(),
        model_of(book@) == book_after(
            book_of(json_views(existing_orders@)),
            json_views(new_orders@),
        ),
{
    let ghost old_levels = json_views(existing_orders@);
    let ghost changes = json_views(new_orders@);
    let mut book: TextMap<Json> = TextMap::new();
    assert(old_levels.take(0) =~= Seq::<JsonView>::empty());
    assert(model_of(book@) =~= Map::<Seq<char>, JsonView>::empty());
    for i in 0..existing_orders.len()
        invariant
            old_levels == json_views(existing_orders@),
            book.wf(),
            model_of(book@) == book_of(old_levels.take(i as int)),
    {
        let order = &existing_orders[i];
        assert(old_levels.take(i + 1).drop_last() =~= old_levels.take(i as int));
        assert(old_levels.take(i + 1).last() == order@);
        if let Some(price) = order.get_str("price") {
            let ghost held = book@;
            let copy = order.clone();
            book.insert(price.to_owned(), copy);
            assert(model_of(book@) =~= model_of(held).insert(price@, order@));
        }
    }
    assert(old_levels.take(existing_orders@.len() as int) =~= old_levels);
    assert(changes.take(0) =~= Seq::<JsonView>::empty());
    for i in 0..new_orders.len()
        invariant
            changes == json_views(new_orders@),
            book.wf(),
            model_of(book@) == book_after(book_of(old_levels), changes.take(i as int)),
    {
        let order = &new_orders[i];
        assert(changes.take(i + 1).drop_last() =~= changes.take(i as int));
        assert(changes.take(i + 1).last() == order@);
        if let Some(price) = order.get_str("price") {
            let ghost held = book@;
            if is_zero_level(order) {
                book.remove(price);
                assert(model_of(book@) =~= model_of(held).remove(price@));
            } else {
                let copy = order.clone();
                book.insert(price.to_owned(), copy);
                assert(model_of(book@) =~= model_of(held).insert(price@, order@));
            }
        }
    }
    assert(changes.take(new_orders@.len() as int) =~= changes);
    book
}

/// A place in a list of ranked levels: everything ahead of it stands before `n`, and `n` stands
/// before everything from it on.
spec fn is_place(numbers: Seq<Number>, n: NumberView, sort_desc: bool, place: int) -> bool {
    &&& 0 <= place <= numbers.len()
    &&& forall|j: int| 0 <= j < place ==> before((#[trigger] numbers[j])@, n, sort_desc)
    &&& forall|j: int|
        place <= j < numbers.len() ==> before(n, (#[trigger] numbers[j])@, sort_desc)
}

spec fn in_order(numbers: Seq<Number>, sort_desc: bool) -> bool {
    forall|i: int, j: int|
        0 <= i < j < numbers.len() ==> before(
            (#[trigger] numbers[i])@,
            (#[trigger] numbers[j])@,
            sort_desc,
        )
}

/// Where `n` belongs among numbers that are in order.
fn find_place(numbers: &Vec<Number>, n: &Number, sort_desc: bool) -> (place: usize)
    requires
        n.wf(),
        forall|j: int| 0 <= j < numbers@.len() ==> (#[trigger] numbers@[j]).wf(),
        in_order(numbers@, sort_desc),
    ensures
        is_place(numbers@, n@, sort_desc, place as int),
{
    let mut place: usize = 0;
    while place < numbers.len()
        invariant
            n.wf(),
            forall|j: int| 0 <= j < numbers@.len() ==> (#[trigger] numbers@[j]).wf(),
            in_order(numbers@, sort_desc),
            place <= numbers@.len(),
            forall|j: int| 0 <= j < place ==> before((#[trigger] numbers@[j])@, n@, sort_desc),
        decreases numbers@.len() - place,
    {
        let reached = if sort_desc {
            numbers[place].le(n)
        } else {
            n.le(&numbers[place])
        };
        if reached {
            assert forall|j: int| place <= j < numbers@.len() implies before(
                n@,
                (#[trigger] numbers@[j])@,
                sort_desc,
            ) by {
                if j > place {
                    let (a, b, c) = (n@, numbers@[place as int]@, numbers@[j]@);
                    assert(before(b, c, sort_desc));
                    if sort_desc {
                        number_order_is_transitive(c, b, a);
                    } else {
                        number_order_is_transitive(a, b, c);
                    }
                }
            }
            return place;
        }
        proof {
            number_order_is_total(numbers@[place as int]@, n@);
        }
        place += 1;
    }
    place
}

/// Whether `level` is one of the entries from `from` on.
spec fn came_from(entries: Seq<(String, Json)>, from: int, level: JsonView) -> bool {
    exists|m: int| from <= m < entries.len() && (#[trigger] entries[m]).1@ == level
}

/// Whether `level` is one of `orders`.
spec fn is_listed(orders: Seq<Json>, level: JsonView) -> bool {
    exists|j: int| 0 <= j < orders.len() && (#[trigger] orders[j])@ == level
}

/// Whether no two orders have the same price.
spec fn distinct_prices(orders: Seq<Json>) -> bool {
    forall|i: int, j: int|
        0 <= i < j < orders.len() ==> price_of((#[trigger] orders[i])@) != price_of(
            (#[trigger] orders[j])@,
        )
}

/// Whether each order stands beside the number that its price spells.
spec fn are_ranks(numbers: Seq<Number>, orders: Seq<Json>) -> bool {
    &&& numbers.len() == orders.len()
    &&& forall|j: int| 0 <= j < numbers.len() ==> (#[trigger] numbers[j]).wf()
    &&& forall|j: int|
        0 <= j < orders.len() ==> number_of(price_of((#[trigger] orders[j])@)->0) == Some(
            numbers[j]@,
        )
}

/// What is kept of the entries of a book from `from` on: their levels, each with its rank, in
/// order.
spec fn is_ranked(
    entries: Seq<(String, Json)>,
    from: int,
    numbers: Seq<Number>,
    orders: Seq<Json>,
    sort_desc: bool,
) -> bool {
    &&& are_ranks(numbers, orders)
    &&& in_order(numbers, sort_desc)
    &&& distinct_prices(orders)
    &&& forall|j: int|
        0 <= j < orders.len() ==> came_from(entries, from, (#[trigger] orders[j])@)
    &&& forall|m: int|
        from <= m < entries.len() && number_of((#[trigger] entries[m]).0@) is Some ==> is_listed(
            orders,
            entries[m].1@,
        )
}

/// Each entry of a book has its price for key.
spec fn entries_keyed(entries: Seq<(String, Json)>) -> bool {
    forall|m: int|
        0 <= m < entries.len() ==> price_of((#[trigger] entries[m]).1@) == Some(entries[m].0@)
}

proof fn lemma_order_insert(numbers: Seq<Number>, sort_desc: bool, n: Number, place: int)
    requires
        in_order(numbers, sort_desc),
        is_place(numbers, n@, sort_desc, place),
    ensures
        in_order(numbers.insert(place, n), sort_desc),
{
    let after = numbers.insert(place, n);
    assert forall|i: int, j: int| 0 <= i < j < after.len() implies before(
        (#[trigger] after[i])@,
        (#[trigger] after[j])@,
        sort_desc,
    ) by {
        let i2 = if i < place {
            i
        } else {
            i - 1
        };
        let j2 = if j < place {
            j
        } else {
            j - 1
        };
        if i == place {
            assert(after[j] == numbers[j2]);
        } else if j == place {
            assert(after[i] == numbers[i2]);
        } else {
            assert(after[i] == numbers[i2]);
            assert(after[j] == numbers[j2]);
        }
    }
}

proof fn lemma_listed_insert(orders: Seq<Json>, order: Json, place: int, level: JsonView)
    requires
        0 <= place <= orders.len(),
        is_listed(orders, level) || level == order@,
    ensures
        is_listed(orders.insert(place, order), level),
{
    let after = orders.insert(place, order);
    if level == order@ {
        assert(after[place]@ == level);
    } else {
        let i = choose|i: int| 0 <= i < orders.len() && (#[trigger] orders[i])@ == level;
        let j = if i < place {
            i
        } else {
            i + 1
        };
        assert(after[j] == orders[i]);
    }
}

proof fn lemma_distinct_insert(orders: Seq<Json>, order: Json, place: int)
    requires
        0 <= place <= orders.len(),
        distinct_prices(orders),
        forall|i: int|
            0 <= i < orders.len() ==> price_of((#[trigger] orders[i])@) != price_of(order@),
    ensures
        distinct_prices(orders.insert(place, order)),
{
    let after = orders.insert(place, order);
    assert forall|i: int, j: int| 0 <= i < j < after.len() implies price_of(
        (#[trigger] after[i])@,
    ) != price_of((#[trigger] after[j])@) by {
        let i2 = if i < place {
            i
        } else {
            i - 1
        };
        let j2 = if j < place {
            j
        } else {
            j - 1
        };
        if i == place {
            assert(after[j] == orders[j2]);
        } else if j == place {
            assert(after[i] == orders[i2]);
        } else {
            assert(after[i] == orders[i2]);
            assert(after[j] == orders[j2]);
        }
    }
}

/// Putting the entry before `from` in its place keeps the list ranked.
#[verifier::rlimit(40)]
proof fn lemma_ranked_insert(
    entries: Seq<(String, Json)>,
    from: int,
    numbers: Seq<Number>,
    orders: Seq<Json>,
    sort_desc: bool,
    n: Number,
    place: int,
)
    requires
        0 < from <= entries.len(),
        keys_of(entries).no_duplicates(),
        entries_keyed(entries),
        is_ranked(entries, from, numbers, orders, sort_desc),
        n.wf(),
        number_of(entries[from - 1].0@) == Some(n@),
        is_place(numbers, n@, sort_desc, place),
    ensures
        is_ranked(
            entries,
            from - 1,
            numbers.insert(place, n),
            orders.insert(place, entries[from - 1].1),
            sort_desc,
        ),
{
    let order = entries[from - 1].1;
    let numbers2 = numbers.insert(place, n);
    let orders2 = orders.insert(place, order);
    lemma_order_insert(numbers, sort_desc, n, place);
    assert forall|i: int| 0 <= i < orders.len() implies price_of((#[trigger] orders[i])@)
        != price_of(order@) by {
        let m = choose|m: int|
            from <= m < entries.len() && (#[trigger] entries[m]).1@ == orders[i]@;
        assert(keys_of(entries)[m] != keys_of(entries)[from - 1]);
    }
    lemma_distinct_insert(orders, order, place);
    assert forall|j: int| 0 <= j < orders2.len() implies came_from(
        entries,
        from - 1,
        (#[trigger] orders2[j])@,
    ) by {
        if j == place {
            assert(entries[from - 1].1@ == orders2[j]@);
        } else {
            let i = if j < place {
                j
            } else {
                j - 1
            };
            assert(orders2[j] == orders[i]);
            let m = choose|m: int|
                from <= m < entries.len() && (#[trigger] entries[m]).1@ == orders[i]@;
            assert(entries[m].1@ == orders2[j]@);
        }
    }
    assert forall|m: int|
        from - 1 <= m < entries.len() && number_of(
            (#[trigger] entries[m]).0@,
        ) is Some implies is_listed(orders2, entries[m].1@) by {
        lemma_listed_insert(orders, order, place, entries[m].1@);
    }
    assert forall|j: int| 0 <= j < orders2.len() implies number_of(
        price_of((#[trigger] orders2[j])@)->0,
    ) == Some(numbers2[j]@) by {
        if j != place {
            let i = if j < place {
                j
            } else {
                j - 1
            };
            assert(orders2[j] == orders[i]);
            assert(numbers2[j] == numbers[i]);
        }
    }
    assert forall|j: int| 0 <= j < numbers2.len() implies (#[trigger] numbers2[j]).wf() by {
        if j != place {
            let i = if j < place {
                j
            } else {
                j - 1
            };
            assert(numbers2[j] == numbers[i]);
        }
    }
}

/// The levels of a book, in the order of their prices.
fn ladder_of(book: TextMap<Json>, sort_desc: bool) -> (levels: Vec<Json>)
    requires
        book.wf(),
        keyed_by_price(model_of(book@)),
    ensures
        is_ladder(model_of(book@), sort_desc, json_views(levels@)),
{
    let mut entries = book.entries;
    let ghost all = entries@;
    let mut numbers: Vec<Number> = Vec::new();
    let mut orders: Vec<Json> = Vec::new();
    proof {
        assert forall|m: int| 0 <= m < all.len() implies price_of((#[trigger] all[m]).1@) == Some(
            all[m].0@,
        ) by {
            lemma_entry(all, m);
            assert(model_of(book@).contains_key(all[m].0@));
        }
    }
    assert(all.take(all.len() as int) =~= all);
    while entries.len() > 0
        invariant
            keys_of(all).no_duplicates(),
            entries_keyed(all),
            entries@.len() <= all.len(),
            entries@ == all.take(entries@.len() as int),
            is_ranked(all, entries@.len() as int, numbers@, orders@, sort_desc),
        decreases entries@.len(),
    {
        let ghost from = entries@.len() as int;
        let (price, order) = entries.pop().unwrap();
        assert((price, order) == all[from - 1]);
        assert(entries@ =~= all.take(from - 1));
        match read_number(price.as_str()) {
            Some(n) => {
                let place: usize = find_place(&numbers, &n, sort_desc);
                proof {
                    lemma_ranked_insert(
                        all,
                        from,
                        numbers@,
                        orders@,
                        sort_desc,
                        n,
                        place as int,
                    );
                }
                numbers.insert(place, n);
                orders.insert(place, order);
            },
            None => {},
        }
    }
    proof {
        lemma_ladder(book, numbers@, orders@, sort_desc);
    }
    orders
}

proof fn lemma_ladder(
    book: TextMap<Json>,
    numbers: Seq<Number>,
    orders: Seq<Json>,
    sort_desc: bool,
)
    requires
        book.wf(),
        entries_keyed(book.entries@),
        is_ranked(book.entries@, 0, numbers, orders, sort_desc),
    ensures
        is_ladder(model_of(book@), sort_desc, json_views(orders)),
{
    let entries = book.entries@;
    let model = model_of(book@);
    let levels = json_views(orders);
    assert forall|i: int| 0 <= i < levels.len() implies is_level_of(model, #[trigger] levels[i]) by {
        assert(came_from(entries, 0, orders[i]@));
        let m = choose|m: int|
            0 <= m < entries.len() && (#[trigger] entries[m]).1@ == orders[i]@;
        lemma_entry(entries, m);
        assert(number_of(price_of(orders[i]@)->0) is Some);
    }
    assert forall|p: Seq<char>| #[trigger] model.contains_key(p) && number_of(
        p,
    ) is Some implies levels.contains(model[p]) by {
        lemma_position(entries, p);
        let m = position(entries, p);
        assert(number_of(entries[m].0@) is Some);
        assert(is_listed(orders, entries[m].1@));
        let j = choose|j: int| 0 <= j < orders.len() && (#[trigger] orders[j])@ == entries[m].1@;
        assert(levels[j] == model[p]);
    }
    assert forall|i: int, j: int| 0 <= i < j < levels.len() implies before(
        rank(#[trigger] levels[i]),
        rank(#[trigger] levels[j]),
        sort_desc,
    ) by {
        assert(number_of(price_of(orders[i]@)->0) == Some(numbers[i]@));
        assert(number_of(price_of(orders[j]@)->0) == Some(numbers[j]@));
        assert(before(numbers[i]@, numbers[j]@, sort_desc));
    }
    assert forall|i: int, j: int| 0 <= i < j < levels.len() implies price_of(#[trigger] levels[i])
        != price_of(#[trigger] levels[j]) by {
        assert(price_of(orders[i]@) != price_of(orders[j]@));
    }
}

/// The levels that are left once `new_orders` are applied to `existing_orders`, in the order of
/// their prices: falling where `sort_desc` is set, rising where it is not. A level whose price is
/// not a number is left out.
pub fn update_orders(
    new_orders: &Vec<Json>,
    existing_orders: &Vec<Json>,
    sort_desc: bool,
) -> (levels: Vec<Json>)
    ensures
        is_ladder(
            book_after(book_of(json_views(existing_orders@)), json_views(new_orders@)),
            sort_desc,
            json_views(levels@),
        ),
{
    let book = apply_levels(new_orders, existing_orders);
    proof {
        lemma_book_keyed(json_views(existing_orders@));
        lemma_book_after_keyed(
            book_of(json_views(existing_orders@)),
            json_views(new_orders@),
        );
    }
    ladder_of(book, sort_desc)
}

/// The levels of a side of a book; none where it is not a list.
pub open spec fn levels_of(side: Option<JsonView>) -> Seq<JsonView> {
    match side {
        Some(JsonView::Array(levels)) => levels,
        _ => Seq::empty(),
    }
}

/// Whether `result` is what becomes of the side `old` of a book once `new` is merged into it: a
/// list of levels is applied level by level, anything else replaces the side, and without `new`
/// it stays as it is.
pub open spec fn is_merged_side(
    old: Option<JsonView>,
    new: Option<JsonView>,
    sort_desc: bool,
    result: Option<JsonView>,
) -> bool {
    match new {
        Some(JsonView::Array(changes)) => {
            &&& result matches Some(JsonView::Array(levels))
            &&& is_ladder(book_after(book_of(levels_of(old)), changes), sort_desc, levels)
        },
        Some(v) => result == Some(v),
        None => result == old,
    }
}

/// Whether `result` is the book `existing` with `update` merged into it: both sides are merged
/// and every other member of `existing` stays. Where either is not an object, `update` takes the
/// place of the book.
pub open spec fn is_merged_book(existing: JsonView, update: JsonView, result: JsonView) -> bool {
    if existing is Object && update is Object {
        &&& result is Object
        &&& is_merged_side(
            existing.field("asks"@),
            update.field("asks"@),
            false,
            result.field("asks"@),
        )
        &&& is_merged_side(
            existing.field("bids"@),
            update.field("bids"@),
            true,
            result.field("bids"@),
        )
        &&& forall|key: Seq<char>|
            key != "asks"@ && key != "bids"@ ==> #[trigger] result.field(key) == existing.field(key)
    } else {
        result == update
    }
}

/// Merges the side `key` of `update` into the book that `book` are the members of.
fn merge_side(book: &mut Vec<(String, Json)>, update: &Json, key: &str, sort_desc: bool)
    ensures
        Json::Object(*final(book))@ is Object,
        is_merged_side(
            Json::Object(*old(book))@.field(key@),
            update@.field(key@),
            sort_desc,
            Json::Object(*final(book))@.field(key@),
        ),
        forall|k: Seq<char>|
            k != key@ ==> #[trigger] Json::Object(*final(book))@.field(k) == Json::Object(
                *old(book),
            )@.field(k),
{
    match update.get(key) {
        Some(Json::Array(changes)) => {
            let p: usize = find_key(book, key);
            let no_levels: Vec<Json> = Vec::new();
            let current = if p < book.len() {
                match &book[p].1 {
                    Json::Array(levels) => levels,
                    _ => &no_levels,
                }
            } else {
                &no_levels
            };
            let merged = update_orders(changes, current, sort_desc);
            proof {
                lemma_array_view(*changes);
                lemma_array_view(*current);
                lemma_array_view(merged);
                assert(json_views(no_levels@) =~= Seq::<JsonView>::empty());
                let side = Json::Object(*book)@.field(key@);
                if p < book@.len() {
                    let held = book@[p as int].1;
                    assert(side == Some(held@));
                    if held is Array {
                        assert(held == Json::Array(*current));
                    } else {
                        assert(!(held@ is Array));
                    }
                }
                assert(json_views(current@) == levels_of(side));
            }
            put_field(book, key.to_owned(), Json::Array(merged));
        },
        Some(other) => {
            let copy = other.clone();
            put_field(book, key.to_owned(), copy);
        },
        None => {},
    }
}

/// The order book `existing` with `update` merged into it.
pub fn merge_order_books(existing: Json, update: Json) -> (r: Json)
    ensures
        is_merged_book(existing@, update@, r@),
{
    match existing {
        Json::Object(fields) => {
            if let Json::Object(_) = &update {
                let mut book = fields;
                proof {
                    reveal_strlit("asks");
                    reveal_strlit("bids");
                    assert("asks"@[0] != "bids"@[0]);
                }
                merge_side(&mut book, &update, "asks", false);
                merge_side(&mut book, &update, "bids", true);
                Json::Object(book)
            } else {
                update
            }
        },
        _ => update,
    }
}

/// The last of `changes` that has the price `p`, if any has.
pub open spec fn last_change(changes: Seq<JsonView>, p: Seq<char>) -> Option<JsonView>
    decreases changes.len(),
{
    if changes.len() == 0 {
        None
    } else if price_of(changes.last()) == Some(p) {
        Some(changes.last())
    } else {
        last_change(changes.drop_last(), p)
    }
}

/// What an update does to a price is what its last change at that price says: the price is gone
/// where it removes the level, it has that level where it does not, and a price without a change
/// keeps what it had.
pub proof fn last_change_decides(
    book: Map<Seq<char>, JsonView>,
    changes: Seq<JsonView>,
    p: Seq<char>,
)
    ensures
        ({
            let after = book_after(book, changes);
            match last_change(changes, p) {
                Some(change) => {
                    &&& after.contains_key(p) <==> !removes_level(change)
                    &&& !removes_level(change) ==> after[p] == change
                },
                None => {
                    &&& after.contains_key(p) <==> book.contains_key(p)
                    &&& book.contains_key(p) ==> after[p] == book[p]
                },
            }
        }),
    decreases changes.len(),
{
    if changes.len() > 0 {
        last_change_decides(book, changes.drop_last(), p);
    }
}

/// Once a level is removed no level is listed at its price.
pub proof fn removed_level_is_not_listed(
    book: Map<Seq<char>, JsonView>,
    changes: Seq<JsonView>,
    sort_desc: bool,
    levels: Seq<JsonView>,
    p: Seq<char>,
)
    requires
        is_ladder(book_after(book, changes), sort_desc, levels),
        last_change(changes, p) matches Some(change) && removes_level(change),
    ensures
        forall|i: int| 0 <= i < levels.len() ==> price_of(#[trigger] levels[i]) != Some(p),
{
    last_change_decides(book, changes, p);
    assert forall|i: int| 0 <= i < levels.len() implies price_of(#[trigger] levels[i]) != Some(
        p,
    ) by {
        assert(is_level_of(book_after(book, changes), levels[i]));
    }
}

/// A level that an update sets is listed, where its price is a number, and no other level is
/// listed at that price.
pub proof fn changed_level_is_listed(
    book: Map<Seq<char>, JsonView>,
    changes: Seq<JsonView>,
    sort_desc: bool,
    levels: Seq<JsonView>,
    p: Seq<char>,
)
    requires
        is_ladder(book_after(book, changes), sort_desc, levels),
        last_change(changes, p) matches Some(change) && !removes_level(change),
        number_of(p) is Some,
    ensures
        levels.contains(last_change(changes, p)->0),
        forall|i: int|
            0 <= i < levels.len() && price_of(#[trigger] levels[i]) == Some(p) ==> levels[i]
                == last_change(changes, p)->0,
{
    last_change_decides(book, changes, p);
    assert(book_after(book, changes).contains_key(p));
    assert forall|i: int| 0 <= i < levels.len() && price_of(#[trigger] levels[i]) == Some(
        p,
    ) implies levels[i] == last_change(changes, p)->0 by {
        assert(is_level_of(book_after(book, changes), levels[i]));
    }
}

/// A level that an update does not mention stays as it was.
pub proof fn untouched_level_stays(
    book: Map<Seq<char>, JsonView>,
    changes: Seq<JsonView>,
    sort_desc: bool,
    levels: Seq<JsonView>,
    p: Seq<char>,
)
    requires
        is_ladder(book_after(book, changes), sort_desc, levels),
        last_change(changes, p) is None,
        book.contains_key(p),
        number_of(p) is Some,
    ensures
        levels.contains(book[p]),
{
    last_change_decides(book, changes, p);
    assert(book_after(book, changes).contains_key(p));
}

/// Applying the same changes once more changes nothing.
pub proof fn changes_are_idempotent(book: Map<Seq<char>, JsonView>, changes: Seq<JsonView>)
    ensures
        book_after(book_after(book, changes), changes) == book_after(book, changes),
{
    let once = book_after(book, changes);
    let twice = book_after(once, changes);
    assert forall|p: Seq<char>| #[trigger]
        twice.contains_key(p) == once.contains_key(p) && (once.contains_key(p) ==> twice[p]
            == once[p]) by {
        last_change_decides(book, changes, p);
        last_change_decides(once, changes, p);
    }
    assert(twice =~= once);
}

/// A book lists its levels in one way but for levels whose prices are the same number: two lists
/// of the same book have the same levels.
pub proof fn ladders_list_the_same_levels(
    book: Map<Seq<char>, JsonView>,
    sort_desc: bool,
    a: Seq<JsonView>,
    b: Seq<JsonView>,
)
    requires
        is_ladder(book, sort_desc, a),
        is_ladder(book, sort_desc, b),
    ensures
        forall|level: JsonView| #[trigger] a.contains(level) <==> b.contains(level),
        a.len() == b.len(),
{
    assert forall|level: JsonView| #[trigger] a.contains(level) <==> b.contains(level) by {
        lemma_listed_in_other(book, sort_desc, a, b, level);
        lemma_listed_in_other(book, sort_desc, b, a, level);
    }
    lemma_ladder_distinct(book, sort_desc, a);
    lemma_ladder_distinct(book, sort_desc, b);
    a.unique_seq_to_set();
    b.unique_seq_to_set();
    assert(a.to_set() =~= b.to_set());
}

proof fn lemma_listed_in_other(
    book: Map<Seq<char>, JsonView>,
    sort_desc: bool,
    a: Seq<JsonView>,
    b: Seq<JsonView>,
    level: JsonView,
)
    requires
        is_ladder(book, sort_desc, a),
        is_ladder(book, sort_desc, b),
    ensures
        a.contains(level) ==> b.contains(level),
{
    if a.contains(level) {
        let i = choose|i: int| 0 <= i < a.len() && a[i] == level;
        assert(is_level_of(book, a[i]));
        assert(book.contains_key(price_of(level)->0));
    }
}

proof fn lemma_ladder_distinct(
    book: Map<Seq<char>, JsonView>,
    sort_desc: bool,
    levels: Seq<JsonView>,
)
    requires
        is_ladder(book, sort_desc, levels),
    ensures
        levels.no_duplicates(),
{
    assert forall|i: int, j: int|
        0 <= i < levels.len() && 0 <= j < levels.len() && i != j implies levels[i] != levels[j] by {
        if i < j {
            assert(price_of(levels[i]) != price_of(levels[j]));
        } else {
            assert(price_of(levels[j]) != price_of(levels[i]));
        }
    }
}

/// A list of levels in order is the list of its own levels: reading a side of a merged book
/// again loses nothing.
pub proof fn ladder_is_its_own_ladder(
    book: Map<Seq<char>, JsonView>,
    sort_desc: bool,
    levels: Seq<JsonView>,
)
    requires
        is_ladder(book, sort_desc, levels),
    ensures
        is_ladder(book_of(levels), sort_desc, levels),
{
    assert forall|i: int| 0 <= i < levels.len() implies is_level_of(
        book_of(levels),
        #[trigger] levels[i],
    ) by {
        assert(is_level_of(book, levels[i]));
        lemma_book_of_distinct(levels, i);
    }
    assert forall|p: Seq<char>| #[trigger] book_of(levels).contains_key(p) && number_of(
        p,
    ) is Some implies levels.contains(book_of(levels)[p]) by {
        lemma_book_of_lists(levels, p);
    }
}

proof fn lemma_book_of_lists(levels: Seq<JsonView>, p: Seq<char>)
    requires
        book_of(levels).contains_key(p),
    ensures
        levels.contains(book_of(levels)[p]),
        price_of(book_of(levels)[p]) == Some(p),
    decreases levels.len(),
{
    let n = levels.len() - 1;
    if price_of(levels.last()) == Some(p) {
        assert(levels[n] == levels.last());
    } else {
        lemma_book_of_lists(levels.drop_last(), p);
        let level = book_of(levels)[p];
        let i = choose|i: int| 0 <= i < n && levels.drop_last()[i] == level;
        assert(levels[i] == level);
    }
}

proof fn lemma_book_of_distinct(levels: Seq<JsonView>, i: int)
    requires
        0 <= i < levels.len(),
        price_of(levels[i]) is Some,
        forall|i: int, j: int|
            0 <= i < j < levels.len() ==> price_of(#[trigger] levels[i]) != price_of(
                #[trigger] levels[j],
            ),
    ensures
        book_of(levels).contains_key(price_of(levels[i])->0),
        book_of(levels)[price_of(levels[i])->0] == levels[i],
    decreases levels.len(),
{
    let n = levels.len() - 1;
    if i < n {
        let shorter = levels.drop_last();
        assert(shorter[i] == levels[i]);
        lemma_book_of_distinct(shorter, i);
        assert(price_of(levels[i]) != price_of(levels[n]));
    }
}

/// An update without asks and bids leaves the book as it is.
pub proof fn empty_update_changes_nothing(existing: JsonView, update: JsonView, result: JsonView)
    requires
        is_merged_book(existing, update, result),
        existing is Object,
        update is Object,
        update.field("asks"@) is None,
        update.field("bids"@) is None,
    ensures
        result == existing,
{
    let (a, b) = (existing->Object_0, result->Object_0);
    assert forall|k: Seq<char>| #[trigger]
        b.contains_key(k) == a.contains_key(k) && (a.contains_key(k) ==> b[k] == a[k]) by {
        assert(result.field(k) == existing.field(k));
    }
    assert(a =~= b);
}

/// Merging the same update into a side once more lists the same levels.
pub proof fn merging_twice_is_merging_once(
    old: Option<JsonView>,
    new: Option<JsonView>,
    sort_desc: bool,
    once: Option<JsonView>,
    twice: Option<JsonView>,
)
    requires
        is_merged_side(old, new, sort_desc, once),
        is_merged_side(once, new, sort_desc, twice),
    ensures
        forall|level: JsonView| #[trigger]
            levels_of(twice).contains(level) <==> levels_of(once).contains(level),
        levels_of(twice).len() == levels_of(once).len(),
        !(new matches Some(JsonView::Array(_))) ==> twice == once,
{
    if let Some(JsonView::Array(changes)) = new {
        let levels = levels_of(once);
        let first = book_after(book_of(levels_of(old)), changes);
        let second = book_after(book_of(levels), changes);
        assert forall|i: int| 0 <= i < levels.len() implies is_level_of(
            second,
            #[trigger] levels[i],
        ) by {
            assert(is_level_of(first, levels[i]));
            let p = price_of(levels[i])->0;
            last_change_decides(book_of(levels_of(old)), changes, p);
            last_change_decides(book_of(levels), changes, p);
            lemma_book_of_distinct(levels, i);
        }
        assert forall|p: Seq<char>| #[trigger] second.contains_key(p) && number_of(
            p,
        ) is Some implies levels.contains(second[p]) by {
            last_change_decides(book_of(levels_of(old)), changes, p);
            last_change_decides(book_of(levels), changes, p);
            if last_change(changes, p) is None {
                lemma_book_of_lists(levels, p);
            } else {
                assert(first.contains_key(p));
            }
        }
        ladders_list_the_same_levels(second, sort_desc, levels, levels_of(twice));
    }
}

/// Once lists of asks and bids are merged, asks stand by rising price, bids by falling price, and
/// neither side has a price twice.
pub proof fn merged_sides_are_sorted(existing: JsonView, update: JsonView, result: JsonView)
    requires
        is_merged_book(existing, update, result),
        existing is Object,
        update is Object,
        update.field("asks"@) matches Some(JsonView::Array(_)),
        update.field("bids"@) matches Some(JsonView::Array(_)),
    ensures
        ({
            let (asks, bids) = (levels_of(result.field("asks"@)), levels_of(result.field("bids"@)));
            &&& forall|i: int, j: int|
                0 <= i < j < asks.len() ==> {
                    &&& number_le(rank(#[trigger] asks[i]), rank(#[trigger] asks[j]))
                    &&& price_of(asks[i]) != price_of(asks[j])
                }
            &&& forall|i: int, j: int|
                0 <= i < j < bids.len() ==> {
                    &&& number_le(rank(#[trigger] bids[j]), rank(#[trigger] bids[i]))
                    &&& price_of(bids[i]) != price_of(bids[j])
                }
        }),
{
    let (asks, bids) = (levels_of(result.field("asks"@)), levels_of(result.field("bids"@)));
    assert forall|i: int, j: int| 0 <= i < j < asks.len() implies {
        &&& number_le(rank(#[trigger] asks[i]), rank(#[trigger] asks[j]))
        &&& price_of(asks[i]) != price_of(asks[j])
    } by {
        assert(before(rank(asks[i]), rank(asks[j]), false));
    }
    assert forall|i: int, j: int| 0 <= i < j < bids.len() implies {
        &&& number_le(rank(#[trigger] bids[j]), rank(#[trigger] bids[i]))
        &&& price_of(bids[i]) != price_of(bids[j])
    } by {
        assert(before(rank(bids[i]), rank(bids[j]), true));
    }
}

/// A level whose action is to delete, in upper or lower case, is taken out whatever else it holds.
pub proof fn delete_action_removes(level: JsonView, action: Seq<char>)
    requires
        level.text_field("action"@) == Some(action),
        is_in_any_case(action, "delete"@),
    ensures
        removes_level(level),
{
    lemma_delete(action);
}

proof fn lemma_delete(action: Seq<char>)
    ensures
        lowered(action) == "delete"@ <==> is_in_any_case(action, "delete"@),
{
    reveal_strlit("delete");
    assert(is_plain("delete"@));
    lower_case_forgets_case_only(action, "delete"@);
}

/// A level with zero under any one of its amounts, as a number or as text, is taken out whatever
/// else it holds.
pub proof fn zero_amount_removes(level: JsonView, key: Seq<char>, amount: Seq<char>)
    requires
        key == "remaining_base_amount"@ || key == "size"@ || key == "quantity"@ || key == "qty"@,
        level.field(key) == Some(JsonView::Text(amount)) || level.field(key) == Some(
            JsonView::Number(amount),
        ),
        number_of(amount) is Some,
        number_is_zero(number_of(amount)->0),
    ensures
        removes_level(level),
{
}

/// Whether the member `key` of a level, if there is one, is no amount of zero: neither a number
/// nor the text of one that is zero.
pub open spec fn is_no_zero(level: JsonView, key: Seq<char>) -> bool {
    forall|amount: Seq<char>|
        #![trigger number_of(amount)]
        level.field(key) == Some(JsonView::Text(amount)) || level.field(key) == Some(
            JsonView::Number(amount),
        ) ==> !(number_of(amount) is Some && number_is_zero(number_of(amount)->0))
}

/// A level that is not to be deleted and has no amount of zero is not taken out.
pub proof fn other_levels_stay(level: JsonView)
    requires
        forall|action: Seq<char>| #[trigger]
            is_in_any_case(action, "delete"@) ==> level.text_field("action"@) != Some(action),
        is_no_zero(level, "remaining_base_amount"@),
        is_no_zero(level, "size"@),
        is_no_zero(level, "quantity"@),
        is_no_zero(level, "qty"@),
    ensures
        !removes_level(level),
{
    if let Some(action) = level.text_field("action"@) {
        lemma_delete(action);
    }
}

/// The last of `changes` at a price is the one after which none has that price.
proof fn lemma_last_change(changes: Seq<JsonView>, p: Seq<char>, k: int)
    requires
        0 <= k < changes.len(),
        price_of(changes[k]) == Some(p),
        forall|j: int| k < j < changes.len() ==> price_of(#[trigger] changes[j]) != Some(p),
    ensures
        last_change(changes, p) == Some(changes[k]),
    decreases changes.len(),
{
    let n = changes.len() - 1;
    if k < n {
        assert(price_of(changes[n]) != Some(p));
        let shorter = changes.drop_last();
        assert forall|j: int| k < j < shorter.len() implies price_of(#[trigger] shorter[j]) != Some(
            p,
        ) by {
            assert(shorter[j] == changes[j]);
        }
        lemma_last_change(shorter, p, k);
    }
}

proof fn lemma_no_change(changes: Seq<JsonView>, p: Seq<char>)
    requires
        forall|j: int| 0 <= j < changes.len() ==> price_of(#[trigger] changes[j]) != Some(p),
    ensures
        last_change(changes, p) is None,
    decreases changes.len(),
{
    if changes.len() > 0 {
        let shorter = changes.drop_last();
        assert(price_of(changes[changes.len() - 1]) != Some(p));
        assert forall|j: int| 0 <= j < shorter.len() implies price_of(#[trigger] shorter[j])
            != Some(p) by {
            assert(shorter[j] == changes[j]);
        }
        lemma_no_change(shorter, p);
    }
}

proof fn lemma_last_held(levels: Seq<JsonView>, p: Seq<char>, k: int)
    requires
        0 <= k < levels.len(),
        price_of(levels[k]) == Some(p),
        forall|j: int| k < j < levels.len() ==> price_of(#[trigger] levels[j]) != Some(p),
    ensures
        book_of(levels).contains_key(p),
        book_of(levels)[p] == levels[k],
    decreases levels.len(),
{
    let n = levels.len() - 1;
    if k < n {
        assert(price_of(levels[n]) != Some(p));
        let shorter = levels.drop_last();
        assert forall|j: int| k < j < shorter.len() implies price_of(#[trigger] shorter[j]) != Some(
            p,
        ) by {
            assert(shorter[j] == levels[j]);
        }
        lemma_last_held(shorter, p, k);
    }
}

/// A level that is held stays listed where its price is a number that neither a change nor a
/// later level has.
pub proof fn held_level_stays(
    held: Seq<JsonView>,
    changes: Seq<JsonView>,
    sort_desc: bool,
    levels: Seq<JsonView>,
    k: int,
    p: Seq<char>,
)
    requires
        is_ladder(book_after(book_of(held), changes), sort_desc, levels),
        0 <= k < held.len(),
        held[k].text_field("price"@) == Some(p),
        number_of(p) is Some,
        forall|j: int|
            k < j < held.len() ==> (#[trigger] held[j]).text_field("price"@) != Some(p),
        forall|j: int|
            0 <= j < changes.len() ==> (#[trigger] changes[j]).text_field("price"@) != Some(p),
    ensures
        levels.contains(held[k]),
{
    assert forall|j: int| k < j < held.len() implies price_of(#[trigger] held[j]) != Some(p) by {
        assert(held[j].text_field("price"@) != Some(p));
    }
    assert forall|j: int| 0 <= j < changes.len() implies price_of(#[trigger] changes[j]) != Some(
        p,
    ) by {
        assert(changes[j].text_field("price"@) != Some(p));
    }
    lemma_last_held(held, p, k);
    lemma_no_change(changes, p);
    untouched_level_stays(book_of(held), changes, sort_desc, levels, p);
}

/// The last change at a price is what is listed there, and nothing else, where it is not to be
/// deleted, has no amount of zero, and the price is a number.
pub proof fn last_change_is_listed(
    held: Seq<JsonView>,
    changes: Seq<JsonView>,
    sort_desc: bool,
    levels: Seq<JsonView>,
    k: int,
    p: Seq<char>,
)
    requires
        is_ladder(book_after(book_of(held), changes), sort_desc, levels),
        0 <= k < changes.len(),
        changes[k].text_field("price"@) == Some(p),
        number_of(p) is Some,
        forall|j: int|
            k < j < changes.len() ==> (#[trigger] changes[j]).text_field("price"@) != Some(p),
        forall|action: Seq<char>| #[trigger]
            is_in_any_case(action, "delete"@) ==> changes[k].text_field("action"@) != Some(action),
        is_no_zero(changes[k], "remaining_base_amount"@),
        is_no_zero(changes[k], "size"@),
        is_no_zero(changes[k], "quantity"@),
        is_no_zero(changes[k], "qty"@),
    ensures
        levels.contains(changes[k]),
        forall|i: int|
            0 <= i < levels.len() && (#[trigger] levels[i]).text_field("price"@) == Some(p)
                ==> levels[i] == changes[k],
{
    assert forall|j: int| k < j < changes.len() implies price_of(#[trigger] changes[j]) != Some(
        p,
    ) by {
        assert(changes[j].text_field("price"@) != Some(p));
    }
    lemma_last_change(changes, p, k);
    other_levels_stay(changes[k]);
    changed_level_is_listed(book_of(held), changes, sort_desc, levels, p);
    assert forall|i: int| 0 <= i < levels.len() && (#[trigger] levels[i]).text_field("price"@)
        == Some(p) implies levels[i] == changes[k] by {
        assert(price_of(levels[i]) == Some(p));
    }
}

/// Where the last change at a price is to delete, no level is listed there, whatever was held and
/// whatever amount the change has.
pub proof fn deleted_level_is_gone(
    held: Seq<JsonView>,
    changes: Seq<JsonView>,
    sort_desc: bool,
    levels: Seq<JsonView>,
    k: int,
    p: Seq<char>,
    action: Seq<char>,
)
    requires
        is_ladder(book_after(book_of(held), changes), sort_desc, levels),
        0 <= k < changes.len(),
        changes[k].text_field("price"@) == Some(p),
        forall|j: int|
            k < j < changes.len() ==> (#[trigger] changes[j]).text_field("price"@) != Some(p),
        changes[k].text_field("action"@) == Some(action),
        is_in_any_case(action, "delete"@),
    ensures
        forall|i: int|
            0 <= i < levels.len() ==> (#[trigger] levels[i]).text_field("price"@) != Some(p),
{
    delete_action_removes(changes[k], action);
    lemma_gone(held, changes, sort_desc, levels, k, p);
}

/// Where the last change at a price has an amount of zero, no level is listed there, whatever was
/// held and whatever action the change has.
pub proof fn emptied_level_is_gone(
    held: Seq<JsonView>,
    changes: Seq<JsonView>,
    sort_desc: bool,
    levels: Seq<JsonView>,
    k: int,
    p: Seq<char>,
    key: Seq<char>,
    amount: Seq<char>,
)
    requires
        is_ladder(book_after(book_of(held), changes), sort_desc, levels),
        0 <= k < changes.len(),
        changes[k].text_field("price"@) == Some(p),
        forall|j: int|
            k < j < changes.len() ==> (#[trigger] changes[j]).text_field("price"@) != Some(p),
        key == "remaining_base_amount"@ || key == "size"@ || key == "quantity"@ || key == "qty"@,
        changes[k].field(key) == Some(JsonView::Text(amount)) || changes[k].field(key) == Some(
            JsonView::Number(amount),
        ),
        number_of(amount) is Some,
        number_is_zero(number_of(amount)->0),
    ensures
        forall|i: int|
            0 <= i < levels.len() ==> (#[trigger] levels[i]).text_field("price"@) != Some(p),
{
    zero_amount_removes(changes[k], key, amount);
    lemma_gone(held, changes, sort_desc, levels, k, p);
}

proof fn lemma_gone(
    held: Seq<JsonView>,
    changes: Seq<JsonView>,
    sort_desc: bool,
    levels: Seq<JsonView>,
    k: int,
    p: Seq<char>,
)
    requires
        is_ladder(book_after(book_of(held), changes), sort_desc, levels),
        0 <= k < changes.len(),
        changes[k].text_field("price"@) == Some(p),
        forall|j: int|
            k < j < changes.len() ==> (#[trigger] changes[j]).text_field("price"@) != Some(p),
        removes_level(changes[k]),
    ensures
        forall|i: int|
            0 <= i < levels.len() ==> (#[trigger] levels[i]).text_field("price"@) != Some(p),
{
    assert forall|j: int| k < j < changes.len() implies price_of(#[trigger] changes[j]) != Some(
        p,
    ) by {
        assert(changes[j].text_field("price"@) != Some(p));
    }
    lemma_last_change(changes, p, k);
    removed_level_is_not_listed(book_of(held), changes, sort_desc, levels, p);
    assert forall|i: int| 0 <= i < levels.len() implies (#[trigger] levels[i]).text_field(
        "price"@,
    ) != Some(p) by {
        assert(price_of(levels[i]) != Some(p));
    }
}

proof fn lemma_change_is_there(changes: Seq<JsonView>, p: Seq<char>)
    ensures
        last_change(changes, p) matches Some(change) ==> changes.contains(change) && price_of(
            change,
        ) == Some(p),
        last_change(changes, p) is None ==> forall|j: int|
            0 <= j < changes.len() ==> price_of(#[trigger] changes[j]) != Some(p),
    decreases changes.len(),
{
    if changes.len() > 0 {
        let n = changes.len() - 1;
        let shorter = changes.drop_last();
        lemma_change_is_there(shorter, p);
        assert(changes[n] == changes.last());
        if price_of(changes.last()) != Some(p) {
            if let Some(change) = last_change(changes, p) {
                let j = choose|j: int| 0 <= j < shorter.len() && shorter[j] == change;
                assert(changes[j] == change);
            } else {
                assert forall|j: int| 0 <= j < changes.len() implies price_of(
                    #[trigger] changes[j],
                ) != Some(p) by {
                    if j < n {
                        assert(shorter[j] == changes[j]);
                    }
                }
            }
        }
    }
}

/// What is listed is a change, or a level that was held at a price that no change has; its price
/// is the text of a number, no two levels have the same price, and the prices rise, or fall where
/// `sort_desc` is set.
pub proof fn listed_levels_are_changes_or_held(
    held: Seq<JsonView>,
    changes: Seq<JsonView>,
    sort_desc: bool,
    levels: Seq<JsonView>,
)
    requires
        is_ladder(book_after(book_of(held), changes), sort_desc, levels),
    ensures
        forall|i: int|
            0 <= i < levels.len() ==> {
                let level = #[trigger] levels[i];
                let price = level.text_field("price"@);
                &&& price is Some
                &&& number_of(price->0) is Some
                &&& changes.contains(level) || (held.contains(level) && forall|j: int|
                    0 <= j < changes.len() ==> (#[trigger] changes[j]).text_field("price"@)
                        != price)
            },
        forall|i: int, j: int|
            0 <= i < j < levels.len() ==> {
                let a = (#[trigger] levels[i]).text_field("price"@);
                let b = (#[trigger] levels[j]).text_field("price"@);
                &&& a != b
                &&& sort_desc ==> number_le(number_of(b->0)->0, number_of(a->0)->0)
                &&& !sort_desc ==> number_le(number_of(a->0)->0, number_of(b->0)->0)
            },
{
    let book = book_after(book_of(held), changes);
    assert forall|i: int| 0 <= i < levels.len() implies {
        let level = #[trigger] levels[i];
        let price = level.text_field("price"@);
        &&& price is Some
        &&& number_of(price->0) is Some
        &&& changes.contains(level) || (held.contains(level) && forall|j: int|
            0 <= j < changes.len() ==> (#[trigger] changes[j]).text_field("price"@) != price)
    } by {
        let level = levels[i];
        assert(is_level_of(book, level));
        let p = price_of(level)->0;
        last_change_decides(book_of(held), changes, p);
        lemma_change_is_there(changes, p);
        if last_change(changes, p) is None {
            lemma_book_of_lists(held, p);
            assert forall|j: int| 0 <= j < changes.len() implies (
            #[trigger] changes[j]).text_field("price"@) != Some(p) by {
                assert(price_of(changes[j]) != Some(p));
            }
        }
    }
    assert forall|i: int, j: int| 0 <= i < j < levels.len() implies {
        let a = (#[trigger] levels[i]).text_field("price"@);
        let b = (#[trigger] levels[j]).text_field("price"@);
        &&& a != b
        &&& sort_desc ==> number_le(number_of(b->0)->0, number_of(a->0)->0)
        &&& !sort_desc ==> number_le(number_of(a->0)->0, number_of(b->0)->0)
    } by {
        assert(price_of(levels[i]) != price_of(levels[j]));
        assert(before(rank(levels[i]), rank(levels[j]), sort_desc));
    }
}

/// Changes that come in two lists do what they do in one: the second list is applied to what the
/// first one left.
pub proof fn changes_can_come_in_two_lists(
    book: Map<Seq<char>, JsonView>,
    first: Seq<JsonView>,
    second: Seq<JsonView>,
)
    ensures
        book_after(book, first + second) == book_after(book_after(book, first), second),
    decreases second.len(),
{
    if second.len() == 0 {
        assert(first + second =~= first);
    } else {
        changes_can_come_in_two_lists(book, first, second.drop_last());
        assert((first + second).drop_last() =~= first + second.drop_last());
        assert((first + second).last() == second.last());
    }
}

/// What a merge does to a side of a book: a list of levels is applied to the list that is held,
/// asks by rising and bids by falling price; anything else takes the place of the side; a side
/// that the update does not have stays. Every other member of the book stays, and none is added.
pub proof fn merging_is_by_side(
    held: JsonView,
    update: JsonView,
    result: JsonView,
    side: Seq<char>,
    changes: Seq<JsonView>,
    levels: Seq<JsonView>,
)
    requires
        is_merged_book(held, update, result),
        held is Object,
        update is Object,
    ensures
        result is Object,
        (side == "asks"@ || side == "bids"@) && update.field(side) == Some(
            JsonView::Array(changes),
        ) ==> {
            &&& result.field(side) matches Some(JsonView::Array(_))
            &&& held.field(side) == Some(JsonView::Array(levels)) ==> is_ladder(
                book_after(book_of(levels), changes),
                side == "bids"@,
                result.field(side)->0->Array_0,
            )
            &&& !(held.field(side) matches Some(JsonView::Array(_))) ==> is_ladder(
                book_after(book_of(Seq::empty()), changes),
                side == "bids"@,
                result.field(side)->0->Array_0,
            )
        },
        (side == "asks"@ || side == "bids"@) && update.field(side) is Some && !(update.field(
            side,
        )->0 is Array) ==> result.field(side) == update.field(side),
        update.field(side) is None ==> result.field(side) == held.field(side),
        side != "asks"@ && side != "bids"@ ==> result.field(side) == held.field(side),
{
    reveal_strlit("asks");
    reveal_strlit("bids");
    assert("asks"@[0] != "bids"@[0]);
}

/// A book that is no object, and an update that is none, are not merged: the update is the book.
pub proof fn what_is_no_object_is_replaced(held: JsonView, update: JsonView, result: JsonView)
    requires
        is_merged_book(held, update, result),
        !(held is Object) || !(update is Object),
    ensures
        result == update,
{
}

} // verus!
