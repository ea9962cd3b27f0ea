//! How numbers are written, and that reading one gives back what was written.

use crate::decimal::{
    all_digits, are_digits, digit_values, digits_value, exponent_of, find_char, finite_of,
    is_digit, is_negative, lemma_digits_append, lemma_find_char, lemma_first_difference,
    lemma_scaled_le, lemma_ten_to, lemma_ten_to_300, number_is_zero, number_le, number_of, ten_to,
    unsigned, NumberView,
};
use crate::text::{is_in_any_case, is_plain, lower, lower_case_forgets_case_only, lowered};
use vstd::arithmetic::power::*;
use vstd::prelude::*;

verus! {

/// A sign, which may be left out.
pub enum Sign {
    Unsigned,
    Plus,
    Minus,
}

impl Sign {
    pub open spec fn text(self) -> Seq<char> {
        match self {
            Sign::Unsigned => Seq::empty(),
            Sign::Plus => seq!['+'],
            Sign::Minus => seq!['-'],
        }
    }
}

/// A run of decimal digits, which may be empty.
pub open spec fn is_digit_run(s: Seq<char>) -> bool {
    forall|i: int| 0 <= i < s.len() ==> '0' <= #[trigger] s[i] && s[i] <= '9'
}

/// What a run of digits is worth: each digit counts by its place, the last one as it is.
pub open spec fn place_value(s: Seq<char>) -> int
    decreases s.len(),
{
    if s.len() == 0 {
        0
    } else {
        (s[0] as int - '0' as int) * pow(10, (s.len() - 1) as nat) + place_value(s.drop_first())
    }
}

/// The part of a number that scales it by a power of ten: `e` or `E`, a sign and digits.
pub struct Scale {
    pub mark: char,
    pub sign: Sign,
    pub digits: Seq<char>,
}

impl Scale {
    pub open spec fn wf(self) -> bool {
        &&& self.mark == 'e' || self.mark == 'E'
        &&& self.digits.len() > 0
        &&& is_digit_run(self.digits)
    }

    pub open spec fn text(self) -> Seq<char> {
        seq![self.mark] + self.sign.text() + self.digits
    }

    /// The power of ten; past `10^30` either way powers are not told apart.
    pub open spec fn power(self) -> int {
        let v = place_value(self.digits);
        let size = if v <= 1_000_000_000_000_000_000_000_000_000_000int {
            v
        } else {
            1_000_000_000_000_000_000_000_000_000_000int
        };
        match self.sign {
            Sign::Minus => -size,
            _ => size,
        }
    }
}

/// A number in writing.
pub enum Numeral {
    /// Digits, with a point among or around them or without one, and a power of ten, which may be
    /// left out.
    Finite { sign: Sign, whole: Seq<char>, fraction: Option<Seq<char>>, scale: Option<Scale> },
    /// `inf` or `infinity`.
    Infinite { sign: Sign, word: Seq<char> },
    /// `nan`.
    Nan { sign: Sign, word: Seq<char> },
}

/// The digits after the point.
pub open spec fn places(fraction: Option<Seq<char>>) -> Seq<char> {
    match fraction {
        Some(f) => f,
        None => Seq::empty(),
    }
}

/// The point and the digits after it.
pub open spec fn point_text(fraction: Option<Seq<char>>) -> Seq<char> {
    match fraction {
        Some(f) => seq!['.'] + f,
        None => Seq::empty(),
    }
}

pub open spec fn scale_text(scale: Option<Scale>) -> Seq<char> {
    match scale {
        Some(s) => s.text(),
        None => Seq::empty(),
    }
}

impl Numeral {
    pub open spec fn wf(self) -> bool {
        match self {
            Numeral::Finite { sign, whole, fraction, scale } => {
                &&& is_digit_run(whole)
                &&& is_digit_run(places(fraction))
                &&& whole.len() + places(fraction).len() > 0
                &&& scale is Some ==> scale->0.wf()
            },
            Numeral::Infinite { sign, word } => is_in_any_case(word, "inf"@) || is_in_any_case(
                word,
                "infinity"@,
            ),
            Numeral::Nan { sign, word } => is_in_any_case(word, "nan"@),
        }
    }

    /// The text of the numeral.
    pub open spec fn text(self) -> Seq<char> {
        match self {
            Numeral::Finite { sign, whole, fraction, scale } => sign.text() + (whole + point_text(
                fraction,
            ) + scale_text(scale)),
            Numeral::Infinite { sign, word } => sign.text() + word,
            Numeral::Nan { sign, word } => sign.text() + word,
        }
    }

    /// What the numeral is worth: its digits, as if there were no point, over a power of ten that
    /// makes up for each place after the point.
    pub open spec fn value(self) -> NumberView {
        match self {
            Numeral::Finite { sign, whole, fraction, scale } => NumberView::Finite {
                negative: sign is Minus,
                digits: place_value(whole + places(fraction)) as nat,
                exponent: (match scale {
                    Some(s) => s.power(),
                    None => 0,
                }) - places(fraction).len(),
            },
            Numeral::Infinite { sign, word } => NumberView::Infinite { negative: sign is Minus },
            Numeral::Nan { sign, word } => NumberView::Nan,
        }
    }
}

/// What a run of digits is worth is what its digits are read as.
proof fn lemma_place_value(s: Seq<char>)
    requires
        is_digit_run(s),
    ensures
        digits_value(digit_values(s)) == place_value(s),
        are_digits(digit_values(s)),
        all_digits(s),
    decreases s.len(),
{
    assert forall|i: int| 0 <= i < s.len() implies is_digit(#[trigger] s[i]) by {}
    assert forall|i: int| 0 <= i < s.len() implies #[trigger] digit_values(s)[i] < 10 by {
        assert('0' <= s[i] && s[i] <= '9');
    }
    if s.len() > 0 {
        let tail = s.drop_first();
        assert forall|i: int| 0 <= i < tail.len() implies '0' <= #[trigger] tail[i] && tail[i]
            <= '9' by {
            assert(tail[i] == s[i + 1]);
        }
        lemma_place_value(tail);
        let head = seq![digit_values(s)[0]];
        assert(digit_values(s) =~= head + digit_values(tail));
        lemma_digits_append(head, digit_values(tail));
        assert(head.drop_last() =~= Seq::<u8>::empty());
        assert(digits_value(head.drop_last()) == 0);
        assert(digits_value(head) == s[0] as int - '0' as int) by {
            assert('0' <= s[0] && s[0] <= '9');
        }
    }
}

proof fn lemma_sign(sign: Sign, body: Seq<char>)
    requires
        body.len() > 0 ==> body[0] != '+' && body[0] != '-',
    ensures
        unsigned(sign.text() + body) == body,
        is_negative(sign.text() + body) == (sign is Minus),
{
    let s = sign.text() + body;
    if sign is Unsigned {
        assert(s =~= body);
    } else {
        assert(s.drop_first() =~= body);
    }
}

proof fn lemma_scale(scale: Scale)
    requires
        scale.wf(),
    ensures
        exponent_of(scale.sign.text() + scale.digits) == Some(scale.power()),
{
    assert('0' <= scale.digits[0] && scale.digits[0] <= '9');
    lemma_sign(scale.sign, scale.digits);
    lemma_place_value(scale.digits);
}

/// The parts of a finite numeral are found where they stand.
proof fn lemma_parts(
    negative: bool,
    whole: Seq<char>,
    fraction: Option<Seq<char>>,
    scale: Option<Scale>,
)
    requires
        is_digit_run(whole),
        is_digit_run(places(fraction)),
        whole.len() + places(fraction).len() > 0,
        scale is Some ==> scale->0.wf(),
    ensures
        finite_of(negative, whole + point_text(fraction) + scale_text(scale)) == Some(
            NumberView::Finite {
                negative,
                digits: place_value(whole + places(fraction)) as nat,
                exponent: (match scale {
                    Some(s) => s.power(),
                    None => 0,
                }) - places(fraction).len(),
            },
        ),
{
    let mantissa = whole + point_text(fraction);
    let s = mantissa + scale_text(scale);
    let (w, n) = (whole.len() as int, mantissa.len() as int);
    assert forall|i: int| 0 <= i < n implies {
        let c = #[trigger] mantissa[i];
        if fraction is Some && i == w {
            c == '.'
        } else {
            '0' <= c && c <= '9'
        }
    } by {
        if i < w {
            assert(mantissa[i] == whole[i]);
        } else if i > w {
            assert(mantissa[i] == places(fraction)[i - w - 1]);
        }
    }
    assert forall|i: int| 0 <= i < n implies lower(#[trigger] s[i]) != 'e' by {
        assert(s[i] == mantissa[i]);
    }
    if scale is Some {
        assert(s[n] == scale->0.mark);
        assert(lower('e') == 'e');
        assert(lower('E') == 'e');
        assert(s.skip(n + 1) =~= scale->0.sign.text() + scale->0.digits);
        lemma_scale(scale->0);
    }
    lemma_find_char(s, 'e', n);
    assert(s.take(n) =~= mantissa);
    assert forall|i: int| 0 <= i < w implies lower(#[trigger] mantissa[i]) != '.' by {}
    lemma_find_char(mantissa, '.', w);
    assert(mantissa.take(w) =~= whole);
    if fraction is Some {
        assert(mantissa.skip(w + 1) =~= places(fraction));
    }
    let digits = whole + places(fraction);
    assert forall|i: int| 0 <= i < digits.len() implies '0' <= #[trigger] digits[i] && digits[i]
        <= '9' by {
        if i < w {
            assert(digits[i] == whole[i]);
        } else {
            assert(digits[i] == places(fraction)[i - w]);
        }
    }
    lemma_place_value(digits);
    lemma_place_value(whole);
    lemma_place_value(places(fraction));
}

proof fn lemma_words()
    ensures
        is_plain("inf"@),
        is_plain("infinity"@),
        is_plain("nan"@),
        "inf"@.len() == 3,
        "infinity"@.len() == 8,
        "nan"@.len() == 3,
        "inf"@[0] == 'i',
        "infinity"@[0] == 'i',
        "nan"@[0] == 'n',
{
    reveal_strlit("inf");
    reveal_strlit("infinity");
    reveal_strlit("nan");
    assert("inf"@.len() == 3 && "infinity"@.len() == 8 && "nan"@.len() == 3);
    assert("inf"@[0] == 'i' && "infinity"@[0] == 'i' && "nan"@[0] == 'n');
}

/// Every numeral is read as the number that it is worth.
pub proof fn numerals_read_as_their_value(numeral: Numeral)
    requires
        numeral.wf(),
    ensures
        number_of(numeral.text()) == Some(numeral.value()),
{
    lemma_words();
    match numeral {
        Numeral::Finite { sign, whole, fraction, scale } => {
            let body = whole + point_text(fraction) + scale_text(scale);
            let c = body[0];
            assert(c == '.' || ('0' <= c && c <= '9')) by {
                if whole.len() > 0 {
                    assert(c == whole[0]);
                } else {
                    assert(fraction is Some);
                }
            }
            lemma_sign(sign, body);
            assert(lowered(body)[0] == lower(c));
            lemma_parts(sign is Minus, whole, fraction, scale);
        },
        Numeral::Infinite { sign, word } => {
            assert(word.len() > 0);
            assert(word[0] == 'i' || word[0] as int + 32 == 'i' as int);
            lemma_sign(sign, word);
            lower_case_forgets_case_only(word, "inf"@);
            lower_case_forgets_case_only(word, "infinity"@);
        },
        Numeral::Nan { sign, word } => {
            assert(word[0] == 'n' || word[0] as int + 32 == 'n' as int);
            lemma_sign(sign, word);
            lower_case_forgets_case_only(word, "nan"@);
            assert(lowered(word)[0] == 'n');
        },
    }
}

/// The sign that a text starts with.
spec fn sign_of(s: Seq<char>) -> Sign {
    if s.len() > 0 && s[0] == '+' {
        Sign::Plus
    } else if s.len() > 0 && s[0] == '-' {
        Sign::Minus
    } else {
        Sign::Unsigned
    }
}

proof fn lemma_sign_of(s: Seq<char>)
    ensures
        s == sign_of(s).text() + unsigned(s),
{
    assert(s =~= sign_of(s).text() + unsigned(s));
}

proof fn lemma_found(s: Seq<char>, c: char)
    ensures
        0 <= find_char(s, c) <= s.len(),
        find_char(s, c) < s.len() ==> lower(s[find_char(s, c)]) == c,
    decreases s.len(),
{
    if s.len() > 0 && lower(s[0]) != c {
        lemma_found(s.drop_first(), c);
    }
}

proof fn lemma_all_digits(s: Seq<char>)
    requires
        all_digits(s),
    ensures
        is_digit_run(s),
{
    assert forall|i: int| 0 <= i < s.len() implies '0' <= #[trigger] s[i] && s[i] <= '9' by {
        assert(is_digit(s[i]));
    }
}

/// The mantissa of a number is digits around at most one point.
proof fn lemma_mantissa(mantissa: Seq<char>) -> (r: (Seq<char>, Option<Seq<char>>))
    requires
        ({
            let p = find_char(mantissa, '.');
            let fraction = if p < mantissa.len() {
                mantissa.skip(p + 1)
            } else {
                Seq::empty()
            };
            &&& all_digits(mantissa.take(p))
            &&& all_digits(fraction)
            &&& mantissa.take(p).len() + fraction.len() > 0
        }),
    ensures
        mantissa == r.0 + point_text(r.1),
        is_digit_run(r.0),
        is_digit_run(places(r.1)),
        r.0.len() + places(r.1).len() > 0,
{
    let p = find_char(mantissa, '.');
    lemma_found(mantissa, '.');
    let whole = mantissa.take(p);
    lemma_all_digits(whole);
    if p < mantissa.len() {
        let f = mantissa.skip(p + 1);
        lemma_all_digits(f);
        assert(mantissa[p] == '.');
        assert(mantissa =~= whole + (seq!['.'] + f));
        (whole, Some(f))
    } else {
        assert(mantissa =~= whole + Seq::<char>::empty());
        (whole, None)
    }
}

/// What follows the mantissa of a number is its scale.
proof fn lemma_tail(body: Seq<char>, n: int) -> (scale: Option<Scale>)
    requires
        0 <= n <= body.len(),
        n < body.len() ==> lower(body[n]) == 'e' && exponent_of(body.skip(n + 1)) is Some,
    ensures
        body == body.take(n) + scale_text(scale),
        scale is Some ==> scale->0.wf(),
{
    if n < body.len() {
        let tail = body.skip(n + 1);
        lemma_sign_of(tail);
        let scale = Scale { mark: body[n], sign: sign_of(tail), digits: unsigned(tail) };
        lemma_all_digits(scale.digits);
        assert(body[n] == 'e' || body[n] == 'E');
        assert(scale.text() =~= seq![body[n]] + tail);
        assert(body =~= body.take(n) + (seq![body[n]] + tail));
        Some(scale)
    } else {
        assert(body =~= body.take(n) + Seq::<char>::empty());
        None
    }
}

/// Nothing but a numeral is read as a number.
pub proof fn only_numerals_are_numbers(s: Seq<char>) -> (numeral: Numeral)
    requires
        number_of(s) is Some,
    ensures
        numeral.wf(),
        numeral.text() == s,
{
    lemma_words();
    let body = unsigned(s);
    let sign = sign_of(s);
    lemma_sign_of(s);
    lower_case_forgets_case_only(body, "inf"@);
    lower_case_forgets_case_only(body, "infinity"@);
    lower_case_forgets_case_only(body, "nan"@);
    if lowered(body) == "inf"@ || lowered(body) == "infinity"@ {
        Numeral::Infinite { sign, word: body }
    } else if lowered(body) == "nan"@ {
        Numeral::Nan { sign, word: body }
    } else {
        assert(finite_of(is_negative(s), body) is Some);
        let n = find_char(body, 'e');
        lemma_found(body, 'e');
        let (whole, fraction) = lemma_mantissa(body.take(n));
        let scale = lemma_tail(body, n);
        Numeral::Finite { sign, whole, fraction, scale }
    }
}

/// Digits around a point are worth what the digits are worth without the point, over one power of
/// ten for each place after it.
pub proof fn decimals_read_by_place(whole: Seq<char>, fraction: Seq<char>)
    requires
        is_digit_run(whole),
        is_digit_run(fraction),
        whole.len() + fraction.len() > 0,
    ensures
        number_of(whole + seq!['.'] + fraction) == Some(
            NumberView::Finite {
                negative: false,
                digits: place_value(whole + fraction) as nat,
                exponent: -fraction.len(),
            },
        ),
        digits_value(digit_values(whole + fraction)) == place_value(whole + fraction),
        whole.len() > 0 ==> number_of(whole) == Some(
            NumberView::Finite { negative: false, digits: place_value(whole) as nat, exponent: 0 },
        ),
{
    let numeral = Numeral::Finite {
        sign: Sign::Unsigned,
        whole,
        fraction: Some(fraction),
        scale: None,
    };
    numerals_read_as_their_value(numeral);
    assert(numeral.text() =~= whole + seq!['.'] + fraction);
    let digits = whole + fraction;
    assert forall|i: int| 0 <= i < digits.len() implies '0' <= #[trigger] digits[i] && digits[i]
        <= '9' by {
        if i < whole.len() {
            assert(digits[i] == whole[i]);
        } else {
            assert(digits[i] == fraction[i - whole.len()]);
        }
    }
    lemma_place_value(digits);
    if whole.len() > 0 {
        let plain = Numeral::Finite { sign: Sign::Unsigned, whole, fraction: None, scale: None };
        numerals_read_as_their_value(plain);
        assert(plain.text() =~= whole);
        assert(whole + Seq::<char>::empty() =~= whole);
    }
}

/// One more digit after a run of digits makes it ten times as much, and the digit.
pub proof fn one_more_digit(digits: Seq<char>, d: char)
    ensures
        place_value(digits.push(d)) == 10 * place_value(digits) + (d as int - '0' as int),
    decreases digits.len(),
{
    let more = digits.push(d);
    lemma_pow0(10);
    if digits.len() == 0 {
        assert(more.drop_first() =~= Seq::<char>::empty());
        assert(place_value(more.drop_first()) == 0);
    } else {
        assert(more.drop_first() =~= digits.drop_first().push(d));
        one_more_digit(digits.drop_first(), d);
        let n = (digits.len() - 1) as nat;
        lemma_pow1(10);
        lemma_pow_adds(10, n, 1);
        let (x, t) = (digits[0] as int - '0' as int, pow(10, n));
        assert(x * (t * 10) == 10 * (x * t)) by (nonlinear_arith);
    }
}

/// The order of finite numbers is that of the whole numbers that they are over any common power
/// of ten.
pub proof fn finite_numbers_are_ordered_by_value(
    n1: bool,
    m1: nat,
    e1: int,
    n2: bool,
    m2: nat,
    e2: int,
    k: int,
)
    requires
        k <= e1,
        k <= e2,
    ensures
        number_le(
            NumberView::Finite { negative: n1, digits: m1, exponent: e1 },
            NumberView::Finite { negative: n2, digits: m2, exponent: e2 },
        ) <==> (if n1 {
            -m1
        } else {
            m1 as int
        }) * pow(10, (e1 - k) as nat) <= (if n2 {
            -m2
        } else {
            m2 as int
        }) * pow(10, (e2 - k) as nat),
{
    let (a, b) = (
        if n1 {
            -m1
        } else {
            m1 as int
        },
        if n2 {
            -m2
        } else {
            m2 as int
        },
    );
    lemma_scaled_le(a, e1, b, e2, k);
}

/// The infinities stand around every finite number, and what is not a number stands above all.
pub proof fn infinities_stand_around(x: NumberView)
    ensures
        number_le(x, NumberView::Nan),
        number_le(NumberView::Nan, x) <==> x is Nan,
        !(x is Nan) ==> {
            &&& number_le(NumberView::Infinite { negative: true }, x)
            &&& number_le(x, NumberView::Infinite { negative: false })
        },
        x is Finite ==> {
            &&& !number_le(x, NumberView::Infinite { negative: true })
            &&& !number_le(NumberView::Infinite { negative: false }, x)
        },
        !number_le(
            NumberView::Infinite { negative: false },
            NumberView::Infinite { negative: true },
        ),
{
}

/// One more digit `d` after the point adds `d` at its place: the digits that were there count ten
/// times over a power of ten less, so that the number grows unless the digit is zero.
pub proof fn one_more_place(whole: Seq<char>, fraction: Seq<char>, d: char)
    requires
        is_digit_run(whole),
        is_digit_run(fraction),
        whole.len() + fraction.len() > 0,
        '0' <= d && d <= '9',
    ensures
        ({
            let x = number_of(whole + seq!['.'] + fraction);
            let y = number_of(whole + seq!['.'] + fraction.push(d));
            &&& x matches Some(NumberView::Finite { negative: n1, digits: m1, exponent: e1 })
            &&& y matches Some(NumberView::Finite { negative: n2, digits: m2, exponent: e2 })
            &&& !n1 && !n2
            &&& m2 == 10 * m1 + (d as int - '0' as int)
            &&& e2 == e1 - 1
            &&& e2 == -(fraction.len() + 1)
            &&& number_le(x->0, y->0)
            &&& number_le(y->0, x->0) <==> d == '0'
        }),
{
    let longer = fraction.push(d);
    assert forall|i: int| 0 <= i < longer.len() implies '0' <= #[trigger] longer[i] && longer[i]
        <= '9' by {
        if i < fraction.len() {
            assert(longer[i] == fraction[i]);
        }
    }
    decimals_read_by_place(whole, fraction);
    decimals_read_by_place(whole, longer);
    assert(whole + longer =~= (whole + fraction).push(d));
    one_more_digit(whole + fraction, d);
    let m1 = place_value(whole + fraction);
    let m2 = place_value(whole + longer);
    let e1 = -fraction.len();
    finite_numbers_are_ordered_by_value(false, m1 as nat, e1, false, m2 as nat, e1 - 1, e1 - 1);
    finite_numbers_are_ordered_by_value(false, m2 as nat, e1 - 1, false, m1 as nat, e1, e1 - 1);
    lemma_pow0(10);
    lemma_pow1(10);
}

proof fn lemma_run_take(s: Seq<char>, a: Seq<char>)
    requires
        is_digit_run(s),
        is_digit_run(a),
    ensures
        is_digit_run(s + a),
{
    let t = s + a;
    assert forall|i: int| 0 <= i < t.len() implies '0' <= #[trigger] t[i] && t[i] <= '9' by {
        if i < s.len() {
            assert(t[i] == s[i]);
        } else {
            assert(t[i] == a[i - s.len()]);
        }
    }
}

/// Of two decimals with the same digits before the point and as many after it, the one with the
/// smaller digit where they first differ is the smaller number.
pub proof fn decimals_are_ordered_by_their_digits(
    whole: Seq<char>,
    a: Seq<char>,
    b: Seq<char>,
    k: int,
)
    requires
        is_digit_run(whole),
        is_digit_run(a),
        is_digit_run(b),
        a.len() == b.len(),
        0 <= k < a.len(),
        forall|i: int| 0 <= i < k ==> #[trigger] a[i] == b[i],
        a[k] < b[k],
    ensures
        ({
            let x = number_of(whole + seq!['.'] + a);
            let y = number_of(whole + seq!['.'] + b);
            &&& x is Some && y is Some
            &&& number_le(x->0, y->0)
            &&& !number_le(y->0, x->0)
        }),
{
    decimals_read_by_place(whole, a);
    decimals_read_by_place(whole, b);
    let (x, y) = (whole + a, whole + b);
    let (u, v) = (digit_values(x), digit_values(y));
    let n = whole.len() + k;
    lemma_run_take(whole, a);
    lemma_run_take(whole, b);
    lemma_place_value(x);
    lemma_place_value(y);
    assert(x[n] == a[k] && y[n] == b[k]);
    assert('0' <= x[n] && x[n] <= '9');
    assert('0' <= y[n] && y[n] <= '9');
    assert forall|i: int| 0 <= i < n implies x[i] == y[i] by {
        if i < whole.len() {
            assert(x[i] == whole[i] && y[i] == whole[i]);
        } else {
            assert(x[i] == a[i - whole.len()] && y[i] == b[i - whole.len()]);
        }
    }
    assert(u.take(n) =~= v.take(n));
    assert(u[n] < v[n]);
    lemma_first_difference(u, v, n);
    let e = -a.len();
    let (p, q) = (place_value(x) as nat, place_value(y) as nat);
    finite_numbers_are_ordered_by_value(false, p, e, false, q, e, e);
    finite_numbers_are_ordered_by_value(false, q, e, false, p, e, e);
    lemma_pow0(10);
}

/// A minus sign turns the order of finite numbers round, and makes no difference to which numbers
/// are zero.
pub proof fn a_minus_sign_turns_the_order_round(n1: bool, m1: nat, e1: int, n2: bool, m2: nat, e2: int)
    ensures
        number_le(
            NumberView::Finite { negative: n1, digits: m1, exponent: e1 },
            NumberView::Finite { negative: n2, digits: m2, exponent: e2 },
        ) <==> number_le(
            NumberView::Finite { negative: !n2, digits: m2, exponent: e2 },
            NumberView::Finite { negative: !n1, digits: m1, exponent: e1 },
        ),
        number_is_zero(NumberView::Finite { negative: n1, digits: m1, exponent: e1 })
            <==> number_is_zero(NumberView::Finite { negative: !n1, digits: m1, exponent: e1 }),
{
    let k = if e1 <= e2 {
        e1
    } else {
        e2
    };
    finite_numbers_are_ordered_by_value(n1, m1, e1, n2, m2, e2, k);
    finite_numbers_are_ordered_by_value(!n2, m2, e2, !n1, m1, e1, k);
    let (x, y) = (pow(10, (e1 - k) as nat), pow(10, (e2 - k) as nat));
    assert((-m1) * x == -(m1 * x)) by (nonlinear_arith);
    assert((-m2) * y == -(m2 * y)) by (nonlinear_arith);
}

/// A number counts as zero where it is at most `2^-1075`, and infinities and what is not a number
/// never do. In particular nothing with a digit but zero and at most 300 places after the point
/// does.
pub proof fn zero_is_at_most_half_the_smallest(negative: bool, m: nat, e: int)
    ensures
        ({
            let zero = number_is_zero(NumberView::Finite { negative, digits: m, exponent: e });
            &&& e <= 0 ==> (zero <==> m * pow(2, 1075) <= pow(10, (-e) as nat))
            &&& e >= 0 ==> (zero <==> m == 0)
            &&& m == 0 ==> zero
            &&& m > 0 && e >= -300 ==> !zero
        }),
        !number_is_zero(NumberView::Nan),
        !number_is_zero(NumberView::Infinite { negative }),
{
    let p = pow(2, 1075);
    lemma_pow_positive(2, 1075);
    lemma_pow0(10);
    if e <= 0 {
        lemma_scaled_le(m * p, e, 1, 0, e);
        lemma_ten_to(-e, 300);
        if e >= -300 {
            lemma_ten_to_300();
            assert(m > 0 ==> m * p >= p) by (nonlinear_arith)
                requires
                    p >= 1,
            ;
        }
        assert(m == 0 ==> m * p == 0) by (nonlinear_arith);
    } else {
        lemma_scaled_le(m * p, e, 1, 0, 0);
        lemma_ten_to(1, e - 1);
        lemma_ten_to(e - 1, 0);
        let t = ten_to(e);
        assert(m == 0 ==> (m * p) * t == 0) by (nonlinear_arith);
        assert(m > 0 ==> (m * p) * t >= 10) by (nonlinear_arith)
            requires
                p >= 1,
                t >= 10,
        ;
    }
}

} // verus!
