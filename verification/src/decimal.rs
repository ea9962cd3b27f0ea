//! Numbers written as text, as the exchange writes prices and amounts, and their order.

use crate::text::{chars_of, lower, lower_char, lowered, same_text_ignoring_case};
use vstd::arithmetic::power::*;
use vstd::prelude::*;

verus! {

/// The number that a run of decimal digits spells, most significant digit first.
pub open spec fn digits_value(digits: Seq<u8>) -> nat
    decreases digits.len(),
{
    if digits.len() == 0 {
        0
    } else {
        digits_value(digits.drop_last()) * 10 + digits.last() as nat
    }
}

/// Whether every element of `digits` is a decimal digit.
pub open spec fn are_digits(digits: Seq<u8>) -> bool {
    forall|i: int| 0 <= i < digits.len() ==> #[trigger] digits[i] < 10
}

/// `10` to the power of `e`.
pub open spec fn ten_to(e: int) -> int {
    pow(10, e as nat)
}

pub open spec fn min(a: int, b: int) -> int {
    if a <= b {
        a
    } else {
        b
    }
}

/// Whether `m1 * 10^e1` is at most `m2 * 10^e2`, over a common power of ten.
pub open spec fn scaled_le(m1: int, e1: int, m2: int, e2: int) -> bool {
    let k = min(e1, e2);
    m1 * ten_to(e1 - k) <= m2 * ten_to(e2 - k)
}

pub proof fn lemma_ten_to(a: int, b: int)
    requires
        0 <= a,
        0 <= b,
    ensures
        ten_to(a + b) == ten_to(a) * ten_to(b),
        ten_to(a) >= 1,
        ten_to(0) == 1,
        ten_to(1) == 10,
        a <= b ==> ten_to(a) <= ten_to(b),
{
    lemma_pow_adds(10, a as nat, b as nat);
    lemma_pow_positive(10, a as nat);
    lemma_pow0(10);
    lemma_pow1(10);
    if a <= b {
        lemma_pow_increases(10, a as nat, b as nat);
    }
}

/// Any power of ten below both exponents may serve as the common one.
pub proof fn lemma_scaled_le(m1: int, e1: int, m2: int, e2: int, k: int)
    requires
        k <= e1,
        k <= e2,
    ensures
        scaled_le(m1, e1, m2, e2) <==> m1 * ten_to(e1 - k) <= m2 * ten_to(e2 - k),
{
    let c = min(e1, e2);
    let f = ten_to(c - k);
    lemma_ten_to(e1 - c, c - k);
    lemma_ten_to(e2 - c, c - k);
    lemma_ten_to(c - k, 0);
    let a = m1 * ten_to(e1 - c);
    let b = m2 * ten_to(e2 - c);
    assert(m1 * ten_to(e1 - k) == a * f) by (nonlinear_arith)
        requires
            a == m1 * ten_to(e1 - c),
            ten_to(e1 - k) == ten_to(e1 - c) * f,
    ;
    assert(m2 * ten_to(e2 - k) == b * f) by (nonlinear_arith)
        requires
            b == m2 * ten_to(e2 - c),
            ten_to(e2 - k) == ten_to(e2 - c) * f,
    ;
    assert(a <= b <==> a * f <= b * f) by (nonlinear_arith)
        requires
            f >= 1,
    ;
}

pub proof fn lemma_digits_bound(digits: Seq<u8>)
    requires
        are_digits(digits),
    ensures
        digits_value(digits) < ten_to(digits.len() as int),
    decreases digits.len(),
{
    lemma_ten_to(0, 0);
    if digits.len() > 0 {
        lemma_digits_bound(digits.drop_last());
        lemma_ten_to(digits.len() - 1, 1);
    }
}

pub proof fn lemma_digits_append(a: Seq<u8>, b: Seq<u8>)
    ensures
        digits_value(a + b) == digits_value(a) * ten_to(b.len() as int) + digits_value(b),
    decreases b.len(),
{
    lemma_ten_to(0, 0);
    if b.len() == 0 {
        assert(a + b =~= a);
    } else {
        lemma_digits_append(a, b.drop_last());
        assert((a + b).drop_last() =~= a + b.drop_last());
        lemma_ten_to(b.len() - 1, 1);
        let t = ten_to(b.len() - 1);
        assert((digits_value(a) * t + digits_value(b.drop_last())) * 10 == digits_value(a) * (t
            * 10) + digits_value(b.drop_last()) * 10) by (nonlinear_arith);
    }
}

/// A run of digits that starts with a nonzero digit reaches the power of ten of its length.
proof fn lemma_digits_lower_bound(digits: Seq<u8>)
    requires
        digits.len() > 0,
        digits[0] != 0,
    ensures
        digits_value(digits) >= ten_to(digits.len() - 1),
{
    let head = seq![digits[0]];
    let tail = digits.drop_first();
    assert(digits =~= head + tail);
    lemma_digits_append(head, tail);
    assert(head.drop_last() =~= Seq::<u8>::empty());
    assert(digits_value(head.drop_last()) == 0);
    assert(digits_value(head) == digits[0] as nat);
    let t = ten_to(tail.len() as int);
    lemma_ten_to(tail.len() as int, 0);
    let d = digits_value(head) as int;
    assert(d * t >= t) by (nonlinear_arith)
        requires
            d >= 1,
            t >= 1,
    ;
}

/// A run of `n` zeros.
spec fn zeros(n: nat) -> Seq<u8> {
    Seq::new(n, |i: int| 0u8)
}

proof fn lemma_zeros(n: nat)
    ensures
        digits_value(zeros(n)) == 0,
    decreases n,
{
    if n > 0 {
        lemma_zeros((n - 1) as nat);
        assert(zeros(n).drop_last() =~= zeros((n - 1) as nat));
    }
}

/// `digits` followed by zeros, up to `len` digits.
spec fn padded(digits: Seq<u8>, len: int) -> Seq<u8> {
    digits + zeros((len - digits.len()) as nat)
}

proof fn lemma_padded(digits: Seq<u8>, len: int)
    requires
        digits.len() <= len,
    ensures
        digits_value(padded(digits, len)) == digits_value(digits) * ten_to(len - digits.len()),
        padded(digits, len).len() == len,
        are_digits(digits) ==> are_digits(padded(digits, len)),
{
    let z = zeros((len - digits.len()) as nat);
    lemma_digits_append(digits, z);
    lemma_zeros(z.len());
}

/// Of two runs of digits of the same length, the one with the smaller digit where they first
/// differ is the smaller number.
pub proof fn lemma_first_difference(a: Seq<u8>, b: Seq<u8>, i: int)
    requires
        are_digits(a),
        are_digits(b),
        a.len() == b.len(),
        0 <= i < a.len(),
        a.take(i) == b.take(i),
        a[i] < b[i],
    ensures
        digits_value(a) < digits_value(b),
{
    let n = a.len() as int;
    let t = ten_to(n - i - 1);
    lemma_ten_to(n - i - 1, 0);
    assert(a =~= a.take(i + 1) + a.skip(i + 1));
    assert(b =~= b.take(i + 1) + b.skip(i + 1));
    lemma_digits_append(a.take(i + 1), a.skip(i + 1));
    lemma_digits_append(b.take(i + 1), b.skip(i + 1));
    lemma_digits_bound(a.skip(i + 1));
    assert(a.take(i + 1).drop_last() =~= a.take(i));
    assert(b.take(i + 1).drop_last() =~= b.take(i));
    let x = digits_value(a.take(i + 1)) as int;
    let y = digits_value(b.take(i + 1)) as int;
    assert(x + 1 <= y);
    assert(x * t + t <= y * t) by (nonlinear_arith)
        requires
            x + 1 <= y,
            t >= 1,
    ;
}

/// The largest exponent that is told from a larger one. Past it a number that fits in memory is
/// either beyond every binary64 number or below every one but zero.
pub const EXPONENT_LIMIT: i128 = 1_000_000_000_000_000_000_000_000_000_000;

/// A sign, a run of decimal digits without leading zeros, and a power of ten.
#[derive(Debug, PartialEq, Eq)]
pub struct Decimal {
    pub negative: bool,
    pub digits: Vec<u8>,
    pub exponent: i128,
}

impl Decimal {
    pub open spec fn wf(self) -> bool {
        &&& are_digits(self.digits@)
        &&& self.digits@.len() > 0 ==> self.digits@[0] != 0
        &&& -2 * EXPONENT_LIMIT <= self.exponent <= EXPONENT_LIMIT
    }

    /// The digits as a number.
    pub open spec fn magnitude(self) -> int {
        digits_value(self.digits@) as int
    }

    /// Whether the absolute value of this number is at most that of `other`.
    pub fn magnitude_le(&self, other: &Decimal) -> (r: bool)
        requires
            self.wf(),
            other.wf(),
        ensures
            r == scaled_le(
                self.magnitude(),
                self.exponent as int,
                other.magnitude(),
                other.exponent as int,
            ),
    {
        let ghost (a, b) = (self.digits@, other.digits@);
        let ghost (e1, e2) = (self.exponent as int, other.exponent as int);
        let ghost k = min(e1, e2);
        let ghost (f1, f2) = (ten_to(e1 - k), ten_to(e2 - k));
        proof {
            lemma_ten_to(e1 - k, 0);
            lemma_ten_to(e2 - k, 0);
            lemma_digits_bound(a);
            lemma_digits_bound(b);
        }
        if self.digits.len() == 0 {
            assert(digits_value(b) * f2 >= 0) by (nonlinear_arith)
                requires
                    f2 >= 1,
            ;
            return true;
        }
        proof {
            lemma_digits_lower_bound(a);
            lemma_ten_to(a.len() - 1, 0);
        }
        if other.digits.len() == 0 {
            assert(digits_value(a) * f1 > digits_value(b) * f2) by (nonlinear_arith)
                requires
                    f1 >= 1,
                    digits_value(a) >= 1,
                    digits_value(b) == 0,
            ;
            return false;
        }
        proof {
            lemma_digits_lower_bound(b);
            lemma_ten_to(b.len() - 1, 0);
        }
        let top: i128 = self.digits.len() as i128 + self.exponent;
        let other_top: i128 = other.digits.len() as i128 + other.exponent;
        if top < other_top {
            proof {
                lemma_lower_top(a, e1, b, e2);
            }
            return true;
        }
        if other_top < top {
            proof {
                lemma_lower_top(b, e2, a, e1);
            }
            return false;
        }
        let len: usize = if self.digits.len() < other.digits.len() {
            other.digits.len()
        } else {
            self.digits.len()
        };
        let ghost (pa, pb) = (padded(a, len as int), padded(b, len as int));
        proof {
            lemma_padded(a, len as int);
            lemma_padded(b, len as int);
        }
        for i in 0..len
            invariant
                a == self.digits@,
                b == other.digits@,
                a.len() <= len,
                b.len() <= len,
                pa == padded(a, len as int),
                pb == padded(b, len as int),
                pa.len() == len,
                pb.len() == len,
                are_digits(pa),
                are_digits(pb),
                pa.take(i as int) == pb.take(i as int),
                f1 == ten_to(e1 - k),
                f2 == ten_to(e2 - k),
                k == min(e1, e2),
                e1 == self.exponent,
                e2 == other.exponent,
                digits_value(pa) == digits_value(a) * f1,
                digits_value(pb) == digits_value(b) * f2,
        {
            let x: u8 = if i < self.digits.len() {
                self.digits[i]
            } else {
                0
            };
            let y: u8 = if i < other.digits.len() {
                other.digits[i]
            } else {
                0
            };
            assert(x == pa[i as int]);
            assert(y == pb[i as int]);
            if x < y {
                proof {
                    lemma_first_difference(pa, pb, i as int);
                }
                return true;
            }
            if y < x {
                proof {
                    lemma_first_difference(pb, pa, i as int);
                }
                return false;
            }
            assert(pa.take(i + 1) =~= pa.take(i as int).push(x));
            assert(pb.take(i + 1) =~= pb.take(i as int).push(y));
        }
        assert(pa.take(len as int) =~= pa);
        assert(pb.take(len as int) =~= pb);
        true
    }
}

/// A number whose leading digit stands lower is the smaller one.
proof fn lemma_lower_top(a: Seq<u8>, e1: int, b: Seq<u8>, e2: int)
    requires
        are_digits(a),
        b.len() > 0,
        b[0] != 0,
        a.len() + e1 < b.len() + e2,
    ensures
        scaled_le(digits_value(a) as int, e1, digits_value(b) as int, e2),
        !scaled_le(digits_value(b) as int, e2, digits_value(a) as int, e1),
{
    let k = min(e1, e2);
    let (m1, m2) = (digits_value(a) as int, digits_value(b) as int);
    let (f1, f2) = (ten_to(e1 - k), ten_to(e2 - k));
    let (t1, t2) = (ten_to(a.len() as int), ten_to(b.len() - 1));
    lemma_digits_bound(a);
    lemma_digits_lower_bound(b);
    lemma_ten_to(e1 - k, 0);
    lemma_ten_to(e2 - k, 0);
    lemma_ten_to(a.len() as int, e1 - k);
    lemma_ten_to(b.len() - 1, e2 - k);
    lemma_ten_to(a.len() + (e1 - k), b.len() - 1 + (e2 - k));
    assert(m1 * f1 < t1 * f1) by (nonlinear_arith)
        requires
            m1 < t1,
            f1 >= 1,
    ;
    assert(t2 * f2 <= m2 * f2) by (nonlinear_arith)
        requires
            t2 <= m2,
            f2 >= 1,
    ;
}

/// The power of two whose reciprocal is half the smallest positive binary64 number.
pub const HALF_SMALLEST: usize = 1075;

/// Whether `m * 10^e`, for `m` at least 0, rounds to zero in binary64: whether it is at most half
/// the smallest positive binary64 number, `2^-1075` (a tie goes to the even neighbour, zero).
pub open spec fn rounds_to_zero(m: int, e: int) -> bool {
    scaled_le(m * pow(2, HALF_SMALLEST as nat), e, 1, 0)
}

proof fn lemma_pow_base(a: int, b: int, n: nat)
    requires
        0 <= a <= b,
    ensures
        0 <= pow(a, n) <= pow(b, n),
    decreases n,
{
    reveal(pow);
    if n > 0 {
        lemma_pow_base(a, b, (n - 1) as nat);
        let (x, y) = (pow(a, (n - 1) as nat), pow(b, (n - 1) as nat));
        assert(0 <= a * x <= b * y) by (nonlinear_arith)
            requires
                0 <= a <= b,
                0 <= x <= y,
        ;
    }
}

/// `10^300` is below `2^1075`.
pub proof fn lemma_ten_to_300()
    ensures
        ten_to(300) < pow(2, HALF_SMALLEST as nat),
{
    assert(pow(2, 10) == 1024) by {
        reveal_with_fuel(pow, 11);
    }
    assert(pow(10, 3) == 1000) by {
        reveal_with_fuel(pow, 4);
    }
    lemma_pow_multiplies(2, 10, 100);
    lemma_pow_multiplies(10, 3, 100);
    lemma_pow_base(1000, 1024, 100);
    lemma_pow_strictly_increases(2, 1000, HALF_SMALLEST as nat);
}

/// A number whose leading digit stands at `10^-300` or above does not round to zero.
proof fn lemma_high_top(digits: Seq<u8>, e: int)
    requires
        digits.len() > 0,
        digits[0] != 0,
        digits.len() + e >= -299,
    ensures
        !rounds_to_zero(digits_value(digits) as int, e),
{
    let k = min(e, 0);
    let m = digits_value(digits) as int;
    let p = pow(2, HALF_SMALLEST as nat);
    let f = ten_to(e - k);
    let t = ten_to(digits.len() - 1);
    let q = digits.len() - 1 + (e - k);
    lemma_digits_lower_bound(digits);
    lemma_ten_to(digits.len() - 1, e - k);
    lemma_ten_to(q, 300);
    lemma_ten_to(-k, q + 300);
    lemma_ten_to(e - k, 0);
    lemma_ten_to_300();
    lemma_ten_to(300, 0);
    let tq = ten_to(q);
    let h = ten_to(300);
    assert(tq * p > tq * h) by (nonlinear_arith)
        requires
            tq >= 1,
            p > h,
    ;
    assert((m * p) * f >= tq * p) by (nonlinear_arith)
        requires
            m >= t,
            tq == t * f,
            f >= 1,
            p >= 1,
            t >= 1,
    ;
    lemma_ten_to(0 - k, 0);
    assert(1 * ten_to(0 - k) == ten_to(0 - k));
}

/// `2^-1075` is `5^1075 * 10^-1075`.
proof fn lemma_half_smallest(m: int, e: int)
    ensures
        rounds_to_zero(m, e) <==> scaled_le(m, e, pow(5, HALF_SMALLEST as nat), -HALF_SMALLEST),
{
    let n = HALF_SMALLEST as int;
    let k = min(e, -n);
    let p = pow(2, HALF_SMALLEST as nat);
    let q = pow(5, HALF_SMALLEST as nat);
    let f = ten_to(e - k);
    let g = ten_to(-n - k);
    lemma_scaled_le(m * p, e, 1, 0, k);
    lemma_pow_distributes(2, 5, HALF_SMALLEST as nat);
    lemma_pow_positive(2, HALF_SMALLEST as nat);
    lemma_ten_to(n, -n - k);
    assert(ten_to(-k) == (p * q) * g);
    assert((m * p) * f == p * (m * f)) by (nonlinear_arith);
    assert((p * q) * g == p * (q * g)) by (nonlinear_arith);
    let (x, y) = (m * f, q * g);
    assert(p * x <= p * y <==> x <= y) by (nonlinear_arith)
        requires
            p >= 1,
    ;
}

/// The number that a run of digits spells, least significant digit first.
spec fn reversed_value(digits: Seq<u8>) -> nat {
    digits_value(digits.reverse())
}

proof fn lemma_reversed_push(digits: Seq<u8>, d: u8)
    ensures
        reversed_value(digits.push(d)) == reversed_value(digits) + d * ten_to(digits.len() as int),
{
    let head = seq![d];
    assert(digits.push(d).reverse() =~= head + digits.reverse());
    lemma_digits_append(head, digits.reverse());
    assert(head.drop_last() =~= Seq::<u8>::empty());
    assert(digits_value(head.drop_last()) == 0);
}

/// Five times a number, least significant digit first.
fn times_five(digits: &Vec<u8>) -> (r: Vec<u8>)
    requires
        are_digits(digits@),
    ensures
        are_digits(r@),
        reversed_value(r@) == 5 * reversed_value(digits@),
{
    let mut r: Vec<u8> = Vec::new();
    let mut carry: u8 = 0;
    assert(digits@.take(0).reverse() =~= Seq::<u8>::empty());
    assert(r@.reverse() =~= Seq::<u8>::empty());
    for i in 0..digits.len()
        invariant
            are_digits(digits@),
            are_digits(r@),
            r@.len() == i,
            carry < 5,
            reversed_value(r@) + carry * ten_to(i as int) == 5 * reversed_value(
                digits@.take(i as int),
            ),
    {
        let ghost before = r@;
        let ghost old_carry = carry as int;
        let d: u8 = digits[i];
        let x: u8 = 5 * d + carry;
        r.push(x % 10);
        carry = x / 10;
        proof {
            let t = ten_to(i as int);
            lemma_reversed_push(before, x % 10);
            assert(digits@.take(i + 1) =~= digits@.take(i as int).push(d));
            lemma_reversed_push(digits@.take(i as int), d);
            lemma_ten_to(i as int, 1);
            let (lo, hi) = ((x % 10) as int, (x / 10) as int);
            assert(x == lo + 10 * hi);
            assert(lo * t + hi * (t * 10) == old_carry * t + 5 * (d * t)) by (nonlinear_arith)
                requires
                    5 * d + old_carry == lo + 10 * hi,
            ;
        }
    }
    assert(digits@.take(digits@.len() as int) =~= digits@);
    let ghost before = r@;
    r.push(carry);
    proof {
        lemma_reversed_push(before, carry);
    }
    r
}

/// A run of digits without the zeros at its start.
fn without_leading_zeros(digits: &Vec<u8>) -> (r: Vec<u8>)
    requires
        are_digits(digits@),
    ensures
        are_digits(r@),
        r@.len() > 0 ==> r@[0] != 0,
        digits_value(r@) == digits_value(digits@),
{
    let mut r: Vec<u8> = Vec::new();
    assert(digits@.take(0) =~= Seq::<u8>::empty());
    for i in 0..digits.len()
        invariant
            are_digits(digits@),
            are_digits(r@),
            r@.len() > 0 ==> r@[0] != 0,
            digits_value(r@) == digits_value(digits@.take(i as int)),
    {
        let ghost before = r@;
        assert(digits@.take(i + 1).drop_last() =~= digits@.take(i as int));
        if r.len() > 0 || digits[i] != 0 {
            r.push(digits[i]);
            assert(r@.drop_last() =~= before);
        }
    }
    assert(digits@.take(digits@.len() as int) =~= digits@);
    r
}

/// `5^n`, most significant digit first.
fn five_to(n: usize) -> (r: Vec<u8>)
    ensures
        are_digits(r@),
        r@.len() > 0 ==> r@[0] != 0,
        digits_value(r@) == pow(5, n as nat),
{
    let mut reversed: Vec<u8> = Vec::new();
    reversed.push(1);
    proof {
        lemma_reversed_push(Seq::<u8>::empty(), 1);
        assert(Seq::<u8>::empty().reverse() =~= Seq::<u8>::empty());
        assert(reversed@ =~= Seq::<u8>::empty().push(1u8));
        lemma_ten_to(0, 0);
        lemma_pow0(5);
    }
    for i in 0..n
        invariant
            are_digits(reversed@),
            reversed_value(reversed@) == pow(5, i as nat),
    {
        reversed = times_five(&reversed);
        proof {
            lemma_pow1(5);
            lemma_pow_adds(5, i as nat, 1);
        }
    }
    let mut digits: Vec<u8> = Vec::new();
    for i in 0..reversed.len()
        invariant
            are_digits(reversed@),
            are_digits(digits@),
            digits@ == reversed@.reverse().take(i as int),
    {
        digits.push(reversed[reversed.len() - 1 - i]);
    }
    assert(digits@ =~= reversed@.reverse());
    without_leading_zeros(&digits)
}

impl Decimal {
    /// Whether the absolute value of this number rounds to zero in binary64.
    pub fn is_zero(&self) -> (r: bool)
        requires
            self.wf(),
        ensures
            r == rounds_to_zero(self.magnitude(), self.exponent as int),
    {
        proof {
            lemma_half_smallest(self.magnitude(), self.exponent as int);
        }
        if self.digits.len() == 0 {
            proof {
                let (e, p) = (self.exponent as int, pow(2, HALF_SMALLEST as nat));
                let f = ten_to(e - min(e, 0));
                lemma_ten_to(0 - min(e, 0), 0);
                assert((0 * p) * f == 0) by (nonlinear_arith);
            }
            return true;
        }
        if self.digits.len() as i128 + self.exponent >= -299 {
            proof {
                lemma_high_top(self.digits@, self.exponent as int);
            }
            return false;
        }
        let bound = Decimal { negative: false, digits: five_to(HALF_SMALLEST), exponent: -1075 };
        self.magnitude_le(&bound)
    }
}

/// A number as its text spells it. A finite one is `digits * 10^exponent`.
pub enum NumberView {
    Nan,
    Infinite { negative: bool },
    Finite { negative: bool, digits: nat, exponent: int },
}

/// The order of numbers. What is not a number stands above every number.
pub open spec fn number_le(a: NumberView, b: NumberView) -> bool {
    match (a, b) {
        (_, NumberView::Nan) => true,
        (NumberView::Nan, _) => false,
        (NumberView::Infinite { negative: true }, _) => true,
        (_, NumberView::Infinite { negative: false }) => true,
        (NumberView::Infinite { negative: false }, _) => false,
        (_, NumberView::Infinite { negative: true }) => false,
        (
            NumberView::Finite { negative: n1, digits: m1, exponent: e1 },
            NumberView::Finite { negative: n2, digits: m2, exponent: e2 },
        ) => scaled_le(signed_value(n1, m1), e1, signed_value(n2, m2), e2),
    }
}

pub open spec fn signed_value(negative: bool, m: nat) -> int {
    if negative {
        -(m as int)
    } else {
        m as int
    }
}

/// Whether a number is zero once it is rounded to binary64.
pub open spec fn number_is_zero(n: NumberView) -> bool {
    n matches NumberView::Finite { negative, digits, exponent } && rounds_to_zero(
        digits as int,
        exponent,
    )
}

proof fn lemma_scaled_le_transitive(m1: int, e1: int, m2: int, e2: int, m3: int, e3: int)
    requires
        scaled_le(m1, e1, m2, e2),
        scaled_le(m2, e2, m3, e3),
    ensures
        scaled_le(m1, e1, m3, e3),
{
    let k = min(e1, min(e2, e3));
    lemma_scaled_le(m1, e1, m2, e2, k);
    lemma_scaled_le(m2, e2, m3, e3, k);
    lemma_scaled_le(m1, e1, m3, e3, k);
}

/// Any two numbers are ordered one way or the other.
pub proof fn number_order_is_total(a: NumberView, b: NumberView)
    ensures
        number_le(a, b) || number_le(b, a),
{
}

/// The order of numbers is transitive.
pub proof fn number_order_is_transitive(a: NumberView, b: NumberView, c: NumberView)
    requires
        number_le(a, b),
        number_le(b, c),
    ensures
        number_le(a, c),
{
    match (a, b, c) {
        (
            NumberView::Finite { negative: n1, digits: m1, exponent: e1 },
            NumberView::Finite { negative: n2, digits: m2, exponent: e2 },
            NumberView::Finite { negative: n3, digits: m3, exponent: e3 },
        ) => {
            lemma_scaled_le_transitive(
                signed_value(n1, m1),
                e1,
                signed_value(n2, m2),
                e2,
                signed_value(n3, m3),
                e3,
            );
        },
        _ => {},
    }
}

/// What is closer to zero than a number that rounds to zero rounds to zero as well.
pub proof fn smaller_numbers_round_to_zero(m1: int, e1: int, m2: int, e2: int)
    requires
        scaled_le(m1, e1, m2, e2),
        rounds_to_zero(m2, e2),
    ensures
        rounds_to_zero(m1, e1),
{
    let p = pow(2, HALF_SMALLEST as nat);
    let k = min(e1, e2);
    let (f1, f2) = (ten_to(e1 - k), ten_to(e2 - k));
    lemma_pow_positive(2, HALF_SMALLEST as nat);
    assert((m1 * p) * f1 <= (m2 * p) * f2) by (nonlinear_arith)
        requires
            m1 * f1 <= m2 * f2,
            p >= 1,
    ;
    lemma_scaled_le_transitive(m1 * p, e1, m2 * p, e2, 1, 0);
}

/// A number read from text.
#[derive(Debug, PartialEq, Eq)]
pub enum Number {
    Nan,
    Infinite { negative: bool },
    Finite(Decimal),
}

impl View for Number {
    type V = NumberView;

    open spec fn view(&self) -> NumberView {
        match *self {
            Number::Nan => NumberView::Nan,
            Number::Infinite { negative } => NumberView::Infinite { negative },
            Number::Finite(d) => NumberView::Finite {
                negative: d.negative,
                digits: digits_value(d.digits@),
                exponent: d.exponent as int,
            },
        }
    }
}

/// Negating both numbers turns their order round.
proof fn lemma_scaled_le_negated(m1: int, e1: int, m2: int, e2: int)
    ensures
        scaled_le(-m1, e1, -m2, e2) == scaled_le(m2, e2, m1, e1),
{
    let k = min(e1, e2);
    let (f1, f2) = (ten_to(e1 - k), ten_to(e2 - k));
    assert((-m1) * f1 == -(m1 * f1)) by (nonlinear_arith);
    assert((-m2) * f2 == -(m2 * f2)) by (nonlinear_arith);
}

proof fn lemma_scaled_le_signs(m1: int, e1: int, m2: int, e2: int)
    requires
        m1 >= 0,
        m2 >= 0,
    ensures
        scaled_le(-m1, e1, m2, e2),
        scaled_le(m1, e1, -m2, e2) <==> m1 == 0 && m2 == 0,
{
    let k = min(e1, e2);
    let (f1, f2) = (ten_to(e1 - k), ten_to(e2 - k));
    lemma_ten_to(e1 - k, 0);
    lemma_ten_to(e2 - k, 0);
    assert((-m1) * f1 <= m2 * f2) by (nonlinear_arith)
        requires
            m1 >= 0,
            m2 >= 0,
            f1 >= 1,
            f2 >= 1,
    ;
    assert(m1 * f1 <= (-m2) * f2 <==> m1 == 0 && m2 == 0) by (nonlinear_arith)
        requires
            m1 >= 0,
            m2 >= 0,
            f1 >= 1,
            f2 >= 1,
    ;
}

impl Number {
    pub open spec fn wf(self) -> bool {
        self matches Number::Finite(d) ==> d.wf()
    }

    /// Whether this number stands at or below `other`.
    pub fn le(&self, other: &Number) -> (r: bool)
        requires
            self.wf(),
            other.wf(),
        ensures
            r == number_le(self@, other@),
    {
        match (self, other) {
            (_, Number::Nan) => true,
            (Number::Nan, _) => false,
            (Number::Infinite { negative: true }, _) => true,
            (_, Number::Infinite { negative: false }) => true,
            (Number::Infinite { negative: false }, _) => false,
            (_, Number::Infinite { negative: true }) => false,
            (Number::Finite(a), Number::Finite(b)) => {
                proof {
                    let (m1, e1) = (a.magnitude(), a.exponent as int);
                    let (m2, e2) = (b.magnitude(), b.exponent as int);
                    lemma_scaled_le_negated(m1, e1, m2, e2);
                    lemma_scaled_le_signs(m1, e1, m2, e2);
                    if a.digits@.len() > 0 {
                        lemma_digits_lower_bound(a.digits@);
                        lemma_ten_to(a.digits@.len() - 1, 0);
                    }
                    if b.digits@.len() > 0 {
                        lemma_digits_lower_bound(b.digits@);
                        lemma_ten_to(b.digits@.len() - 1, 0);
                    }
                }
                if a.negative {
                    if b.negative {
                        b.magnitude_le(a)
                    } else {
                        true
                    }
                } else if b.negative {
                    a.digits.len() == 0 && b.digits.len() == 0
                } else {
                    a.magnitude_le(b)
                }
            },
        }
    }

    /// Whether this number is zero once it is rounded to binary64.
    pub fn is_zero(&self) -> (r: bool)
        requires
            self.wf(),
        ensures
            r == number_is_zero(self@),
    {
        match self {
            Number::Finite(d) => d.is_zero(),
            _ => false,
        }
    }
}

pub open spec fn is_digit(c: char) -> bool {
    '0' <= c && c <= '9'
}

pub open spec fn all_digits(s: Seq<char>) -> bool {
    forall|i: int| 0 <= i < s.len() ==> is_digit(#[trigger] s[i])
}

/// The digits that a run of digit characters stands for.
pub open spec fn digit_values(s: Seq<char>) -> Seq<u8> {
    s.map_values(|c: char| ((c as u32) - 48) as u8)
}

/// Where the first character stands whose ASCII lower case form is `c`; past the end if none is.
pub open spec fn find_char(s: Seq<char>, c: char) -> int
    decreases s.len(),
{
    if s.len() == 0 || lower(s[0]) == c {
        0
    } else {
        1 + find_char(s.drop_first(), c)
    }
}

/// Whether `s` starts with a sign.
pub open spec fn has_sign(s: Seq<char>) -> bool {
    s.len() > 0 && (s[0] == '+' || s[0] == '-')
}

/// Whether `s` starts with a minus sign.
pub open spec fn is_negative(s: Seq<char>) -> bool {
    s.len() > 0 && s[0] == '-'
}

/// What follows the sign that `s` may start with.
pub open spec fn unsigned(s: Seq<char>) -> Seq<char> {
    if has_sign(s) {
        s.drop_first()
    } else {
        s
    }
}

/// The exponent that `s` spells: a sign, which may be left out, and at least one digit. Exponents
/// past the limit count as the limit.
pub open spec fn exponent_of(s: Seq<char>) -> Option<int> {
    let d = unsigned(s);
    if d.len() > 0 && all_digits(d) {
        let value = min(digits_value(digit_values(d)) as int, EXPONENT_LIMIT as int);
        if is_negative(s) {
            Some(-value)
        } else {
            Some(value)
        }
    } else {
        None
    }
}

/// The finite number that `s` spells: digits with at most one point among or around them, at
/// least one digit in all, and an exponent after `e`, which may be left out.
pub open spec fn finite_of(negative: bool, s: Seq<char>) -> Option<NumberView> {
    let n = find_char(s, 'e');
    let exponent = if n < s.len() {
        exponent_of(s.skip(n + 1))
    } else {
        Some(0int)
    };
    let mantissa = s.take(n);
    let p = find_char(mantissa, '.');
    let whole = mantissa.take(p);
    let fraction = if p < mantissa.len() {
        mantissa.skip(p + 1)
    } else {
        Seq::empty()
    };
    if exponent is Some && all_digits(whole) && all_digits(fraction) && whole.len()
        + fraction.len() > 0 {
        Some(
            NumberView::Finite {
                negative,
                digits: digits_value(digit_values(whole + fraction)),
                exponent: exponent->0 - fraction.len(),
            },
        )
    } else {
        None
    }
}

/// The number that `s` spells, in the grammar that binary64 numbers are read in: a sign, which
/// may be left out, and one of `inf`, `infinity`, `nan` and a finite number, in either case.
pub open spec fn number_of(s: Seq<char>) -> Option<NumberView> {
    let body = unsigned(s);
    if lowered(body) == "inf"@ || lowered(body) == "infinity"@ {
        Some(NumberView::Infinite { negative: is_negative(s) })
    } else if lowered(body) == "nan"@ {
        Some(NumberView::Nan)
    } else {
        finite_of(is_negative(s), body)
    }
}

pub proof fn lemma_find_char(s: Seq<char>, c: char, n: int)
    requires
        0 <= n <= s.len(),
        forall|i: int| 0 <= i < n ==> lower(#[trigger] s[i]) != c,
        n < s.len() ==> lower(s[n]) == c,
    ensures
        find_char(s, c) == n,
    decreases n,
{
    if n > 0 {
        let t = s.drop_first();
        assert forall|i: int| 0 <= i < n - 1 implies lower(#[trigger] t[i]) != c by {
            assert(t[i] == s[i + 1]);
        }
        lemma_find_char(t, c, n - 1);
    }
}

/// Where the first character of `text` stands whose lower case form is `c`.
fn position_of(text: &str, c: char) -> (r: usize)
    ensures
        r <= text@.len(),
        r == find_char(text@, c),
{
    let chars = chars_of(text);
    let mut i: usize = 0;
    while i < chars.len() && lower_char(chars[i]) != c
        invariant
            chars@ == text@,
            i <= chars@.len(),
            forall|j: int| 0 <= j < i ==> lower(#[trigger] chars@[j]) != c,
        decreases chars@.len() - i,
    {
        i += 1;
    }
    proof {
        lemma_find_char(text@, c, i as int);
    }
    i
}

/// The sign of `text`, and what follows it.
fn split_sign(text: &str) -> (r: (bool, &str))
    ensures
        r.0 == is_negative(text@),
        r.1@ == unsigned(text@),
{
    let len: usize = text.unicode_len();
    if len > 0 {
        let c: char = text.get_char(0);
        if c == '+' || c == '-' {
            let rest = text.substring_char(1, len);
            assert(rest@ =~= text@.drop_first());
            return (c == '-', rest);
        }
    }
    (false, text)
}

/// The digits of `text`, where it holds nothing else.
fn read_digits(text: &str) -> (r: Option<Vec<u8>>)
    ensures
        match r {
            Some(d) => all_digits(text@) && d@ == digit_values(text@) && are_digits(d@),
            None => !all_digits(text@),
        },
{
    let chars = chars_of(text);
    let mut digits: Vec<u8> = Vec::new();
    for i in 0..chars.len()
        invariant
            chars@ == text@,
            digits@ == digit_values(text@.take(i as int)),
            are_digits(digits@),
            forall|j: int| 0 <= j < i ==> is_digit(#[trigger] text@[j]),
    {
        let c: char = chars[i];
        if !('0' <= c && c <= '9') {
            assert(!is_digit(text@[i as int]));
            return None;
        }
        digits.push((c as u8) - 48);
        assert(digits@ =~= digit_values(text@.take(i + 1)));
    }
    assert(text@.take(chars@.len() as int) =~= text@);
    Some(digits)
}

/// The exponent that `text` spells.
fn read_exponent(text: &str) -> (r: Option<i128>)
    ensures
        match r {
            Some(e) => exponent_of(text@) == Some(e as int) && -EXPONENT_LIMIT <= e
                <= EXPONENT_LIMIT,
            None => exponent_of(text@) is None,
        },
{
    let (negative, body) = split_sign(text);
    let digits = match read_digits(body) {
        Some(digits) => digits,
        None => {
            return None;
        },
    };
    if digits.len() == 0 {
        return None;
    }
    let mut value: i128 = 0;
    assert(digits@.take(0) =~= Seq::<u8>::empty());
    for i in 0..digits.len()
        invariant
            are_digits(digits@),
            0 <= value <= EXPONENT_LIMIT,
            value == min(digits_value(digits@.take(i as int)) as int, EXPONENT_LIMIT as int),
    {
        assert(digits@.take(i + 1).drop_last() =~= digits@.take(i as int));
        let next: i128 = value * 10 + digits[i] as i128;
        value = if next > EXPONENT_LIMIT {
            EXPONENT_LIMIT
        } else {
            next
        };
    }
    assert(digits@.take(digits@.len() as int) =~= digits@);
    if negative {
        Some(-value)
    } else {
        Some(value)
    }
}

/// The finite number that `text` spells.
fn read_finite(negative: bool, text: &str) -> (r: Option<Number>)
    ensures
        match r {
            Some(n) => n.wf() && finite_of(negative, text@) == Some(n@),
            None => finite_of(negative, text@) is None,
        },
{
    let len: usize = text.unicode_len();
    let n: usize = position_of(text, 'e');
    let mantissa = text.substring_char(0, n);
    assert(mantissa@ =~= text@.take(n as int));
    let mut exponent: i128 = 0;
    if n < len {
        let tail = text.substring_char(n + 1, len);
        assert(tail@ =~= text@.skip(n + 1));
        exponent = match read_exponent(tail) {
            Some(e) => e,
            None => {
                return None;
            },
        };
    }
    let p: usize = position_of(mantissa, '.');
    let whole = mantissa.substring_char(0, p);
    assert(whole@ =~= mantissa@.take(p as int));
    let fraction = if p < n {
        mantissa.substring_char(p + 1, n)
    } else {
        mantissa.substring_char(n, n)
    };
    assert(fraction@ =~= if p < n {
        mantissa@.skip(p + 1)
    } else {
        Seq::empty()
    });
    let mut digits = match read_digits(whole) {
        Some(digits) => digits,
        None => {
            return None;
        },
    };
    let mut places = match read_digits(fraction) {
        Some(digits) => digits,
        None => {
            return None;
        },
    };
    let width: usize = places.len();
    digits.append(&mut places);
    assert(digits@ =~= digit_values(whole@ + fraction@));
    if digits.len() == 0 {
        return None;
    }
    Some(
        Number::Finite(
            Decimal {
                negative,
                digits: without_leading_zeros(&digits),
                exponent: exponent - width as i128,
            },
        ),
    )
}

/// The number that `text` spells.
pub fn read_number(text: &str) -> (r: Option<Number>)
    ensures
        match r {
            Some(n) => n.wf() && number_of(text@) == Some(n@),
            None => number_of(text@) is None,
        },
{
    proof {
        reveal_strlit("inf");
        reveal_strlit("infinity");
        reveal_strlit("nan");
        assert(lowered("inf"@) =~= "inf"@);
        assert(lowered("infinity"@) =~= "infinity"@);
        assert(lowered("nan"@) =~= "nan"@);
    }
    let (negative, body) = split_sign(text);
    if same_text_ignoring_case(body, "inf") || same_text_ignoring_case(body, "infinity") {
        Some(Number::Infinite { negative })
    } else if same_text_ignoring_case(body, "nan") {
        Some(Number::Nan)
    } else {
        read_finite(negative, body)
    }
}

} // verus!
