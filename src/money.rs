use std::cmp::Ordering;
use std::ops::{Add, Div, Mul, Sub};
use vstd::prelude::*;
use vstd::string::StringExecFns;

use crate::util::{push_with_commas, push_zero_padded, with_commas, zero_padded};

verus! {

/// Largest magnitude a money amount may take, in cents.
pub const MONEY_MAX: i64 = 9_223_372_036_854_775_807;

/// Whether an exact amount of cents can be held by `Money`.
///
/// The range is symmetric so that negating an amount never leaves it.
pub open spec fn in_money_range(cents: int) -> bool {
    -(MONEY_MAX as int) <= cents <= MONEY_MAX as int
}

/// Division of `a` by `b` rounded to the nearest integer, halves away from zero.
pub open spec fn round_div(a: int, b: int) -> int
    recommends
        b != 0,
{
    let n = if a < 0 { -a } else { a };
    let d = if b < 0 { -b } else { b };
    let q = (2 * n + d) / (2 * d);
    if (a < 0) != (b < 0) {
        -q
    } else {
        q
    }
}

/// The number of cents in `dollars` and `cents`, where a negative `dollars`
/// makes the whole amount negative.
pub open spec fn money_of(dollars: int, cents: int) -> int {
    if dollars < 0 {
        dollars * 100 - cents
    } else {
        dollars * 100 + cents
    }
}

/// Integer division truncated toward zero, as Rust's `/` on integers.
pub open spec fn trunc_div(a: int, b: int) -> int
    recommends
        b > 0,
{
    if a < 0 {
        -((-a) / b)
    } else {
        a / b
    }
}

/// The total number of cents in `items`.
pub open spec fn total_of(items: Seq<Money>) -> int
    decreases items.len(),
{
    if items.len() == 0 {
        0
    } else {
        total_of(items.drop_last()) + items.last()@
    }
}

/// How an amount of cents is written: an optional minus sign, a dollar sign,
/// the dollars with thousands separators, a point and two digits of cents.
pub open spec fn money_text(cents: int) -> Seq<char> {
    let a = if cents < 0 { -cents } else { cents };
    let sign = if cents < 0 { seq!['-'] } else { Seq::empty() };
    sign + seq!['$'] + with_commas((a / 100) as nat) + seq!['.'] + zero_padded((a % 100) as nat, 2)
}

/// A fixed-point amount of money held as a whole number of cents.
#[derive(Clone, Copy, PartialEq, Eq, Structural, Debug)]
pub struct Money {
    pub cents: i64,
}

impl View for Money {
    type V = int;

    open spec fn view(&self) -> int {
        self.cents as int
    }
}

impl Money {
    /// Builds `dollars` and `cents`; a negative `dollars` makes the whole amount negative.
    pub fn new(dollars: i64, cents: i64) -> (r: Money)
        requires
            0 <= cents <= 99,
            in_money_range(money_of(dollars as int, cents as int)),
        ensures
            r@ == money_of(dollars as int, cents as int),
    {
        let value = if dollars < 0 {
            dollars * 100 - cents
        } else {
            dollars * 100 + cents
        };
        Money::from_cents(value)
    }

    pub fn from_cents(cents: i64) -> (r: Money)
        ensures
            r@ == cents,
    {
        Money { cents }
    }

    pub fn zero() -> (r: Money)
        ensures
            r@ == 0,
    {
        Money { cents: 0 }
    }

    /// The whole-dollar part, truncated toward zero.
    pub fn dollars(&self) -> (r: i64)
        ensures
            r == trunc_div(self@, 100),
    {
        self.cents / 100
    }

    /// The cents part, carrying the sign of the amount.
    pub fn cents(&self) -> (r: i64)
        ensures
            r == self@ - 100 * trunc_div(self@, 100),
    {
        self.cents % 100
    }

    pub fn raw_value(&self) -> (r: i64)
        ensures
            r == self@,
    {
        self.cents
    }

    pub fn add_assign(&mut self, rhs: Money)
        requires
            in_money_range(old(self)@ + rhs@),
        ensures
            final(self)@ == old(self)@ + rhs@,
    {
        self.cents = self.cents + rhs.cents;
    }

    pub fn sub_assign(&mut self, rhs: Money)
        requires
            in_money_range(old(self)@ - rhs@),
        ensures
            final(self)@ == old(self)@ - rhs@,
    {
        self.cents = self.cents - rhs.cents;
    }

    pub fn mul_assign(&mut self, rhs: i64)
        requires
            in_money_range(old(self)@ * rhs),
        ensures
            final(self)@ == old(self)@ * rhs,
    {
        self.cents = self.cents * rhs;
    }

    /// Divides in place, rounding to the nearest cent with halves away from zero.
    pub fn div_assign(&mut self, rhs: i64)
        requires
            rhs != 0,
            in_money_range(round_div(old(self)@, rhs as int)),
        ensures
            final(self)@ == round_div(old(self)@, rhs as int),
    {
        *self = *self / rhs;
    }

    /// The amount as text, such as `-$1,111.11`.
    pub fn to_string(&self) -> (r: String)
        ensures
            r@ == money_text(self@),
    {
        let a: u64 = if self.cents < 0 {
            (-(self.cents as i128)) as u64
        } else {
            self.cents as u64
        };
        let mut out = String::new();
        proof {
            reveal_strlit("-");
            reveal_strlit("$");
            reveal_strlit(".");
        }
        if self.cents < 0 {
            out.append("-");
        }
        out.append("$");
        push_with_commas(&mut out, a / 100);
        out.append(".");
        push_zero_padded(&mut out, a % 100, 2);
        assert(out@ =~= money_text(self@));
        out
    }

    /// The sum, or `None` when it cannot be held.
    pub fn checked_add(self, rhs: Money) -> (r: Option<Money>)
        ensures
            r == (if in_money_range(self@ + rhs@) {
                Some(Money { cents: (self@ + rhs@) as i64 })
            } else {
                None
            }),
    {
        let total = self.cents as i128 + rhs.cents as i128;
        if -(MONEY_MAX as i128) <= total && total <= MONEY_MAX as i128 {
            Some(Money { cents: total as i64 })
        } else {
            None
        }
    }

    /// The difference, or `None` when it cannot be held.
    pub fn checked_sub(self, rhs: Money) -> (r: Option<Money>)
        ensures
            r == (if in_money_range(self@ - rhs@) {
                Some(Money { cents: (self@ - rhs@) as i64 })
            } else {
                None
            }),
    {
        let total = self.cents as i128 - rhs.cents as i128;
        if -(MONEY_MAX as i128) <= total && total <= MONEY_MAX as i128 {
            Some(Money { cents: total as i64 })
        } else {
            None
        }
    }

    /// The sum of `items`, which must stay representable at every step.
    pub fn sum(items: &[Money]) -> (r: Money)
        requires
            forall|k: int| 0 <= k <= items@.len() ==> in_money_range(#[trigger] total_of(items@.take(k))),
        ensures
            r@ == total_of(items@),
    {
        let mut acc = Money::zero();
        let mut i: usize = 0;
        while i < items.len()
            invariant
                i <= items@.len(),
                acc@ == total_of(items@.take(i as int)),
                forall|k: int| 0 <= k <= items@.len() ==> in_money_range(#[trigger] total_of(items@.take(k))),
            decreases items@.len() - i,
        {
            assert(items@.take(i + 1).drop_last() == items@.take(i as int));
            assert(in_money_range(total_of(items@.take(i + 1))));
            acc = acc + items[i];
            i = i + 1;
        }
        assert(items@.take(items@.len() as int) == items@);
        acc
    }
}

impl Add for Money {
    type Output = Money;

    fn add(self, rhs: Money) -> (r: Money) {
        Money { cents: self.cents + rhs.cents }
    }
}

impl vstd::std_specs::ops::AddSpecImpl for Money {
    open spec fn obeys_add_spec() -> bool {
        true
    }

    open spec fn add_req(self, rhs: Money) -> bool {
        in_money_range(self@ + rhs@)
    }

    open spec fn add_spec(self, rhs: Money) -> Money {
        Money { cents: (self@ + rhs@) as i64 }
    }
}

impl Sub for Money {
    type Output = Money;

    fn sub(self, rhs: Money) -> (r: Money) {
        Money { cents: self.cents - rhs.cents }
    }
}

impl vstd::std_specs::ops::SubSpecImpl for Money {
    open spec fn obeys_sub_spec() -> bool {
        true
    }

    open spec fn sub_req(self, rhs: Money) -> bool {
        in_money_range(self@ - rhs@)
    }

    open spec fn sub_spec(self, rhs: Money) -> Money {
        Money { cents: (self@ - rhs@) as i64 }
    }
}

impl Mul<i64> for Money {
    type Output = Money;

    fn mul(self, rhs: i64) -> (r: Money) {
        Money { cents: self.cents * rhs }
    }
}

impl vstd::std_specs::ops::MulSpecImpl<i64> for Money {
    open spec fn obeys_mul_spec() -> bool {
        true
    }

    open spec fn mul_req(self, rhs: i64) -> bool {
        in_money_range(self@ * rhs)
    }

    open spec fn mul_spec(self, rhs: i64) -> Money {
        Money { cents: (self@ * rhs) as i64 }
    }
}

proof fn lemma_round_div_bound(n: int, d: int)
    requires
        n >= 0,
        d >= 1,
    ensures
        0 <= (2 * n + d) / (2 * d) <= n,
{
    assert(0 <= (2 * n + d) / (2 * d)) by (nonlinear_arith)
        requires
            n >= 0,
            d >= 1,
    ;
    assert((2 * n + d) / (2 * d) <= n) by (nonlinear_arith)
        requires
            n >= 0,
            d >= 1,
    ;
}

impl Div<i64> for Money {
    type Output = Money;

    /// Divides, rounding to the nearest cent with halves away from zero.
    fn div(self, rhs: i64) -> (r: Money) {
        let a = self.cents as i128;
        let b = rhs as i128;
        let n: i128 = if a < 0 { -a } else { a };
        let d: i128 = if b < 0 { -b } else { b };
        proof {
            lemma_round_div_bound(n as int, d as int);
        }
        let q: i128 = (2 * n + d) / (2 * d);
        let r: i128 = if (a < 0) != (b < 0) { -q } else { q };
        Money { cents: r as i64 }
    }
}

impl vstd::std_specs::ops::DivSpecImpl<i64> for Money {
    open spec fn obeys_div_spec() -> bool {
        true
    }

    open spec fn div_req(self, rhs: i64) -> bool {
        rhs != 0 && in_money_range(round_div(self@, rhs as int))
    }

    open spec fn div_spec(self, rhs: i64) -> Money {
        Money { cents: round_div(self@, rhs as int) as i64 }
    }
}

impl PartialOrd for Money {
    fn partial_cmp(&self, rhs: &Money) -> (r: Option<Ordering>) {
        if self.cents < rhs.cents {
            Some(Ordering::Less)
        } else if self.cents == rhs.cents {
            Some(Ordering::Equal)
        } else {
            Some(Ordering::Greater)
        }
    }
}

impl vstd::std_specs::cmp::PartialOrdSpecImpl for Money {
    open spec fn obeys_partial_cmp_spec() -> bool {
        true
    }

    open spec fn partial_cmp_spec(&self, rhs: &Money) -> Option<Ordering> {
        if self@ < rhs@ {
            Some(Ordering::Less)
        } else if self@ == rhs@ {
            Some(Ordering::Equal)
        } else {
            Some(Ordering::Greater)
        }
    }
}

} // verus!
