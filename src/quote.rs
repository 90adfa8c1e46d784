use vstd::prelude::*;
use vstd::string::StringExecFns;

use crate::date::{civil_date_of, in_calendar, Date};
use crate::money::{in_money_range, round_div, Money};
use crate::util::{push_zero_padded, zero_padded};

verus! {

/// The standard option symbol of a contract: the underlying's symbol, the
/// expiration as two-digit year, month and day, `C` for a call or `P` for a
/// put, and the strike times 1000 as eight zero-padded digits (the strike's
/// cents in seven digits followed by a zero).
pub open spec fn contract_name_of(
    symbol: Seq<char>,
    year: int,
    month: int,
    day: int,
    call: bool,
    strike_cents: int,
) -> Seq<char> {
    symbol + zero_padded((year % 100) as nat, 2) + zero_padded(month as nat, 2) + zero_padded(
        day as nat,
        2,
    ) + (if call {
        seq!['C']
    } else {
        seq!['P']
    }) + zero_padded(strike_cents as nat, 7) + seq!['0']
}

/// The contract name of a quote whose expiration is day number `expiration`.
pub open spec fn quote_name_of(symbol: Seq<char>, expiration: int, call: bool, strike_cents: int) -> Seq<
    char,
> {
    let (y, m, d) = civil_date_of(expiration);
    contract_name_of(symbol, y, m, d, call, strike_cents)
}

/// The last two digits of `year`, counted forward from the century's start.
fn year_of_century(year: i32) -> (r: u64)
    ensures
        r as int == (year as int) % 100,
{
    let shifted: i64 = year as i64 + 2_147_483_700;
    assert((shifted as int) % 100 == (year as int) % 100) by {
        vstd::arithmetic::div_mod::lemma_mod_add_multiples_vanish(year as int, 100);
        assert(2_147_483_700int == 21_474_837 * 100);
        vstd::arithmetic::div_mod::lemma_mod_multiples_vanish(21_474_837, year as int, 100);
    }
    (shifted % 100) as u64
}

/// Builds the contract name of an option; see `contract_name_of`.
pub fn contract_name(symbol: &str, year: i32, month: u32, day: u32, call: bool, strike: Money) -> (r:
    String)
    requires
        1 <= month <= 12,
        1 <= day <= 31,
        strike@ >= 0,
    ensures
        r@ == contract_name_of(symbol@, year as int, month as int, day as int, call, strike@),
{
    let mut out = String::from_str(symbol);
    let yy = year_of_century(year);
    push_zero_padded(&mut out, yy, 2);
    push_zero_padded(&mut out, month as u64, 2);
    push_zero_padded(&mut out, day as u64, 2);
    let ghost dated = out@;
    assert(dated == symbol@ + zero_padded(((year as int) % 100) as nat, 2) + zero_padded(
        month as nat,
        2,
    ) + zero_padded(day as nat, 2));
    proof {
        reveal_strlit("C");
        reveal_strlit("P");
        reveal_strlit("0");
    }
    if call {
        out.append("C");
    } else {
        out.append("P");
    }
    let ghost typed = out@;
    assert(typed == dated + (if call {
        seq!['C']
    } else {
        seq!['P']
    }));
    push_zero_padded(&mut out, strike.raw_value() as u64, 7);
    out.append("0");
    assert(out@ == typed + zero_padded(strike@ as nat, 7) + seq!['0']);
    
    out
}

/// Why a quote could not be built.
#[derive(Clone, Copy, PartialEq, Eq, Structural, Debug)]
pub enum QuoteError {
    /// A price is out of range or negative.
    InvalidPrice,
    /// The bid is above the ask.
    BidAboveAsk,
    /// The expiration date lies outside the calendar's range.
    ExpirationOutOfRange,
}

/// What a quote holds, with amounts in cents and dates as day numbers.
pub struct QuoteView {
    pub name: Seq<char>,
    pub symbol: Seq<char>,
    pub bid: int,
    pub ask: int,
    pub strike: int,
    pub expiration: int,
    pub call: bool,
    pub underlying: int,
    pub date: int,
}

/// Whether the prices of a quote can be held and combined: all in range, and
/// the bid, the strike and the underlying price not negative.
pub open spec fn prices_valid(bid: int, ask: int, strike: int, underlying: int) -> bool {
    in_money_range(bid) && in_money_range(ask) && in_money_range(strike) && bid >= 0 && strike >= 0
        && in_money_range(underlying) && underlying >= 0
}

/// What exercising an option now would be worth per share, in cents.
pub open spec fn intrinsic_value_of(q: QuoteView) -> int {
    if q.call {
        if q.underlying > q.strike {
            q.underlying - q.strike
        } else {
            0
        }
    } else if q.underlying < q.strike {
        q.strike - q.underlying
    } else {
        0
    }
}

/// One option contract's market state on one day. The bid never exceeds the ask.
pub struct Quote {
    name: String,
    symbol: String,
    bid: Money,
    ask: Money,
    strike_price: Money,
    expiration_date: Date,
    call: bool,
    underlying_price: Money,
    date: Date,
}

impl View for Quote {
    type V = QuoteView;

    closed spec fn view(&self) -> QuoteView {
        QuoteView {
            name: self.name@,
            symbol: self.symbol@,
            bid: self.bid@,
            ask: self.ask@,
            strike: self.strike_price@,
            expiration: self.expiration_date.days as int,
            call: self.call,
            underlying: self.underlying_price@,
            date: self.date.days as int,
        }
    }
}

impl Clone for Quote {
    fn clone(&self) -> (r: Quote)
        ensures
            r@ == self@,
    {
        proof {
            use_type_invariant(self);
        }
        Quote {
            name: self.name.clone(),
            symbol: self.symbol.clone(),
            bid: self.bid,
            ask: self.ask,
            strike_price: self.strike_price,
            expiration_date: self.expiration_date,
            call: self.call,
            underlying_price: self.underlying_price,
            date: self.date,
        }
    }
}

impl Quote {
    #[verifier::type_invariant]
    spec fn inv(&self) -> bool {
        &&& prices_valid(self.bid@, self.ask@, self.strike_price@, self.underlying_price@)
        &&& self.bid@ <= self.ask@
    }

    /// Builds a quote and derives its contract name from the symbol, the
    /// expiration, the type and the strike.
    pub fn new(
        symbol: &str,
        expiration_date: Date,
        call: bool,
        strike_price: Money,
        bid: Money,
        ask: Money,
        underlying_price: Money,
        date: Date,
    ) -> (r: Result<Quote, QuoteError>)
        ensures
            (r == Err::<Quote, QuoteError>(QuoteError::InvalidPrice)) <==> !prices_valid(
                bid@,
                ask@,
                strike_price@,
                underlying_price@,
            ),
            (r == Err::<Quote, QuoteError>(QuoteError::BidAboveAsk)) <==> prices_valid(
                bid@,
                ask@,
                strike_price@,
                underlying_price@,
            ) && bid@ > ask@,
            prices_valid(bid@, ask@, strike_price@, underlying_price@) && bid@ <= ask@ ==> (r
                == Err::<Quote, QuoteError>(QuoteError::ExpirationOutOfRange) <==> !in_calendar(
                expiration_date.days as int,
            )),
            r is Ok <==> prices_valid(bid@, ask@, strike_price@, underlying_price@) && bid@ <= ask@
                && in_calendar(expiration_date.days as int),
            r matches Ok(q) ==> {
                &&& q@.name == quote_name_of(symbol@, expiration_date.days as int, call, strike_price@)
                &&& q@.symbol == symbol@
                &&& q@.bid == bid@
                &&& q@.ask == ask@
                &&& q@.strike == strike_price@
                &&& q@.expiration == expiration_date.days
                &&& q@.call == call
                &&& q@.underlying == underlying_price@
                &&& q@.date == date.days
            },
    {
        if !(0 <= bid.raw_value() && bid.raw_value() <= crate::money::MONEY_MAX
            && -crate::money::MONEY_MAX <= ask.raw_value() && ask.raw_value() <= crate::money::MONEY_MAX
            && 0 <= strike_price.raw_value() && strike_price.raw_value() <= crate::money::MONEY_MAX
            && 0 <= underlying_price.raw_value() && underlying_price.raw_value()
            <= crate::money::MONEY_MAX) {
            return Err(QuoteError::InvalidPrice);
        }
        if bid > ask {
            return Err(QuoteError::BidAboveAsk);
        }
        match expiration_date.year_month_day() {
            None => Err(QuoteError::ExpirationOutOfRange),
            Some((y, m, d)) => {
                let name = contract_name(symbol, y, m, d, call, strike_price);
                Ok(
                    Quote {
                        name,
                        symbol: String::from_str(symbol),
                        bid,
                        ask,
                        strike_price,
                        expiration_date,
                        call,
                        underlying_price,
                        date,
                    },
                )
            },
        }
    }

    pub fn is_call(&self) -> (r: bool)
        ensures
            r == self@.call,
    {
        self.call
    }

    pub fn is_put(&self) -> (r: bool)
        ensures
            r == !self@.call,
    {
        !self.is_call()
    }

    /// The midpoint of bid and ask, rounded to the nearest cent.
    pub fn midpoint_price(&self) -> (r: Money)
        ensures
            r@ == round_div(self@.ask + self@.bid, 2),
            0 <= self@.bid <= r@ <= self@.ask,
            in_money_range(r@),
    {
        proof {
            use_type_invariant(self);
        }
        let a = self.ask.raw_value() as i128;
        let b = self.bid.raw_value() as i128;
        let s: i128 = a + b;
        let n: i128 = if s < 0 { -s } else { s };
        let q: i128 = (n + 1) / 2;
        let m: i128 = if s < 0 { -q } else { q };
        Money::from_cents(m as i64)
    }

    pub fn strike_price(&self) -> (r: Money)
        ensures
            r@ == self@.strike,
            0 <= r@,
            in_money_range(r@),
    {
        proof {
            use_type_invariant(self);
        }
        self.strike_price
    }

    pub fn name(&self) -> (r: &str)
        ensures
            r@ == self@.name,
    {
        self.name.as_str()
    }

    pub fn symbol(&self) -> (r: &str)
        ensures
            r@ == self@.symbol,
    {
        self.symbol.as_str()
    }

    pub fn bid(&self) -> (r: Money)
        ensures
            r@ == self@.bid,
            0 <= r@ <= self@.ask,
            in_money_range(r@),
    {
        proof {
            use_type_invariant(self);
        }
        self.bid
    }

    pub fn ask(&self) -> (r: Money)
        ensures
            r@ == self@.ask,
            0 <= self@.bid <= r@,
            in_money_range(r@),
    {
        proof {
            use_type_invariant(self);
        }
        self.ask
    }

    pub fn underlying_price(&self) -> (r: Money)
        ensures
            r@ == self@.underlying,
            in_money_range(r@),
    {
        proof {
            use_type_invariant(self);
        }
        self.underlying_price
    }

    pub fn expiration_date(&self) -> (r: Date)
        ensures
            r.days == self@.expiration,
    {
        self.expiration_date
    }

    /// The day this quote was taken.
    pub fn date(&self) -> (r: Date)
        ensures
            r.days == self@.date,
    {
        self.date
    }

    /// Whole days from the quote's own date until expiration.
    pub fn days_until_expiration(&self) -> (r: i64)
        ensures
            r == self@.expiration - self@.date,
    {
        self.date.days_until(self.expiration_date)
    }

    /// What exercising now would be worth per share: for a call the
    /// underlying's excess over the strike, for a put the strike's excess over
    /// the underlying, and zero when that is not positive.
    pub fn intrinsic_value(&self) -> (r: Money)
        ensures
            r@ == intrinsic_value_of(self@),
    {
        proof {
            use_type_invariant(self);
        }
        if self.call {
            if self.underlying_price > self.strike_price {
                self.underlying_price - self.strike_price
            } else {
                Money::zero()
            }
        } else {
            if self.underlying_price < self.strike_price {
                self.strike_price - self.underlying_price
            } else {
                Money::zero()
            }
        }
    }

    /// The part of the midpoint price above the intrinsic value.
    pub fn extrinsic_value(&self) -> (r: Money)
        ensures
            r@ == round_div(self@.ask + self@.bid, 2) - intrinsic_value_of(self@),
    {
        let mid = self.midpoint_price();
        let intrinsic = self.intrinsic_value();
        mid - intrinsic
    }

    /// Whole days from `as_of` until expiration; negative once expired.
    pub fn days_to_expiration(&self, as_of: Date) -> (r: i64)
        ensures
            r == self@.expiration - as_of.days,
    {
        as_of.days_until(self.expiration_date)
    }
}

} // verus!
