//! Trading strategies: the `Model` interface and two models.

use vstd::prelude::*;

use crate::broker::{nearest_of, Broker, BrokerView};
use crate::commission::Commission;
use crate::money::{round_div, Money};
use crate::order::{Order, OrderView};
use crate::quote::{Quote, QuoteView};

verus! {

/// A trading strategy. The simulation asks it for orders before the first
/// day, at every day boundary, and once the feed is exhausted.
pub trait Model {
    fn name(&self) -> &'static str;

    /// Orders to place before the first day's quotes are known.
    fn before_simulation<C: Commission>(&mut self, broker: &Broker<C>) -> Vec<Order>
        requires
            broker.wf(),
    ;

    /// Orders to place at the end of a day, from that day's quotes.
    fn run_logic<C: Commission>(&mut self, broker: &Broker<C>) -> Vec<Order>
        requires
            broker.wf(),
    ;

    /// Orders to place on the last day's quotes, before the final close-out.
    fn after_simulation<C: Commission>(&mut self, broker: &Broker<C>) -> Vec<Order>
        requires
            broker.wf(),
    ;
}

/// The number of quotes at the start of `s` whose strike is not above `price`.
pub open spec fn leading_not_above(s: Seq<QuoteView>, price: int) -> nat
    decreases s.len(),
{
    if s.len() == 0 {
        0
    } else if s[0].strike > price {
        0
    } else {
        1 + leading_not_above(s.drop_first(), price)
    }
}

/// The number of quotes at the end of `s` whose strike is not below `price`.
pub open spec fn trailing_not_below(s: Seq<QuoteView>, price: int) -> nat
    decreases s.len(),
{
    if s.len() == 0 {
        0
    } else if s.last().strike < price {
        0
    } else {
        1 + trailing_not_below(s.drop_last(), price)
    }
}

proof fn lemma_leading_bound(s: Seq<QuoteView>, price: int)
    ensures
        leading_not_above(s, price) <= s.len(),
        leading_not_above(s, price) < s.len() ==> s[leading_not_above(s, price) as int].strike > price,
    decreases s.len(),
{
    if s.len() > 0 && s[0].strike <= price {
        lemma_leading_bound(s.drop_first(), price);
    }
}

proof fn lemma_trailing_bound(s: Seq<QuoteView>, price: int)
    ensures
        trailing_not_below(s, price) <= s.len(),
    decreases s.len(),
{
    if s.len() > 0 && s.last().strike >= price {
        lemma_trailing_bound(s.drop_last(), price);
    }
}

/// In `quotes`, ordered by strike, the `strikes`-th quote counting from the
/// first one whose strike is above `price` (that one being the first). The
/// search only looks past that first quote, so `strikes == 1` finds nothing.
pub fn n_strikes_above(quotes: &Vec<Quote>, strikes: i32, price: Money) -> (r: Option<&Quote>)
    requires
        strikes >= 1,
    ensures
        ({
            let s = quotes@.map_values(|q: Quote| q@);
            let f = leading_not_above(s, price@) as int;
            let t = f + strikes - 1;
            match r {
                Some(q) => strikes >= 2 && f < s.len() && t < s.len() && q@ == s[t],
                None => strikes < 2 || f >= s.len() || t >= s.len(),
            }
        }),
{
    let ghost s = quotes@.map_values(|q: Quote| q@);
    let mut i: usize = 0;
    proof {
        assert(s.skip(0) == s);
        lemma_leading_bound(s, price@);
    }
    while i < quotes.len() && quotes[i].strike_price() <= price
        invariant
            i <= quotes@.len(),
            s == quotes@.map_values(|q: Quote| q@),
            leading_not_above(s, price@) == i + leading_not_above(s.skip(i as int), price@),
        decreases quotes.len() - i,
    {
        assert(s.skip(i as int)[0] == s[i as int]);
        assert(s.skip(i as int).drop_first() == s.skip(i + 1));
        i = i + 1;
    }
    proof {
        if i < quotes.len() {
            assert(s.skip(i as int)[0] == s[i as int]);
        } else {
            assert(s.skip(i as int).len() == 0);
        }
    }
    if i >= quotes.len() {
        return None;
    }
    if strikes < 2 {
        return None;
    }
    let step = (strikes - 1) as usize;
    if step >= quotes.len() - i {
        return None;
    }
    Some(&quotes[i + step])
}

/// In `quotes`, ordered by strike, the `strikes`-th quote counting down from
/// the last one whose strike is below `price` (that one being the first). The
/// search only looks past that first quote, so `strikes == 1` finds nothing.
pub fn n_strikes_below(quotes: &Vec<Quote>, strikes: i32, price: Money) -> (r: Option<&Quote>)
    requires
        strikes >= 1,
    ensures
        ({
            let s = quotes@.map_values(|q: Quote| q@);
            let g = s.len() - 1 - trailing_not_below(s, price@);
            let t = g - (strikes - 1);
            match r {
                Some(q) => strikes >= 2 && g >= 0 && t >= 0 && q@ == s[t],
                None => strikes < 2 || g < 0 || t < 0,
            }
        }),
{
    let ghost s = quotes@.map_values(|q: Quote| q@);
    let mut n: usize = quotes.len();
    proof {
        assert(s.take(s.len() as int) == s);
        lemma_trailing_bound(s, price@);
    }
    while n > 0 && quotes[n - 1].strike_price() >= price
        invariant
            n <= quotes@.len(),
            s == quotes@.map_values(|q: Quote| q@),
            trailing_not_below(s, price@) == (s.len() - n) + trailing_not_below(s.take(n as int), price@),
        decreases n,
    {
        assert(s.take(n as int).last() == s[n - 1]);
        assert(s.take(n as int).drop_last() == s.take(n - 1));
        n = n - 1;
    }
    proof {
        if n > 0 {
            assert(s.take(n as int).last() == s[n - 1]);
        } else {
            assert(s.take(0).len() == 0);
        }
    }
    if n == 0 {
        return None;
    }
    let last_below = n - 1;
    if strikes < 2 {
        return None;
    }
    let step = (strikes - 1) as usize;
    if step > last_below {
        return None;
    }
    Some(&quotes[last_below - step])
}

/// A model that never trades.
pub struct DummyModel {}

impl DummyModel {
    pub fn new() -> (r: DummyModel) {
        DummyModel {  }
    }
}

impl Model for DummyModel {
    fn name(&self) -> &'static str {
        "dummy model"
    }

    fn before_simulation<C: Commission>(&mut self, broker: &Broker<C>) -> Vec<Order> {
        Vec::new()
    }

    fn run_logic<C: Commission>(&mut self, broker: &Broker<C>) -> Vec<Order> {
        Vec::new()
    }

    fn after_simulation<C: Commission>(&mut self, broker: &Broker<C>) -> Vec<Order> {
        Vec::new()
    }
}

/// The underlying the poor man's covered call trades.
pub const PMCC_TICKER: &'static str = "AAPL";

/// The days-to-expiration window, exclusive, of the short call.
pub const SHORT_DAYS_OUT_MIN: i32 = 30;

pub const SHORT_DAYS_OUT_MAX: i32 = 40;

/// The days-to-expiration window, exclusive, of the long call.
pub const LONG_DAYS_OUT_MIN: i32 = 150;

pub const LONG_DAYS_OUT_MAX: i32 = 200;

/// The contracts in each leg.
pub const NUM_CONTRACTS: i32 = 5;

/// How many strikes above the underlying the short call is.
pub const STRIKES_ABOVE: i32 = 2;

/// How many strikes below the underlying the long call is.
pub const STRIKES_BELOW: i32 = 4;

/// Whether `o` opens a leg of `NUM_CONTRACTS` of quote `q`'s option at its
/// midpoint, selling when `sell`, buying otherwise.
pub open spec fn opens_leg_at_midpoint(o: OrderView, q: QuoteView, sell: bool) -> bool {
    &&& o.name == q.name
    &&& o.symbol == q.symbol
    &&& o.strike == q.strike
    &&& o.buy == !sell
    &&& o.open
    &&& o.quantity == NUM_CONTRACTS
    &&& o.limit == round_div(q.ask + q.bid, 2)
}

/// The calls of `s`, in order.
pub open spec fn calls_of(s: Seq<QuoteView>) -> Seq<QuoteView>
    decreases s.len(),
{
    if s.len() == 0 {
        s
    } else if s.last().call {
        calls_of(s.drop_last()).push(s.last())
    } else {
        calls_of(s.drop_last())
    }
}

/// The day's call chain expiring strictly between `min` and `max` days out,
/// ordered by expiration then strike.
pub open spec fn call_chain(v: BrokerView, min: i32, max: i32) -> Seq<QuoteView> {
    calls_of(nearest_of(v, min as int, max as int))
}

/// The call the short leg sells: in the near chain, the `STRIKES_ABOVE`-th
/// counting from the first strike above the underlying's price.
pub open spec fn short_leg_of(v: BrokerView) -> Option<QuoteView> {
    if !v.underlying.contains_key(PMCC_TICKER@) {
        None
    } else {
        let chain = call_chain(v, SHORT_DAYS_OUT_MIN, SHORT_DAYS_OUT_MAX);
        let f = leading_not_above(chain, v.underlying[PMCC_TICKER@]) as int;
        let t = f + STRIKES_ABOVE - 1;
        if f < chain.len() && t < chain.len() {
            Some(chain[t])
        } else {
            None
        }
    }
}

/// The call the long leg buys: in the far chain, the `STRIKES_BELOW`-th
/// counting down from the last strike below the underlying's price.
pub open spec fn long_leg_of(v: BrokerView) -> Option<QuoteView> {
    if !v.underlying.contains_key(PMCC_TICKER@) {
        None
    } else {
        let chain = call_chain(v, LONG_DAYS_OUT_MIN, LONG_DAYS_OUT_MAX);
        let g = chain.len() - 1 - trailing_not_below(chain, v.underlying[PMCC_TICKER@]);
        let t = g - (STRIKES_BELOW - 1);
        if g >= 0 && t >= 0 {
            Some(chain[t])
        } else {
            None
        }
    }
}

/// The poor man's covered call: a long deep-in-the-money call far out,
/// against which nearer out-of-the-money calls are sold.
pub struct PMCC {}

impl PMCC {
    pub fn new() -> (r: PMCC) {
        PMCC {  }
    }

    /// The call chain of the day's quotes expiring within the window.
    fn calls_within<C: Commission>(broker: &Broker<C>, min: i32, max: i32) -> (r: Vec<Quote>)
        requires
            broker.wf(),
            0 <= min <= max,
        ensures
            r@.map_values(|q: Quote| q@) == call_chain(broker@, min, max),
    {
        let all = broker.nearest_quotes_expiring_between_n_days(min, max);
        let ghost av = all@.map_values(|q: Quote| q@);
        let mut calls: Vec<Quote> = Vec::new();
        let mut i: usize = 0;
        assert(av.take(0).len() == 0);
        assert(calls@.map_values(|q: Quote| q@) =~= Seq::<QuoteView>::empty());
        while i < all.len()
            invariant
                i <= all.len(),
                av == all@.map_values(|q: Quote| q@),
                calls@.map_values(|q: Quote| q@) == calls_of(av.take(i as int)),
            decreases all.len() - i,
        {
            assert(av.take(i + 1).drop_last() == av.take(i as int));
            assert(av.take(i + 1).last() == all@[i as int]@);
            if all[i].is_call() {
                let ghost before = calls@;
                calls.push(all[i].clone());
                assert(calls@.map_values(|q: Quote| q@) =~= before.map_values(|q: Quote| q@).push(
                    all@[i as int]@,
                ));
            }
            i = i + 1;
        }
        assert(av.take(all.len() as int) == av);
        calls
    }

    /// A sell-to-open of `NUM_CONTRACTS` of the short leg's call at its
    /// midpoint; `None` when there is no such call or no underlying price.
    pub fn look_for_new_short_position_to_open<C: Commission>(&self, broker: &Broker<C>) -> (r: Option<Order>)
        requires
            broker.wf(),
        ensures
            match short_leg_of(broker@) {
                None => r is None,
                Some(q) => r matches Some(o) && opens_leg_at_midpoint(o@, q, true),
            },
    {
        if !broker.has_underlying_price_for(PMCC_TICKER) {
            return None;
        }
        let underlying_price = broker.underlying_price_for(PMCC_TICKER);
        let quotes = PMCC::calls_within(broker, SHORT_DAYS_OUT_MIN, SHORT_DAYS_OUT_MAX);
        let quote = match n_strikes_above(&quotes, STRIKES_ABOVE, underlying_price) {
            Some(q) => q,
            None => {
                return None;
            },
        };
        let mid = quote.midpoint_price();
        Some(Order::new_sell_open_order(quote, NUM_CONTRACTS, mid))
    }

    /// A buy-to-open of `NUM_CONTRACTS` of the long leg's call at its
    /// midpoint; `None` when there is no such call or no underlying price.
    pub fn look_for_new_long_position_to_open<C: Commission>(&self, broker: &Broker<C>) -> (r: Option<Order>)
        requires
            broker.wf(),
        ensures
            match long_leg_of(broker@) {
                None => r is None,
                Some(q) => r matches Some(o) && opens_leg_at_midpoint(o@, q, false),
            },
    {
        if !broker.has_underlying_price_for(PMCC_TICKER) {
            return None;
        }
        let underlying_price = broker.underlying_price_for(PMCC_TICKER);
        let quotes = PMCC::calls_within(broker, LONG_DAYS_OUT_MIN, LONG_DAYS_OUT_MAX);
        let quote = match n_strikes_below(&quotes, STRIKES_BELOW, underlying_price) {
            Some(q) => q,
            None => {
                return None;
            },
        };
        let mid = quote.midpoint_price();
        Some(Order::new_buy_open_order(quote, NUM_CONTRACTS, mid))
    }

    /// Orders that adjust a position pair already held: none yet.
    pub fn manage_positions<C: Commission>(&self, broker: &Broker<C>) -> (r: Vec<Order>)
        ensures
            r@.len() == 0,
    {
        Vec::new()
    }
}

impl Model for PMCC {
    fn name(&self) -> &'static str {
        "Poor Man's Covered Call"
    }

    fn before_simulation<C: Commission>(&mut self, broker: &Broker<C>) -> Vec<Order> {
        Vec::new()
    }

    /// With no open position, both legs or nothing; with one, the missing
    /// leg; with both, their management; with more, nothing.
    fn run_logic<C: Commission>(&mut self, broker: &Broker<C>) -> Vec<Order> {
        let mut orders: Vec<Order> = Vec::new();
        let positions = broker.open_positions();
        if positions.len() == 2 {
            orders = self.manage_positions(broker);
        } else if positions.len() == 1 {
            if positions[0].is_long() {
                if let Some(o) = self.look_for_new_short_position_to_open(broker) {
                    orders.push(o);
                }
            } else {
                if let Some(o) = self.look_for_new_long_position_to_open(broker) {
                    orders.push(o);
                }
            }
        } else if positions.len() == 0 {
            let short = self.look_for_new_short_position_to_open(broker);
            let long = self.look_for_new_long_position_to_open(broker);
            match (short, long) {
                (Some(s), Some(l)) => {
                    orders.push(s);
                    orders.push(l);
                },
                _ => {},
            }
        }
        orders
    }

    fn after_simulation<C: Commission>(&mut self, broker: &Broker<C>) -> Vec<Order> {
        Vec::new()
    }
}

} // verus!
