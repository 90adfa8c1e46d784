//! The control protocol between a strategy and the broker. The caller owns
//! the data feed: it starts the simulation, begins each day, hands every
//! quote to `feed`, and calls `end` once the feed is exhausted.

use vstd::prelude::*;

use crate::broker::{
    after_record, begun, due_for_close, orders_outcome, unrealized_of, with_statistics, Broker,
    BrokerError, BrokerView,
};
use crate::commission::Commission;
use crate::money::Money;
use crate::order::{Order, OrderView};
use crate::quote::Quote;
use crate::strategy::Model;

verus! {

/// Where the day protocol stands after a start of day and then the quotes
/// dated `dates`: whether it awaits the day's first quote, the current day,
/// and how many day boundaries it has met. The first quote after a start of
/// day only seeds the day; a later quote of another day is a boundary, after
/// which a new day starts.
pub open spec fn day_protocol(dates: Seq<int>) -> (bool, int, nat)
    decreases dates.len(),
{
    if dates.len() == 0 {
        (true, 0, 0)
    } else {
        let (awaiting, current, boundaries) = day_protocol(dates.drop_last());
        let d = dates.last();
        if awaiting {
            (false, d, boundaries)
        } else if d != current {
            (true, d, boundaries + 1)
        } else {
            (false, d, boundaries)
        }
    }
}

/// Whether placing `os` in turn from `v` succeeds, reaching `w` with `k`
/// fills the balance did not cover.
pub open spec fn places_into<C: Commission>(
    sched: C,
    v: BrokerView,
    os: Seq<OrderView>,
    w: BrokerView,
    k: usize,
) -> bool {
    match orders_outcome(sched, v, os) {
        Ok((w2, n)) => w2 == w && n as usize == k,
        Err(_) => false,
    }
}

/// Placing orders changes neither the day nor the feed state.
proof fn lemma_orders_keep_day<C: Commission>(sched: C, v: BrokerView, os: Seq<OrderView>)
    requires
        orders_outcome(sched, v, os) is Ok,
    ensures
        ({
            let w = orders_outcome(sched, v, os)->Ok_0.0;
            &&& w.current_date == v.current_date
            &&& w.awaiting_first == v.awaiting_first
            &&& w.carried_over == v.carried_over
        }),
    decreases os.len(),
{
    if os.len() > 0 {
        lemma_orders_keep_day(sched, v, os.drop_last());
    }
}

/// A strategy trading against a broker.
pub struct Simulation<M: Model, C: Commission> {
    model: M,
    broker: Broker<C>,
    starting_balance: Money,
}

impl<M: Model, C: Commission> Simulation<M, C> {
    /// The consistency of the broker being driven.
    pub closed spec fn wf(&self) -> bool {
        self.broker.wf()
    }

    /// The broker being driven.
    pub closed spec fn broker_spec(&self) -> Broker<C> {
        self.broker
    }

    /// The cash balance the simulation started with, in cents.
    pub closed spec fn starting_cents(&self) -> int {
        self.starting_balance@
    }

    pub fn new(model: M, broker: Broker<C>) -> (r: Simulation<M, C>)
        requires
            broker.wf(),
        ensures
            r.wf(),
            r.broker_spec() == broker,
            r.starting_cents() == broker@.balance,
    {
        let starting_balance = broker.account_balance();
        Simulation { model, broker, starting_balance }
    }

    pub fn broker(&self) -> (r: &Broker<C>)
        ensures
            *r == self.broker_spec(),
    {
        &self.broker
    }

    /// The cash balance the simulation started with.
    pub fn starting_balance(&self) -> (r: Money)
        ensures
            r@ == self.starting_cents(),
    {
        self.starting_balance
    }

    /// Places `orders` in turn; stops at the first one the broker refuses.
    /// Returns how many of them the balance did not cover.
    fn place_orders(&mut self, orders: Vec<Order>) -> (r: Result<usize, BrokerError>)
        requires
            old(self).wf(),
        ensures
            final(self).wf(),
            final(self).broker_spec().schedule() == old(self).broker_spec().schedule(),
            final(self).starting_cents() == old(self).starting_cents(),
            match orders_outcome(
                old(self).broker_spec().schedule(),
                old(self).broker_spec()@,
                orders@.map_values(|o: Order| o@),
            ) {
                Ok((w, n)) => r == Ok::<usize, BrokerError>(n as usize) && final(self).broker_spec()@ == w,
                Err(e) => r == Err::<usize, BrokerError>(e),
            },
    {
        self.broker.process_orders(&orders)
    }

    /// Lets the strategy place its orders before the first day. Whatever it
    /// asks for, the result is the outcome of placing some orders in turn.
    pub fn start(&mut self) -> (r: Result<usize, BrokerError>)
        requires
            old(self).wf(),
        ensures
            final(self).wf(),
            final(self).broker_spec().schedule() == old(self).broker_spec().schedule(),
            final(self).starting_cents() == old(self).starting_cents(),
            r matches Ok(k) ==> exists|os: Seq<OrderView>|
                #[trigger] places_into(
                    old(self).broker_spec().schedule(),
                    old(self).broker_spec()@,
                    os,
                    final(self).broker_spec()@,
                    k,
                ),
    {
        let orders = self.model.before_simulation(&self.broker);
        let ghost os = orders@.map_values(|o: Order| o@);
        let r = self.place_orders(orders);
        proof {
            if r is Ok {
                assert(places_into(
                    old(self).broker_spec().schedule(),
                    old(self).broker_spec()@,
                    os,
                    self.broker_spec()@,
                    r->Ok_0,
                ));
            }
        }
        r
    }

    /// Starts a day of quotes; see `Broker::begin_day`.
    pub fn begin_day(&mut self) -> (r: Result<(), BrokerError>)
        requires
            old(self).wf(),
        ensures
            final(self).wf(),
            final(self).broker_spec().schedule() == old(self).broker_spec().schedule(),
            final(self).starting_cents() == old(self).starting_cents(),
            match unrealized_of(old(self).broker_spec()@) {
                Ok(u) => r is Ok && final(self).broker_spec()@ == begun(
                    with_statistics(old(self).broker_spec()@, u),
                ),
                Err(e) => r == Err::<(), BrokerError>(e) && final(self).broker_spec()@ == old(self).broker_spec()@,
            },
    {
        self.broker.begin_day()
    }

    /// Hands the next quote to the broker. At a day boundary the strategy
    /// acts on the day just ended and the result is `true`: the caller then
    /// begins the next day.
    pub fn feed(&mut self, quote: Quote) -> (r: Result<bool, BrokerError>)
        requires
            old(self).wf(),
        ensures
            final(self).wf(),
            final(self).broker_spec().schedule() == old(self).broker_spec().schedule(),
            final(self).starting_cents() == old(self).starting_cents(),
            old(self).broker_spec()@.awaiting_first ==> r == Ok::<bool, BrokerError>(false)
                && !final(self).broker_spec()@.awaiting_first && final(self).broker_spec()@.current_date
                == quote@.date,
            !old(self).broker_spec()@.awaiting_first && quote@.date == old(self).broker_spec()@.current_date ==> r == Ok::<bool, BrokerError>(false) && final(self).broker_spec()@ == after_record(old(self).broker_spec()@, quote@),
            !old(self).broker_spec()@.awaiting_first && quote@.date != old(self).broker_spec()@.current_date ==> r is Err || (r == Ok::<bool, BrokerError>(true)
                && final(self).broker_spec()@.carried_over == Some(quote@)),
    {
        let paused = match self.broker.ingest(quote) {
            Ok(p) => p,
            Err(e) => {
                return Err(e);
            },
        };
        if paused {
            let orders = self.model.run_logic(&self.broker);
            let ghost os = orders@.map_values(|o: Order| o@);
            let ghost v = self.broker@;
            match self.place_orders(orders) {
                Ok(_) => {
                    proof {
                        lemma_orders_keep_day(self.broker.schedule(), v, os);
                    }
                },
                Err(e) => {
                    return Err(e);
                },
            }
        }
        Ok(paused)
    }

    /// Runs the whole simulation over `quotes`, a feed in date order: the
    /// strategy acts before the first day, at each day boundary, and after
    /// the last quote, then every position is closed. Returns the number of
    /// day boundaries, which the quotes' dates alone decide.
    pub fn run(&mut self, quotes: Vec<Quote>) -> (r: Result<usize, BrokerError>)
        requires
            old(self).wf(),
        ensures
            final(self).wf(),
            final(self).starting_cents() == old(self).starting_cents(),
            r matches Ok(n) ==> n == day_protocol(quotes@.map_values(|q: Quote| q@.date)).2,
            r is Ok ==> forall|k: Seq<char>| #[trigger]
                final(self).broker_spec()@.positions.contains_key(k) ==> !due_for_close(
                    final(self).broker_spec()@.positions[k],
                    None,
                ),
    {
        let ghost dates = quotes@.map_values(|q: Quote| q@.date);
        match self.start() {
            Ok(_) => {},
            Err(e) => {
                return Err(e);
            },
        }
        match self.begin_day() {
            Ok(()) => {},
            Err(e) => {
                return Err(e);
            },
        }
        let mut pauses: usize = 0;
        let mut i: usize = 0;
        assert(dates.take(0).len() == 0);
        while i < quotes.len()
            invariant
                self.wf(),
                self.starting_cents() == old(self).starting_cents(),
                i <= quotes@.len(),
                pauses <= i,
                dates == quotes@.map_values(|q: Quote| q@.date),
                self.broker_spec()@.awaiting_first == day_protocol(dates.take(i as int)).0,
                !self.broker_spec()@.awaiting_first ==> self.broker_spec()@.current_date
                    == day_protocol(dates.take(i as int)).1,
                pauses == day_protocol(dates.take(i as int)).2,
            decreases quotes.len() - i,
        {
            proof {
                assert(dates.take(i + 1).drop_last() == dates.take(i as int));
                assert(dates.take(i + 1).last() == quotes@[i as int]@.date);
            }
            let paused = match self.feed(quotes[i].clone()) {
                Ok(p) => p,
                Err(e) => {
                    return Err(e);
                },
            };
            i = i + 1;
            if paused {
                pauses = pauses + 1;
                match self.begin_day() {
                    Ok(()) => {},
                    Err(e) => {
                        return Err(e);
                    },
                }
            }
        }
        assert(dates.take(quotes.len() as int) == dates);
        match self.end() {
            Ok(()) => Ok(pauses),
            Err(e) => Err(e),
        }
    }

    /// Once the feed is exhausted: the strategy acts on the last day, then
    /// the broker records the final balance and closes every open position.
    pub fn end(&mut self) -> (r: Result<(), BrokerError>)
        requires
            old(self).wf(),
        ensures
            final(self).wf(),
            final(self).broker_spec().schedule() == old(self).broker_spec().schedule(),
            final(self).starting_cents() == old(self).starting_cents(),
            r is Ok ==> forall|k: Seq<char>| #[trigger]
                final(self).broker_spec()@.positions.contains_key(k) ==> !due_for_close(
                    final(self).broker_spec()@.positions[k],
                    None,
                ),
    {
        let orders = self.model.after_simulation(&self.broker);
        match self.place_orders(orders) {
            Ok(_) => {},
            Err(e) => {
                return Err(e);
            },
        }
        self.broker.finish()
    }
}

} // verus!
