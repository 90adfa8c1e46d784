use assassin::broker::{Broker, BrokerError, Margin, MarginPolicy};
use assassin::commission::{CharlesSchwab, NullCommission};
use assassin::date::Date;
use assassin::money::Money;
use assassin::order::Order;
use assassin::quote::Quote;
use assassin::simulation::Simulation;
use assassin::strategy::{n_strikes_above, n_strikes_below, DummyModel, Model, PMCC};

fn day(y: i32, m: u32, d: u32) -> Date {
    Date::from_ymd(y, m, d).unwrap()
}

fn quote(symbol: &str, expiration: Date, call: bool, strike: i64, bid: i64, ask: i64, date: Date) -> Quote {
    Quote::new(
        symbol,
        expiration,
        call,
        Money::new(strike, 0),
        Money::from_cents(bid),
        Money::from_cents(ask),
        Money::new(500, 0),
        date,
    )
    .unwrap()
}

/// Feeds one day: returns whether the day ended on a quote of the next day.
fn run_day<C: assassin::commission::Commission>(broker: &mut Broker<C>, feed: &mut std::vec::IntoIter<Quote>) -> bool {
    broker.begin_day().unwrap();
    for q in feed.by_ref() {
        if broker.ingest(q).unwrap() {
            return true;
        }
    }
    broker.finish().unwrap();
    false
}

#[test]
fn day_boundaries_pause_once_and_capacity_tracks_busiest_day() {
    let d1 = day(2013, 1, 2);
    let d2 = day(2013, 1, 3);
    let exp = day(2013, 2, 15);
    let mut feed = vec![
        quote("AAPL", exp, true, 500, 100, 110, d1),
        quote("AAPL", exp, true, 505, 100, 110, d1),
        quote("AAPL", exp, false, 500, 100, 110, d1),
        quote("AAPL", exp, true, 500, 100, 110, d2),
        quote("AAPL", exp, true, 505, 100, 110, d2),
        quote("AAPL", exp, true, 510, 100, 110, d2),
        quote("AAPL", exp, false, 500, 100, 110, d2),
        quote("AAPL", exp, false, 505, 100, 110, d2),
    ]
    .into_iter();
    let mut broker = Broker::new(Money::new(100_000, 0), NullCommission::new());
    let mut paused = 0;
    while run_day(&mut broker, &mut feed) {
        paused += 1;
        assert_eq!(broker.quote_map_capacity(), 3);
    }
    assert_eq!(paused, 1);
    assert_eq!(broker.quote_map_capacity(), 5);
    assert_eq!(broker.current_date(), d2);
}

#[test]
fn process_order_fills_at_midpoint_and_books_cash() {
    let d1 = day(2013, 1, 2);
    let q = quote("AAPL", day(2013, 2, 15), true, 500, 1000, 1020, d1);
    let mut broker = Broker::new(Money::new(100_000, 0), CharlesSchwab::new());
    broker.begin_day().unwrap();
    assert_eq!(broker.ingest(q.clone()), Ok(false));
    let order = Order::new_buy_open_order(&q, 10, q.ask());
    assert_eq!(broker.process_order(order), Ok(Margin::Covered));
    // 10.10 × 100 × 10 = 10,100.00 plus 4.95 + 6.50 commission
    assert_eq!(broker.account_balance(), Money::from_cents(10_000_000 - 1_010_000 - 1_145));
    assert_eq!(broker.commission_paid(), Money::new(11, 45));
    assert_eq!(broker.total_order_count(), 1);
    let positions = broker.open_positions();
    assert_eq!(positions.len(), 1);
    assert_eq!(positions[0].quantity(), 10);
    assert!(!broker.filled_orders()[0].closed_by_broker());
    assert_eq!(broker.filled_orders()[0].fill_price(), Money::new(10, 10));
}

#[test]
fn underfunded_buy_is_filled_and_reported() {
    let d1 = day(2013, 1, 2);
    let q = quote("AAPL", day(2013, 2, 15), true, 500, 1000, 1000, d1);
    let mut broker = Broker::new(Money::new(100, 0), NullCommission::new());
    broker.begin_day().unwrap();
    broker.ingest(q.clone()).unwrap();
    let order = Order::new_buy_open_order(&q, 1, q.ask());
    assert_eq!(broker.process_order(order), Ok(Margin::Insufficient));
    assert_eq!(broker.account_balance(), Money::new(-900, 0));
}

#[test]
fn order_for_unquoted_contract_is_refused() {
    let d1 = day(2013, 1, 2);
    let q = quote("AAPL", day(2013, 2, 15), true, 500, 1000, 1000, d1);
    let other = quote("AAPL", day(2013, 2, 15), true, 505, 1000, 1000, d1);
    let mut broker = Broker::new(Money::new(100, 0), NullCommission::new());
    broker.begin_day().unwrap();
    broker.ingest(q).unwrap();
    let order = Order::new_buy_open_order(&other, 1, other.ask());
    assert_eq!(broker.process_orders(&vec![order]), Err(BrokerError::NoQuote));
    assert_eq!(broker.account_balance(), Money::new(100, 0));
    assert_eq!(broker.total_order_count(), 0);
}

#[test]
fn expired_long_position_is_closed_by_broker_at_the_bid() {
    let d = day(2013, 1, 18);
    let next = day(2013, 1, 22);
    let expiring = quote("AAPL", d, true, 500, 250, 270, d);
    let later = quote("AAPL", day(2013, 2, 15), true, 500, 900, 950, next);
    let mut broker = Broker::new(Money::new(100_000, 0), NullCommission::new());
    broker.begin_day().unwrap();
    broker.ingest(expiring.clone()).unwrap();
    broker.process_order(Order::new_buy_open_order(&expiring, 3, expiring.ask())).unwrap();
    assert_eq!(broker.open_positions().len(), 1);
    // the contract expiring today is still open: the strategy may act on it
    assert_eq!(broker.ingest(later), Ok(true));
    assert_eq!(broker.open_positions().len(), 0);
    assert_eq!(broker.total_order_count(), 2);
    let close = &broker.filled_orders()[1];
    assert!(close.closed_by_broker());
    assert!(close.sell_to_close());
    assert_eq!(close.quantity(), 3);
    assert_eq!(close.order().limit(), Money::from_cents(250));
    assert_eq!(close.option_name(), expiring.name());
    let positions = broker.positions();
    assert_eq!(positions[0].quantity(), 0);
    assert_eq!(positions[0].broker_closed_order_count(), 1);
}

#[test]
fn nearest_quotes_are_ordered_by_expiry_type_and_strike() {
    let today = day(2013, 1, 2);
    let in10 = Date::from_days(today.days() + 10);
    let in20 = Date::from_days(today.days() + 20);
    let in45 = Date::from_days(today.days() + 45);
    let feed = vec![
        quote("AAPL", in20, false, 90, 100, 110, today),
        quote("AAPL", in10, true, 105, 100, 110, today),
        quote("AAPL", in45, true, 100, 100, 110, today),
        quote("AAPL", in10, false, 100, 100, 110, today),
        quote("AAPL", in10, true, 95, 100, 110, today),
    ];
    let mut broker = Broker::new(Money::new(1_000, 0), NullCommission::new());
    broker.begin_day().unwrap();
    for q in feed {
        broker.ingest(q).unwrap();
    }
    let near = broker.nearest_quotes_expiring_between_n_days(5, 40);
    let got: Vec<(i64, bool, Money)> = near
        .iter()
        .map(|q| (q.days_to_expiration(today), q.is_call(), q.strike_price()))
        .collect();
    assert_eq!(
        got,
        vec![
            (10, false, Money::new(100, 0)),
            (10, true, Money::new(95, 0)),
            (10, true, Money::new(105, 0)),
            (20, false, Money::new(90, 0)),
        ]
    );
    // the bounds are exclusive
    assert_eq!(broker.nearest_quotes_expiring_between_n_days(10, 20).len(), 0);
    assert_eq!(broker.nearest_quotes_expiring_between_n_days(9, 21).len(), 4);
    assert_eq!(broker.call_quotes_for("AAPL").len(), 3);
    assert_eq!(broker.put_quotes_for("AAPL").len(), 2);
    assert_eq!(broker.quotes_for("MSFT").len(), 0);
}

#[test]
fn round_trip_costs_twice_the_commission() {
    let d1 = day(2013, 1, 2);
    let q = quote("AAPL", day(2013, 2, 15), true, 500, 1000, 1020, d1);
    let mut broker = Broker::new(Money::new(100_000, 0), CharlesSchwab::new());
    broker.begin_day().unwrap();
    broker.ingest(q.clone()).unwrap();
    broker.process_order(Order::new_buy_open_order(&q, 4, q.ask())).unwrap();
    broker.process_order(Order::new_sell_close_order(&q, 4, q.bid())).unwrap();
    let fee = Money::new(4, 95) + Money::new(0, 65) * 4;
    assert_eq!(broker.account_balance(), Money::new(100_000, 0) - fee * 2);
    let positions = broker.positions();
    assert_eq!(positions[0].realized_profit(), Money::zero());
    assert_eq!(positions[0].commission_paid(), fee * 2);
    assert!(positions[0].is_closed());
}

#[test]
fn statistics_track_watermarks() {
    let d1 = day(2013, 1, 2);
    let q = quote("AAPL", day(2013, 2, 15), true, 500, 1000, 1000, d1);
    let mut broker = Broker::new(Money::new(1_000, 0), NullCommission::new());
    broker.begin_day().unwrap();
    broker.ingest(q.clone()).unwrap();
    broker.process_order(Order::new_buy_open_order(&q, 1, q.ask())).unwrap();
    assert_eq!(broker.unrealized_account_balance(), Ok(Money::new(1_000, 0)));
    broker.update_statistics().unwrap();
    assert_eq!(broker.lowest_realized_account_balance(), Money::new(0, 0));
    assert_eq!(broker.highest_realized_account_balance(), Money::new(1_000, 0));
    assert_eq!(broker.highest_unrealized_account_balance(), Money::new(1_000, 0));
    // the day's seeding quote does not record its underlying price
    assert!(!broker.has_underlying_price_for("AAPL"));
}

#[test]
fn strike_selection_counts_from_the_first_strike_past_the_price() {
    let today = day(2013, 1, 2);
    let exp = day(2013, 2, 15);
    let chain: Vec<Quote> = [490, 495, 500, 505, 510, 515]
        .iter()
        .map(|s| quote("AAPL", exp, true, *s, 100, 110, today))
        .collect();
    let price = Money::new(501, 0);
    assert!(n_strikes_above(&chain, 1, price).is_none());
    assert_eq!(n_strikes_above(&chain, 2, price).unwrap().strike_price(), Money::new(510, 0));
    assert!(n_strikes_above(&chain, 4, price).is_none());
    assert!(n_strikes_below(&chain, 1, price).is_none());
    assert_eq!(n_strikes_below(&chain, 3, price).unwrap().strike_price(), Money::new(490, 0));
    assert!(n_strikes_below(&chain, 4, price).is_none());
    assert!(n_strikes_above(&chain, 1, Money::new(600, 0)).is_none());
    assert!(n_strikes_below(&chain, 1, Money::new(400, 0)).is_none());
}

#[test]
fn pmcc_opens_both_legs_when_flat() {
    let today = day(2013, 1, 2);
    let near = Date::from_days(today.days() + 35);
    let far = Date::from_days(today.days() + 180);
    let mut broker = Broker::new(Money::new(100_000, 0), CharlesSchwab::new());
    broker.begin_day().unwrap();
    for s in [540, 545, 550, 555, 560] {
        broker.ingest(quote("AAPL", near, true, s, 300, 320, today)).unwrap();
    }
    for s in [460, 470, 480, 490, 500] {
        broker.ingest(quote("AAPL", far, true, s, 5000, 5100, today)).unwrap();
    }
    assert!(broker.has_underlying_price_for("AAPL"));
    assert_eq!(broker.underlying_price_for("AAPL"), Money::new(500, 0));
    let mut model = PMCC::new();
    assert_eq!(model.name(), "Poor Man's Covered Call");
    let orders = model.run_logic(&broker);
    assert_eq!(orders.len(), 2);
    // the underlying is at 500.00: the short leg is the second strike above it
    assert!(orders[0].sell_to_open());
    assert_eq!(orders[0].quantity(), 5);
    assert_eq!(orders[0].option_name(), contract_name_of("AAPL", near, true, 545));
    assert_eq!(orders[0].limit(), Money::new(3, 10));
    // the long leg is the fourth strike below it, counting down from 490
    assert!(orders[1].buy_to_open());
    assert_eq!(orders[1].option_name(), contract_name_of("AAPL", far, true, 460));
    assert_eq!(orders[1].limit(), Money::new(50, 50));
    let mut dummy = DummyModel::new();
    assert_eq!(dummy.run_logic(&broker).len(), 0);
}

fn contract_name_of(symbol: &str, expiration: Date, call: bool, strike: i64) -> String {
    let (y, m, d) = expiration.year_month_day().unwrap();
    assassin::quote::contract_name(symbol, y, m, d, call, Money::new(strike, 0))
}

#[test]
fn simulation_run_pauses_once_over_two_days() {
    let d1 = day(2013, 1, 2);
    let d2 = day(2013, 1, 3);
    let exp = day(2013, 2, 15);
    let feed = vec![
        quote("AAPL", exp, true, 500, 100, 110, d1),
        quote("AAPL", exp, true, 505, 100, 110, d1),
        quote("AAPL", exp, false, 500, 100, 110, d1),
        quote("AAPL", exp, true, 500, 100, 110, d2),
        quote("AAPL", exp, true, 505, 100, 110, d2),
        quote("AAPL", exp, true, 510, 100, 110, d2),
        quote("AAPL", exp, false, 500, 100, 110, d2),
        quote("AAPL", exp, false, 505, 100, 110, d2),
    ];
    let broker = Broker::new(Money::new(100_000, 0), NullCommission::new());
    let mut simulation = Simulation::new(DummyModel::new(), broker);
    assert_eq!(simulation.run(feed), Ok(1));
    assert_eq!(simulation.broker().quote_map_capacity(), 5);
    assert_eq!(simulation.broker().account_balance(), simulation.starting_balance());
    // the seeding quote of each day is not counted
    assert_eq!(simulation.broker().quotes_processed(), 6);
}

#[test]
fn process_orders_counts_uncovered_fills_and_stops_at_a_failure() {
    let d1 = day(2013, 1, 2);
    let q = quote("AAPL", day(2013, 2, 15), true, 500, 1000, 1000, d1);
    let unquoted = quote("AAPL", day(2013, 2, 15), true, 505, 1000, 1000, d1);
    let mut broker = Broker::new(Money::new(1_500, 0), NullCommission::new());
    broker.begin_day().unwrap();
    broker.ingest(q.clone()).unwrap();
    let orders = vec![
        Order::new_buy_open_order(&q, 1, q.ask()),
        Order::new_buy_open_order(&q, 1, q.ask()),
    ];
    // the second buy of $1,000.00 finds $500.00 left
    assert_eq!(broker.process_orders(&orders), Ok(1));
    assert_eq!(broker.account_balance(), Money::new(-500, 0));
    let failing = vec![
        Order::new_sell_close_order(&q, 1, q.bid()),
        Order::new_buy_open_order(&unquoted, 1, unquoted.ask()),
        Order::new_sell_close_order(&q, 1, q.bid()),
    ];
    assert_eq!(broker.process_orders(&failing), Err(BrokerError::NoQuote));
    assert_eq!(broker.total_order_count(), 3);
    assert_eq!(broker.account_balance(), Money::new(500, 0));
}

#[test]
fn strict_margin_policy_refuses_uncovered_buys() {
    let d1 = day(2013, 1, 2);
    let q = quote("AAPL", day(2013, 2, 15), true, 500, 1000, 1000, d1);
    let mut broker = Broker::with_margin_policy(Money::new(100, 0), NullCommission::new(), MarginPolicy::Reject);
    broker.begin_day().unwrap();
    broker.ingest(q.clone()).unwrap();
    assert_eq!(
        broker.process_order(Order::new_buy_open_order(&q, 1, q.ask())),
        Err(BrokerError::InsufficientFunds)
    );
    assert_eq!(broker.account_balance(), Money::new(100, 0));
    assert_eq!(broker.total_order_count(), 0);
    // a sell brings cash in and is never refused
    assert_eq!(broker.process_order(Order::new_sell_open_order(&q, 1, q.bid())), Ok(Margin::Covered));
    assert_eq!(broker.account_balance(), Money::new(1_100, 0));
}
