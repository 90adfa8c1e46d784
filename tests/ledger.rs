use assassin::commission::{CharlesSchwab, Commission, NullCommission};
use assassin::date::Date;
use assassin::filled_order::FilledOrder;
use assassin::money::Money;
use assassin::order::Order;
use assassin::position::Position;
use assassin::quote::{contract_name, Quote, QuoteError};

fn day(y: i32, m: u32, d: u32) -> Date {
    Date::from_ymd(y, m, d).unwrap()
}

fn dummy_quote(bid: Money, ask: Money) -> Quote {
    Quote::new(
        "symbol",
        day(2013, 3, 15),
        true,
        Money::new(100, 0),
        bid,
        ask,
        Money::new(101, 0),
        day(2013, 1, 2),
    )
    .unwrap()
}

fn filled_order(quote: &Quote) -> FilledOrder {
    let order = Order::new_buy_open_order(quote, 10, Money::new(1, 0));
    FilledOrder::new(order, quote, quote.ask(), day(2013, 1, 2))
}

#[test]
fn test_unrealized_value() {
    let m1 = Money::new(1, 1);
    let m2 = Money::new(1, 2);

    let q1 = dummy_quote(m1, m2); // bought at 1.02
    let q2 = dummy_quote(Money::new(1, 3), Money::new(1, 4)); // selling at 1.03

    let o = filled_order(&q1);

    let cost_basis = o.cost_basis();
    let unrealized = o.unrealized_value(&q1);
    let profit = o.unrealized_value(&q2) - o.cost_basis();

    let d = m2 - m1;
    let difference = d * 100 * 10;

    assert!(cost_basis - difference == unrealized); // selling immediately is a $0.01/share loss
    assert!(profit == difference); // selling at q2 is a $0.01/share profit
}

#[test]
fn test_current_value() {
    let q1 = dummy_quote(Money::new(1, 1), Money::new(1, 2));
    let q2 = dummy_quote(Money::new(1, 3), Money::new(1, 4));
    let mut p = Position::new(&q1);
    let f = filled_order(&q1);
    assert!(p.accepts(&f));
    p.apply_order(f);
    assert_eq!(p.current_value(&q2), Some(Money::new(1030, 0)));
    assert_eq!(p.current_value(&q1), Some(Money::new(1010, 0)));
}

#[test]
fn contract_name_follows_option_symbol_convention() {
    let name = contract_name("AAPL", 2013, 1, 18, true, Money::new(500, 0));
    assert_eq!(name, "AAPL130118C00500000");
    let name = contract_name("CSCO", 2017, 11, 17, false, Money::new(19, 50));
    assert_eq!(name, "CSCO171117P00019500");
}

#[test]
fn quote_derives_its_name_and_midpoint() {
    let q = Quote::new(
        "AAPL",
        day(2013, 1, 18),
        true,
        Money::new(500, 0),
        Money::new(10, 35),
        Money::new(10, 56),
        Money::new(549, 3),
        day(2013, 1, 2),
    )
    .unwrap();
    assert_eq!(q.name(), "AAPL130118C00500000");
    assert_eq!(q.midpoint_price(), Money::new(10, 46)); // 10.455 rounds half up
    assert_eq!(q.days_to_expiration(day(2013, 1, 2)), 16);
    assert_eq!(q.days_to_expiration(day(2013, 1, 20)), -2);
    assert!(q.is_call());
    assert!(!q.is_put());
}

#[test]
fn quote_with_bid_above_ask_is_rejected() {
    let r = Quote::new(
        "AAPL",
        day(2013, 1, 18),
        false,
        Money::new(500, 0),
        Money::new(2, 0),
        Money::new(1, 0),
        Money::new(549, 3),
        day(2013, 1, 2),
    );
    assert_eq!(r.err(), Some(QuoteError::BidAboveAsk));
}

#[test]
fn quote_with_negative_strike_is_rejected() {
    let r = Quote::new(
        "AAPL",
        day(2013, 1, 18),
        false,
        Money::from_cents(-1),
        Money::new(1, 0),
        Money::new(2, 0),
        Money::new(549, 3),
        day(2013, 1, 2),
    );
    assert_eq!(r.err(), Some(QuoteError::InvalidPrice));
}

#[test]
fn order_constructors_cover_the_four_kinds() {
    let q = dummy_quote(Money::new(1, 0), Money::new(1, 10));
    let bo = Order::new_buy_open_order(&q, 2, Money::new(1, 5));
    let so = Order::new_sell_open_order(&q, 2, Money::new(1, 5));
    let bc = Order::new_buy_close_order(&q, 2, Money::new(1, 5));
    let sc = Order::new_sell_close_order(&q, 2, Money::new(1, 5));
    assert!(bo.buy_to_open() && !bo.sell_to_open() && !bo.buy_to_close() && !bo.sell_to_close());
    assert!(so.sell_to_open() && so.is_sell() && so.is_open());
    assert!(bc.buy_to_close() && bc.is_buy() && bc.is_close());
    assert!(sc.sell_to_close() && sc.is_sell() && sc.is_close());
    assert_eq!(bo.canonical_quantity(), 2);
    assert_eq!(so.canonical_quantity(), -2);
    assert_eq!(bo.margin_requirement(Money::new(1, 50)), Money::new(300, 0));
    assert_eq!(bo.buy_or_sell_string(), "BUY");
    assert_eq!(sc.buy_or_sell_string(), "SELL");
    assert_eq!(bo.summary(), "symbol BUY 2 $100.00 STRIKE at LIMIT $1.05");
}

#[test]
fn canonical_cost_basis_signs() {
    let q = dummy_quote(Money::new(2, 0), Money::new(2, 0));
    let buy = FilledOrder::new(Order::new_buy_open_order(&q, 3, q.ask()), &q, Money::new(2, 0), day(2013, 1, 2));
    let sell = FilledOrder::new(Order::new_sell_open_order(&q, 3, q.ask()), &q, Money::new(2, 0), day(2013, 1, 2));
    assert_eq!(buy.cost_basis(), Money::new(600, 0));
    assert_eq!(buy.canonical_cost_basis(), Money::new(-600, 0));
    assert_eq!(sell.canonical_cost_basis(), Money::new(600, 0));
}

#[test]
fn position_quantity_is_sum_of_signed_fills() {
    let q = dummy_quote(Money::new(1, 0), Money::new(1, 0));
    let mut p = Position::new(&q);
    let fills = [
        Order::new_buy_open_order(&q, 5, Money::zero()),
        Order::new_sell_close_order(&q, 2, Money::zero()),
        Order::new_sell_open_order(&q, 7, Money::zero()),
    ];
    for o in fills {
        let f = FilledOrder::new(o, &q, Money::new(1, 0), day(2013, 1, 2));
        assert!(p.accepts(&f));
        p.apply_order(f);
    }
    assert_eq!(p.quantity(), -4);
    assert!(!p.is_long());
    assert!(p.is_short());
    assert_eq!(p.order_count(), 3);
    // two opening fills against one closing fill
    assert!(p.is_open());
    // buys are debits and sells credits: -500 + 200 + 700 dollars
    assert_eq!(p.realized_profit(), Money::new(400, 0));
}

#[test]
fn position_expires_only_after_its_expiration_day() {
    let q = dummy_quote(Money::new(1, 0), Money::new(1, 0));
    let p = Position::new(&q);
    let expiration = q.expiration_date();
    assert!(!p.is_expired(expiration));
    assert!(p.is_expired(expiration.next_day()));
}

#[test]
fn schwab_commission_schedule() {
    let q = dummy_quote(Money::new(1, 0), Money::new(1, 10));
    let schwab = CharlesSchwab::new();
    let open = FilledOrder::new(Order::new_buy_open_order(&q, 10, q.ask()), &q, q.midpoint_price(), day(2013, 1, 2));
    assert_eq!(schwab.commission_for(&open), Money::new(11, 45));

    let cheap = dummy_quote(Money::new(0, 2), Money::new(0, 4));
    assert_eq!(cheap.midpoint_price(), Money::new(0, 3));
    let close = FilledOrder::new(
        Order::new_buy_close_order(&cheap, 250, cheap.ask()),
        &cheap,
        cheap.midpoint_price(),
        day(2013, 1, 2),
    );
    assert_eq!(schwab.commission_for(&close), Money::zero());
    assert_eq!(NullCommission::new().commission_for(&open), Money::zero());
}

#[test]
fn filled_order_commission_and_broker_flag() {
    let q = dummy_quote(Money::new(1, 0), Money::new(1, 10));
    let mut f = filled_order(&q);
    assert_eq!(f.commission(), Money::zero());
    assert!(!f.closed_by_broker());
    f.set_commission(Money::new(4, 95));
    f.set_closed_by_broker();
    assert_eq!(f.commission(), Money::new(4, 95));
    assert!(f.closed_by_broker());
    assert_eq!(f.quantity(), 10);
    assert_eq!(f.option_name(), q.name());
}

#[test]
fn dates_count_days_from_the_common_era() {
    assert_eq!(day(1970, 1, 1).days(), 719_163);
    assert_eq!(day(2013, 1, 2).days(), 734_870);
    assert_eq!(day(2013, 1, 2).days_until(day(2013, 3, 1)), 58);
    assert!(Date::from_ymd(2013, 2, 30).is_none());
    assert!(Date::from_ymd(2013, 13, 1).is_none());
    assert!(Date::from_ymd(262143, 1, 1).is_none());
    assert_eq!(day(-262143, 1, 1).days(), -95_746_129);
    assert_eq!(day(262142, 12, 31).days(), 95_745_399);
    assert!(Date::from_days(95_745_400).year_month_day().is_none());
    assert_eq!(day(2012, 2, 29).year_month_day(), Some((2012, 2, 29)));
    assert_eq!(day(2013, 12, 31).next_day(), day(2014, 1, 1));
}

#[test]
fn quote_expiring_outside_the_calendar_is_rejected() {
    let r = Quote::new(
        "AAPL",
        Date::from_days(i32::MAX),
        true,
        Money::new(500, 0),
        Money::new(1, 0),
        Money::new(2, 0),
        Money::new(549, 3),
        day(2013, 1, 2),
    );
    assert_eq!(r.err(), Some(QuoteError::ExpirationOutOfRange));
}

#[test]
fn intrinsic_and_extrinsic_values() {
    let call = Quote::new(
        "AAPL",
        day(2013, 1, 18),
        true,
        Money::new(540, 0),
        Money::new(10, 35),
        Money::new(10, 55),
        Money::new(549, 3),
        day(2013, 1, 2),
    )
    .unwrap();
    assert_eq!(call.intrinsic_value(), Money::new(9, 3));
    assert_eq!(call.extrinsic_value(), Money::new(1, 42));
    assert_eq!(call.days_until_expiration(), 16);
    let put = Quote::new(
        "AAPL",
        day(2013, 1, 18),
        false,
        Money::new(540, 0),
        Money::new(1, 0),
        Money::new(1, 10),
        Money::new(549, 3),
        day(2013, 1, 2),
    )
    .unwrap();
    assert_eq!(put.intrinsic_value(), Money::zero());
    assert_eq!(put.extrinsic_value(), Money::new(1, 5));
}
