use vstd::prelude::*;

use crate::book::{positions_of, prices_of, quotes_of, PositionBook, PriceBook, QuoteBook};
use crate::commission::Commission;
use crate::date::Date;
use crate::filled_order::{
    canonical_cost_basis_of, cost_basis_of, FilledOrder, FilledOrderView,
};
use crate::money::{in_money_range, round_div, Money, MONEY_MAX};
use crate::order::{Order, OrderView};
use crate::names::{
    lemma_text_lt_total, lemma_text_lt_transitive, sort_names,
    sorted_names, text_lt,
};
use crate::util::same_text;
use crate::position::{accepts_fill, checked_value_of, position_is_open, Position, PositionView};
use crate::quote::{Quote, QuoteView};

verus! {

/// Why the broker could not carry out a request.
#[derive(Clone, Copy, PartialEq, Eq, Structural, Debug)]
pub enum BrokerError {
    /// No quote of the day for the contract.
    NoQuote,
    /// An amount or a count would leave its representable range.
    Overflow,
    /// A buy the balance does not cover, refused under `MarginPolicy::Reject`.
    InsufficientFunds,
}

/// What the broker does with a strategy's buy that the cash balance does not
/// cover (cost basis plus commission above the balance).
#[derive(Clone, Copy, PartialEq, Eq, Structural, Debug)]
pub enum MarginPolicy {
    /// Fill it anyway and report it as `Margin::Insufficient`.
    WarnAndExecute,
    /// Refuse it with `BrokerError::InsufficientFunds`.
    Reject,
}

/// Whether the account held the capital a fill tied up.
#[derive(Clone, Copy, PartialEq, Eq, Structural, Debug)]
pub enum Margin {
    /// The account covered the fill, or the fill was a sell.
    Covered,
    /// A buy whose cost and commission exceeded the balance; it was filled anyway.
    Insufficient,
}

/// What the broker holds, with amounts in cents and dates as day numbers.
pub struct BrokerView {
    pub balance: int,
    pub commission_paid: int,
    pub positions: Map<Seq<char>, PositionView>,
    pub fills: Seq<FilledOrderView>,
    pub quotes: Map<Seq<char>, QuoteView>,
    pub current_date: int,
    pub quotes_processed: int,
    pub quote_capacity: int,
    pub underlying: Map<Seq<char>, int>,
    pub highest_realized: int,
    pub lowest_realized: int,
    pub highest_unrealized: int,
    pub lowest_unrealized: int,
    pub final_unrealized: int,
    pub carried_over: Option<QuoteView>,
    pub awaiting_first: bool,
    pub strict_margin: bool,
}

/// The fill of order `o` against quote `q` on day `date`: at the quote's
/// midpoint, with commission `fee`.
pub open spec fn fill_view(o: OrderView, q: QuoteView, date: int, fee: int, forced: bool) -> FilledOrderView {
    FilledOrderView {
        order: o,
        quote: q,
        fill_price: round_div(q.ask + q.bid, 2),
        fill_date: date,
        commission: fee,
        closed_by_broker: forced,
    }
}

/// An empty position for the contract of quote `q`.
pub open spec fn fresh_position(q: QuoteView) -> PositionView {
    PositionView {
        name: q.name,
        symbol: q.symbol,
        quantity: 0,
        expiration: q.expiration,
        orders: Seq::empty(),
    }
}

/// The position a fill of `q`'s contract goes to: the existing one, or a fresh one.
pub open spec fn target_position(v: BrokerView, q: QuoteView) -> PositionView {
    if v.positions.contains_key(q.name) {
        v.positions[q.name]
    } else {
        fresh_position(q)
    }
}

/// Whether fill `f` of quote `q`'s contract keeps every amount representable.
pub open spec fn fill_fits(v: BrokerView, q: QuoteView, f: FilledOrderView) -> bool {
    &&& in_money_range(cost_basis_of(f))
    &&& accepts_fill(target_position(v, q), f)
    &&& in_money_range(v.balance + canonical_cost_basis_of(f) - f.commission)
    &&& in_money_range(v.commission_paid + f.commission)
}

/// The ledger after fill `f` of quote `q`'s contract: the fill is logged and
/// applied to its position, the cash moves by its canonical cost basis less
/// commission, and the commission is added to the total paid.
pub open spec fn after_fill(v: BrokerView, q: QuoteView, f: FilledOrderView) -> BrokerView {
    let p = target_position(v, q);
    BrokerView {
        balance: v.balance + canonical_cost_basis_of(f) - f.commission,
        commission_paid: v.commission_paid + f.commission,
        positions: v.positions.insert(
            q.name,
            PositionView {
                quantity: p.quantity + crate::order::canonical_quantity_of(f.order),
                orders: p.orders.push(f),
                ..p
            },
        ),
        fills: v.fills.push(f),
        ..v
    }
}

/// Whether fill `f` is a buy that the balance did not cover.
pub open spec fn under_margined(v: BrokerView, f: FilledOrderView) -> bool {
    f.order.buy && cost_basis_of(f) + f.commission > v.balance
}

/// The outcome of fill `f` of quote `q`'s contract: the ledger after it and
/// whether the balance covered it; an error, the ledger unchanged, when an
/// amount would not fit, or when a strategy's uncovered buy meets a strict
/// margin policy (forced fills are never refused for margin).
pub open spec fn fill_step(v: BrokerView, q: QuoteView, f: FilledOrderView, forced: bool) -> Result<
    (BrokerView, Margin),
    BrokerError,
> {
    if !fill_fits(v, q, f) {
        Err(BrokerError::Overflow)
    } else if !forced && v.strict_margin && under_margined(v, f) {
        Err(BrokerError::InsufficientFunds)
    } else {
        Ok(
            (
                after_fill(v, q, f),
                if under_margined(v, f) {
                    Margin::Insufficient
                } else {
                    Margin::Covered
                },
            ),
        )
    }
}

/// The names among `names` whose positions are open, in the same order.
pub open spec fn open_names_of(v: BrokerView, names: Seq<Seq<char>>) -> Seq<Seq<char>>
    decreases names.len(),
{
    if names.len() == 0 {
        names
    } else if position_is_open(v.positions[names.last()]) {
        open_names_of(v, names.drop_last()).push(names.last())
    } else {
        open_names_of(v, names.drop_last())
    }
}

/// The names of all positions, in increasing order.
pub open spec fn position_names(v: BrokerView) -> Seq<Seq<char>> {
    sorted_names(v.positions.dom())
}

/// The cash balance plus the mark-to-market value of the open positions
/// among `names`, taken in order against the day's quotes.
pub open spec fn marked_balance(v: BrokerView, names: Seq<Seq<char>>) -> Result<int, BrokerError>
    decreases names.len(),
{
    if names.len() == 0 {
        Ok(v.balance)
    } else {
        match marked_balance(v, names.drop_last()) {
            Err(e) => Err(e),
            Ok(s) => {
                let n = names.last();
                let p = v.positions[n];
                if !position_is_open(p) {
                    Ok(s)
                } else if !v.quotes.contains_key(n) {
                    Err(BrokerError::NoQuote)
                } else {
                    match checked_value_of(p.orders, v.quotes[n]) {
                        None => Err(BrokerError::Overflow),
                        Some(x) => if in_money_range(s + x) {
                            Ok(s + x)
                        } else {
                            Err(BrokerError::Overflow)
                        },
                    }
                }
            },
        }
    }
}

/// The unrealized balance: cash plus every open position valued against its
/// quote of the day, by name order; an error when a quote is missing or a
/// total cannot be held.
pub open spec fn unrealized_of(v: BrokerView) -> Result<int, BrokerError> {
    marked_balance(v, position_names(v))
}

/// The new (high, low) watermarks after seeing `x`.
pub open spec fn watermarks(high: int, low: int, x: int) -> (int, int) {
    if x > high {
        (x, low)
    } else if x < low {
        (high, x)
    } else {
        (high, low)
    }
}

/// The statistics after recording cash balance and unrealized balance `u`.
pub open spec fn with_statistics(v: BrokerView, u: int) -> BrokerView {
    BrokerView {
        highest_realized: watermarks(v.highest_realized, v.lowest_realized, v.balance).0,
        lowest_realized: watermarks(v.highest_realized, v.lowest_realized, v.balance).1,
        highest_unrealized: watermarks(v.highest_unrealized, v.lowest_unrealized, u).0,
        lowest_unrealized: watermarks(v.highest_unrealized, v.lowest_unrealized, u).1,
        ..v
    }
}

/// The order that closes position `p` against quote `q`, sized to its whole
/// net quantity at the worse side for the holder: a long sells at the bid, a
/// short buys at the ask.
pub open spec fn closing_order_of(p: PositionView, q: QuoteView) -> OrderView {
    let long = p.quantity > 0;
    OrderView {
        symbol: q.symbol,
        name: q.name,
        buy: !long,
        open: false,
        quantity: if long {
            p.quantity
        } else {
            -p.quantity
        },
        limit: if long {
            q.bid
        } else {
            q.ask
        },
        strike: q.strike,
    }
}

/// Whether a close-out takes position `p`: it is open, holds contracts, and,
/// given a `cutoff` day, expired strictly before it.
pub open spec fn due_for_close(p: PositionView, cutoff: Option<int>) -> bool {
    &&& position_is_open(p)
    &&& p.quantity != 0
    &&& match cutoff {
        Some(d) => p.expiration < d,
        None => true,
    }
}

/// The closing orders, with their quotes, for the positions named in
/// `names`, in order; an error when a quote is missing or a size is too large.
pub open spec fn closes_of(v: BrokerView, names: Seq<Seq<char>>, cutoff: Option<int>) -> Result<
    Seq<(OrderView, QuoteView)>,
    BrokerError,
>
    decreases names.len(),
{
    if names.len() == 0 {
        Ok(Seq::empty())
    } else {
        match closes_of(v, names.drop_last(), cutoff) {
            Err(e) => Err(e),
            Ok(cs) => {
                let n = names.last();
                let p = v.positions[n];
                if !due_for_close(p, cutoff) {
                    Ok(cs)
                } else if !v.quotes.contains_key(n) {
                    Err(BrokerError::NoQuote)
                } else if p.quantity > i32::MAX || -p.quantity > i32::MAX {
                    Err(BrokerError::Overflow)
                } else {
                    Ok(cs.push((closing_order_of(p, v.quotes[n]), v.quotes[n])))
                }
            },
        }
    }
}

/// The ledger after the forced fills of `closes` up to the first that fails.
pub open spec fn forced_reached<C: Commission>(
    sched: C,
    v: BrokerView,
    closes: Seq<(OrderView, QuoteView)>,
) -> BrokerView
    decreases closes.len(),
{
    if closes.len() == 0 {
        v
    } else {
        match forced_fills(sched, v, closes.drop_last()) {
            Err(_) => forced_reached(sched, v, closes.drop_last()),
            Ok(w) => match forced_fills(sched, v, closes) {
                Ok(w2) => w2,
                Err(_) => w,
            },
        }
    }
}

/// The ledger a close-out under `cutoff` reaches: unchanged when its orders
/// cannot all be built, otherwise after the fills up to the first that fails.
pub open spec fn close_out_reached<C: Commission>(sched: C, v: BrokerView, cutoff: Option<int>) -> BrokerView {
    match closes_of(v, position_names(v), cutoff) {
        Err(_) => v,
        Ok(cs) => forced_reached(sched, v, cs),
    }
}

/// The day's ledger after a new quote of the current day: its underlying
/// price and the quote itself are recorded and counted.
pub open spec fn after_record(v: BrokerView, q: QuoteView) -> BrokerView {
    BrokerView {
        underlying: v.underlying.insert(q.symbol, q.underlying),
        current_date: q.date,
        quotes: v.quotes.insert(q.name, q),
        quotes_processed: if v.quotes_processed < u64::MAX {
            v.quotes_processed + 1
        } else {
            v.quotes_processed
        },
        ..v
    }
}

/// The ledger at the start of a day: a fresh quote book holding the quote
/// carried over from the previous call, if any, recorded and counted.
pub open spec fn begun(v: BrokerView) -> BrokerView {
    let cleared = BrokerView {
        quotes: Map::empty(),
        carried_over: None,
        awaiting_first: true,
        ..v
    };
    match v.carried_over {
        None => cleared,
        Some(q) => after_record(cleared, q),
    }
}

/// The ledger after forced fills of `closes`, in order, on the current day,
/// charged by schedule `sched`; an error when one does not fit.
pub open spec fn forced_fills<C: Commission>(
    sched: C,
    v: BrokerView,
    closes: Seq<(OrderView, QuoteView)>,
) -> Result<BrokerView, BrokerError>
    decreases closes.len(),
{
    if closes.len() == 0 {
        Ok(v)
    } else {
        match forced_fills(sched, v, closes.drop_last()) {
            Err(e) => Err(e),
            Ok(w) => {
                let (o, q) = closes.last();
                let d = w.current_date;
                let f = fill_view(o, q, d, sched.fee_for(fill_view(o, q, d, 0, false)), true);
                if fill_fits(w, q, f) {
                    Ok(after_fill(w, q, f))
                } else {
                    Err(BrokerError::Overflow)
                }
            },
        }
    }
}

/// The ledger after closing every position due under `cutoff`: all closing
/// orders are taken from the day's quotes first, then filled in name order.
pub open spec fn close_out<C: Commission>(sched: C, v: BrokerView, cutoff: Option<int>) -> Result<
    BrokerView,
    BrokerError,
> {
    match closes_of(v, position_names(v), cutoff) {
        Err(e) => Err(e),
        Ok(cs) => forced_fills(sched, v, cs),
    }
}

/// Whether quote `q` is selected by `symbol` and `kind`: same symbol, and a
/// call when `kind` is `Some(true)`, a put when it is `Some(false)`.
pub open spec fn quote_selected(q: QuoteView, symbol: Seq<char>, kind: Option<bool>) -> bool {
    q.symbol == symbol && match kind {
        Some(call) => q.call == call,
        None => true,
    }
}

/// The quotes among `names` selected by `symbol` and `kind`, in the same order.
pub open spec fn selected_quotes(
    v: BrokerView,
    names: Seq<Seq<char>>,
    symbol: Seq<char>,
    kind: Option<bool>,
) -> Seq<QuoteView>
    decreases names.len(),
{
    if names.len() == 0 {
        Seq::empty()
    } else if quote_selected(v.quotes[names.last()], symbol, kind) {
        selected_quotes(v, names.drop_last(), symbol, kind).push(v.quotes[names.last()])
    } else {
        selected_quotes(v, names.drop_last(), symbol, kind)
    }
}

/// The day's quotes of `symbol` of the given kind, in increasing order of name.
pub open spec fn quotes_of_symbol(v: BrokerView, symbol: Seq<char>, kind: Option<bool>) -> Seq<
    QuoteView,
> {
    selected_quotes(v, sorted_names(v.quotes.dom()), symbol, kind)
}

/// Whether `q` expires strictly more than `min` and strictly fewer than `max`
/// days after day `date`.
pub open spec fn expires_within(q: QuoteView, date: int, min: int, max: int) -> bool {
    min < q.expiration - date < max
}

/// The order of candidate quotes: by days to expiration, puts before calls,
/// then by strike, then by name.
pub open spec fn quote_before(a: QuoteView, b: QuoteView) -> bool {
    if a.expiration != b.expiration {
        a.expiration < b.expiration
    } else if a.call != b.call {
        !a.call
    } else if a.strike != b.strike {
        a.strike < b.strike
    } else {
        text_lt(a.name, b.name)
    }
}

/// Whether `x` is one of the day's quotes in `v` expiring strictly between
/// `min` and `max` days out.
pub open spec fn in_window(v: BrokerView, x: QuoteView, min: int, max: int) -> bool {
    &&& v.quotes.contains_key(x.name)
    &&& v.quotes[x.name] == x
    &&& expires_within(x, v.current_date, min, max)
}

/// Whether `s` is in strictly increasing `quote_before` order.
pub open spec fn strictly_before_sorted(s: Seq<QuoteView>) -> bool {
    forall|a: int, b: int| 0 <= a < b < s.len() ==> quote_before(#[trigger] s[a], #[trigger] s[b])
}

/// The day's quotes expiring strictly between `min` and `max` days out, in
/// the order of `quote_before`.
pub open spec fn nearest_of(v: BrokerView, min: int, max: int) -> Seq<QuoteView> {
    choose|s: Seq<QuoteView>|
        strictly_before_sorted(s) && forall|x: QuoteView| #[trigger]
            s.contains(x) <==> in_window(v, x, min, max)
}

proof fn lemma_quote_before_irreflexive(a: QuoteView)
    ensures
        !quote_before(a, a),
{
    crate::names::lemma_text_lt_irreflexive(a.name);
}

/// Two increasing arrangements of the same quotes are the same sequence.
proof fn lemma_quote_order_unique(a: Seq<QuoteView>, b: Seq<QuoteView>)
    requires
        strictly_before_sorted(a),
        strictly_before_sorted(b),
        forall|x: QuoteView| #[trigger] a.contains(x) ==> b.contains(x),
        forall|x: QuoteView| #[trigger] b.contains(x) ==> a.contains(x),
    ensures
        a == b,
    decreases a.len(),
{
    if a.len() == 0 {
        if b.len() > 0 {
            assert(b.contains(b[0]));
            assert(a.contains(b[0]));
        }
        assert(a =~= b);
    } else {
        assert(a.contains(a[0]));
        assert(b.contains(a[0]));
        let j = choose|j: int| 0 <= j < b.len() && b[j] == a[0];
        assert(b.contains(b[0]));
        assert(a.contains(b[0]));
        let i = choose|i: int| 0 <= i < a.len() && a[i] == b[0];
        if j > 0 {
            assert(quote_before(b[0], b[j]));
            if i > 0 {
                assert(quote_before(a[0], a[i]));
                lemma_quote_before_transitive(a[0], a[i], a[0]);
                lemma_quote_before_irreflexive(a[0]);
            } else {
                lemma_quote_before_irreflexive(a[0]);
            }
        }
        assert(a[0] == b[0]);
        let a1 = a.drop_first();
        let b1 = b.drop_first();
        assert forall|x: QuoteView| #[trigger] a1.contains(x) implies b1.contains(x) by {
            if a1.contains(x) {
                let k = choose|k: int| 0 <= k < a1.len() && a1[k] == x;
                assert(a[k + 1] == x);
                assert(a.contains(x));
                let m = choose|m: int| 0 <= m < b.len() && b[m] == x;
                if m == 0 {
                    assert(quote_before(a[0], a[k + 1]));
                    lemma_quote_before_irreflexive(a[0]);
                }
                assert(b1[m - 1] == x);
            }
        }
        assert forall|x: QuoteView| #[trigger] b1.contains(x) implies a1.contains(x) by {
            if b1.contains(x) {
                let k = choose|k: int| 0 <= k < b1.len() && b1[k] == x;
                assert(b[k + 1] == x);
                assert(b.contains(x));
                let m = choose|m: int| 0 <= m < a.len() && a[m] == x;
                if m == 0 {
                    assert(quote_before(b[0], b[k + 1]));
                    lemma_quote_before_irreflexive(b[0]);
                }
                assert(a1[m - 1] == x);
            }
        }
        lemma_quote_order_unique(a1, b1);
        assert(a =~= seq![a[0]] + a1);
        assert(b =~= seq![b[0]] + b1);
    }
}

proof fn lemma_quote_before_transitive(a: QuoteView, b: QuoteView, c: QuoteView)
    requires
        quote_before(a, b),
        quote_before(b, c),
    ensures
        quote_before(a, c),
{
    if a.expiration == b.expiration && b.expiration == c.expiration && a.call == b.call && b.call
        == c.call && a.strike == b.strike && b.strike == c.strike {
        lemma_text_lt_transitive(a.name, b.name, c.name);
    }
}

proof fn lemma_quote_before_total(a: QuoteView, b: QuoteView)
    requires
        a.name != b.name,
    ensures
        quote_before(a, b) || quote_before(b, a),
{
    lemma_text_lt_total(a.name, b.name);
}

/// The ledger after placing `orders` in turn, with the number of fills the
/// balance did not cover; an error, at the first order that fails, when an
/// order has no quote of the day or its fill does not fit.
pub open spec fn orders_outcome<C: Commission>(
    sched: C,
    v: BrokerView,
    orders: Seq<OrderView>,
) -> Result<(BrokerView, nat), BrokerError>
    decreases orders.len(),
{
    if orders.len() == 0 {
        Ok((v, 0nat))
    } else {
        match orders_outcome(sched, v, orders.drop_last()) {
            Err(e) => Err(e),
            Ok((w, n)) => {
                let o = orders.last();
                if !w.quotes.contains_key(o.name) {
                    Err(BrokerError::NoQuote)
                } else {
                    let q = w.quotes[o.name];
                    let d = w.current_date;
                    let f = fill_view(o, q, d, sched.fee_for(fill_view(o, q, d, 0, false)), false);
                    match fill_step(w, q, f, false) {
                        Err(e) => Err(e),
                        Ok((w2, m)) => Ok(
                            (
                                w2,
                                if m == Margin::Insufficient {
                                    n + 1
                                } else {
                                    n
                                },
                            ),
                        ),
                    }
                }
            },
        }
    }
}

/// The ledger after placing `orders` in turn up to the first that fails.
pub open spec fn orders_reached<C: Commission>(
    sched: C,
    v: BrokerView,
    orders: Seq<OrderView>,
) -> BrokerView
    decreases orders.len(),
{
    if orders.len() == 0 {
        v
    } else {
        match orders_outcome(sched, v, orders.drop_last()) {
            Err(_) => orders_reached(sched, v, orders.drop_last()),
            Ok((w, _)) => match orders_outcome(sched, v, orders) {
                Ok((w2, _)) => w2,
                Err(_) => w,
            },
        }
    }
}

/// The simulated broker: cash, positions, the day's quotes, and statistics.
pub struct Broker<C: Commission> {
    balance: Money,
    positions: PositionBook,
    orders: Vec<FilledOrder>,
    commission_schedule: C,
    commission_paid: Money,
    quotes: QuoteBook,
    current_date: Date,
    quotes_processed: u64,
    quote_map_capacity: usize,
    underlying_prices: PriceBook,
    highest_realized_account_balance: Money,
    lowest_realized_account_balance: Money,
    highest_unrealized_account_balance: Money,
    lowest_unrealized_account_balance: Money,
    final_unrealized_account_balance: Money,
    carried_over_quote: Option<Quote>,
    awaiting_first_quote: bool,
    margin_policy: MarginPolicy,
}

impl<C: Commission> View for Broker<C> {
    type V = BrokerView;

    closed spec fn view(&self) -> BrokerView {
        BrokerView {
            balance: self.balance@,
            commission_paid: self.commission_paid@,
            positions: positions_of(self.positions).map_values(|p: Position| p@),
            fills: self.orders@.map_values(|f: FilledOrder| f@),
            quotes: quotes_of(self.quotes).map_values(|q: Quote| q@),
            current_date: self.current_date.days as int,
            quotes_processed: self.quotes_processed as int,
            quote_capacity: self.quote_map_capacity as int,
            underlying: prices_of(self.underlying_prices).map_values(|m: Money| m@),
            highest_realized: self.highest_realized_account_balance@,
            lowest_realized: self.lowest_realized_account_balance@,
            highest_unrealized: self.highest_unrealized_account_balance@,
            lowest_unrealized: self.lowest_unrealized_account_balance@,
            final_unrealized: self.final_unrealized_account_balance@,
            carried_over: match self.carried_over_quote {
                Some(q) => Some(q@),
                None => None,
            },
            awaiting_first: self.awaiting_first_quote,
            strict_margin: self.margin_policy == MarginPolicy::Reject,
        }
    }
}

impl<C: Commission> Broker<C> {
    /// The commission schedule.
    pub closed spec fn schedule(&self) -> C {
        self.commission_schedule
    }

    /// The fill the broker makes of order `o` against quote `q` on the current date.
    pub open spec fn fill_for(&self, o: OrderView, q: QuoteView, forced: bool) -> FilledOrderView {
        let d = self@.current_date;
        fill_view(o, q, d, self.schedule().fee_for(fill_view(o, q, d, 0, false)), forced)
    }

    /// The internal consistency of the ledger and the books.
    pub closed spec fn wf(&self) -> bool {
        &&& forall|k: Seq<char>| #[trigger]
            positions_of(self.positions).contains_key(k) ==> positions_of(self.positions)[k].wf()
                && positions_of(self.positions)[k]@.name == k
        &&& forall|k: Seq<char>| #[trigger]
            quotes_of(self.quotes).contains_key(k) ==> quotes_of(self.quotes)[k]@.name == k
        &&& in_money_range(self.balance@)
        &&& 0 <= self.commission_paid@
        &&& in_money_range(self.commission_paid@)
    }

    /// A broker with `initial_balance` in cash, charging by
    /// `commission_schedule`, that fills uncovered buys and reports them.
    pub fn new(initial_balance: Money, commission_schedule: C) -> (r: Broker<C>)
        requires
            initial_balance@ > 0,
            in_money_range(initial_balance@),
        ensures
            r.wf(),
            r.schedule() == commission_schedule,
            r@ == Broker::<C>::initial_view(initial_balance@, false),
    {
        Broker::with_margin_policy(initial_balance, commission_schedule, MarginPolicy::WarnAndExecute)
    }

    /// The state of a fresh broker holding `balance` in cash.
    pub open spec fn initial_view(balance: int, strict_margin: bool) -> BrokerView {
        BrokerView {
            balance,
            commission_paid: 0,
            positions: Map::empty(),
            fills: Seq::empty(),
            quotes: Map::empty(),
            current_date: 0,
            quotes_processed: 0,
            quote_capacity: 0,
            underlying: Map::empty(),
            highest_realized: balance,
            lowest_realized: balance,
            highest_unrealized: balance,
            lowest_unrealized: balance,
            final_unrealized: balance,
            carried_over: None,
            awaiting_first: false,
            strict_margin,
        }
    }

    /// A broker with `initial_balance` in cash, charging by
    /// `commission_schedule`, treating uncovered buys by `margin_policy`.
    pub fn with_margin_policy(initial_balance: Money, commission_schedule: C, margin_policy: MarginPolicy) -> (r: Broker<C>)
        requires
            initial_balance@ > 0,
            in_money_range(initial_balance@),
        ensures
            r.wf(),
            r.schedule() == commission_schedule,
            r@ == Broker::<C>::initial_view(initial_balance@, margin_policy == MarginPolicy::Reject),
    {
        let b = Broker {
            balance: initial_balance,
            positions: PositionBook::new(),
            orders: Vec::new(),
            commission_schedule,
            commission_paid: Money::zero(),
            quotes: QuoteBook::with_capacity(0),
            current_date: Date::from_days(0),
            quotes_processed: 0,
            quote_map_capacity: 0,
            underlying_prices: PriceBook::new(),
            highest_realized_account_balance: initial_balance,
            lowest_realized_account_balance: initial_balance,
            highest_unrealized_account_balance: initial_balance,
            lowest_unrealized_account_balance: initial_balance,
            final_unrealized_account_balance: initial_balance,
            carried_over_quote: None,
            awaiting_first_quote: false,
            margin_policy,
        };
        assert(b@.positions =~= Map::<Seq<char>, PositionView>::empty());
        assert(b@.quotes =~= Map::<Seq<char>, QuoteView>::empty());
        assert(b@.underlying =~= Map::<Seq<char>, int>::empty());
        assert(b@.fills =~= Seq::<FilledOrderView>::empty());
        b
    }

    pub fn highest_realized_account_balance(&self) -> (r: Money)
        ensures
            r@ == self@.highest_realized,
    {
        self.highest_realized_account_balance
    }

    pub fn lowest_realized_account_balance(&self) -> (r: Money)
        ensures
            r@ == self@.lowest_realized,
    {
        self.lowest_realized_account_balance
    }

    pub fn highest_unrealized_account_balance(&self) -> (r: Money)
        ensures
            r@ == self@.highest_unrealized,
    {
        self.highest_unrealized_account_balance
    }

    pub fn lowest_unrealized_account_balance(&self) -> (r: Money)
        ensures
            r@ == self@.lowest_unrealized,
    {
        self.lowest_unrealized_account_balance
    }

    /// The unrealized balance recorded when the feed ran out.
    pub fn final_unrealized_account_balance(&self) -> (r: Money)
        ensures
            r@ == self@.final_unrealized,
    {
        self.final_unrealized_account_balance
    }

    pub fn quotes_processed(&self) -> (r: u64)
        ensures
            r == self@.quotes_processed,
    {
        self.quotes_processed
    }

    /// The capacity the next day's quote book starts with: the most distinct
    /// contracts seen in one day so far.
    pub fn quote_map_capacity(&self) -> (r: usize)
        ensures
            r == self@.quote_capacity,
    {
        self.quote_map_capacity
    }

    pub fn current_date(&self) -> (r: Date)
        ensures
            r.days == self@.current_date,
    {
        self.current_date
    }

    /// The cash balance.
    pub fn account_balance(&self) -> (r: Money)
        ensures
            r@ == self@.balance,
    {
        self.balance
    }

    /// The number of fills made so far.
    pub fn total_order_count(&self) -> (r: usize)
        ensures
            r == self@.fills.len(),
    {
        self.orders.len()
    }

    /// Every fill made so far, in order.
    pub fn filled_orders(&self) -> (r: &Vec<FilledOrder>)
        ensures
            r@.map_values(|f: FilledOrder| f@) == self@.fills,
    {
        &self.orders
    }

    pub fn commission_paid(&self) -> (r: Money)
        ensures
            r@ == self@.commission_paid,
    {
        self.commission_paid
    }

    /// The day's quote of contract `option_name`, if any.
    pub fn quote_for(&self, option_name: &str) -> (r: Option<Quote>)
        ensures
            match r {
                Some(q) => self@.quotes.contains_key(option_name@) && q@ == self@.quotes[option_name@],
                None => !self@.quotes.contains_key(option_name@),
            },
    {
        match self.quotes.get(option_name) {
            Some(q) => Some(q.clone()),
            None => None,
        }
    }

    /// Whether an underlying price of `symbol` has been seen.
    pub fn has_underlying_price_for(&self, symbol: &str) -> (r: bool)
        ensures
            r == self@.underlying.contains_key(symbol@),
    {
        self.underlying_prices.get(symbol).is_some()
    }

    /// The last underlying price seen for `symbol`.
    pub fn underlying_price_for(&self, symbol: &str) -> (r: Money)
        requires
            self@.underlying.contains_key(symbol@),
        ensures
            r@ == self@.underlying[symbol@],
    {
        match self.underlying_prices.get(symbol) {
            Some(p) => p,
            None => Money::zero(),
        }
    }

    /// Fills `order` at the midpoint of its contract's quote of the day,
    /// charges commission and books the result. A buy the balance does not
    /// cover is filled and reported as `Margin::Insufficient`, or refused
    /// under `MarginPolicy::Reject`.
    pub fn process_order(&mut self, order: Order) -> (r: Result<Margin, BrokerError>)
        requires
            old(self).wf(),
            old(self)@.quotes.contains_key(order@.name),
        ensures
            final(self).wf(),
            final(self).schedule() == old(self).schedule(),
            ({
                let q = old(self)@.quotes[order@.name];
                match fill_step(old(self)@, q, old(self).fill_for(order@, q, false), false) {
                    Ok((w, m)) => r == Ok::<Margin, BrokerError>(m) && final(self)@ == w,
                    Err(e) => r == Err::<Margin, BrokerError>(e) && final(self)@ == old(self)@,
                }
            }),
    {
        let quote = match self.quotes.get(order.option_name()) {
            Some(q) => q.clone(),
            None => {
                return Err(BrokerError::NoQuote);
            },
        };
        self.fill_order(order, &quote, false)
    }

    /// Places `orders` in turn, stopping at the first one that fails.
    /// Returns how many fills the balance did not cover.
    pub fn process_orders(&mut self, orders: &Vec<Order>) -> (r: Result<usize, BrokerError>)
        requires
            old(self).wf(),
        ensures
            final(self).wf(),
            final(self).schedule() == old(self).schedule(),
            match orders_outcome(
                old(self).schedule(),
                old(self)@,
                orders@.map_values(|o: Order| o@),
            ) {
                Ok((w, n)) => r == Ok::<usize, BrokerError>(n as usize),
                Err(e) => r == Err::<usize, BrokerError>(e),
            },
            final(self)@ == orders_reached(
                old(self).schedule(),
                old(self)@,
                orders@.map_values(|o: Order| o@),
            ),
    {
        let ghost os = orders@.map_values(|o: Order| o@);
        let ghost v0 = self@;
        let mut short: usize = 0;
        let mut i: usize = 0;
        assert(os.take(0).len() == 0);
        while i < orders.len()
            invariant
                self.wf(),
                self.schedule() == old(self).schedule(),
                v0 == old(self)@,
                os == orders@.map_values(|o: Order| o@),
                i <= orders.len(),
                short <= i,
                orders_outcome(old(self).schedule(), v0, os.take(i as int)) == Ok::<
                    (BrokerView, nat),
                    BrokerError,
                >((self@, short as nat)),
            decreases orders.len() - i,
        {
            proof {
                assert(os.take(i + 1).drop_last() == os.take(i as int));
                assert(os.take(i + 1).last() == os[i as int]);
            }
            let o = orders[i].clone();
            if self.quotes.get(o.option_name()).is_none() {
                proof {
                    lemma_orders_error_stays(old(self).schedule(), v0, os, i as int + 1);
                    lemma_orders_reached_at_error(old(self).schedule(), v0, os, i as int);
                }
                return Err(BrokerError::NoQuote);
            }
            match self.process_order(o) {
                Ok(Margin::Insufficient) => {
                    short = short + 1;
                },
                Ok(Margin::Covered) => {},
                Err(e) => {
                    proof {
                        lemma_orders_error_stays(old(self).schedule(), v0, os, i as int + 1);
                        lemma_orders_reached_at_error(old(self).schedule(), v0, os, i as int);
                    }
                    return Err(e);
                },
            }
            i = i + 1;
        }
        proof {
            assert(os.take(orders.len() as int) == os);
            lemma_orders_reached_ok(old(self).schedule(), v0, os);
        }
        Ok(short)
    }

    /// The names of all positions, in increasing order.
    fn sorted_position_names(&self) -> (r: Vec<String>)
        requires
            self.wf(),
        ensures
            r@.map_values(|s: String| s@) == position_names(self@),
            r@.map_values(|s: String| s@).to_set() == self@.positions.dom(),
            r@.map_values(|s: String| s@).no_duplicates(),
    {
        let names = self.positions.names();
        proof {
            assert(positions_of(self.positions).dom() == self@.positions.dom());
        }
        sort_names(&names)
    }

    /// Every position, in increasing order of contract name.
    pub fn positions(&self) -> (r: Vec<&Position>)
        requires
            self.wf(),
        ensures
            r@.map_values(|p: &Position| p@) == position_names(self@).map_values(
                |n: Seq<char>| self@.positions[n],
            ),
            forall|i: int| 0 <= i < r@.len() ==> (#[trigger] r@[i]).wf(),
    {
        let names = self.sorted_position_names();
        let ghost ns = names@.map_values(|s: String| s@);
        let mut out: Vec<&Position> = Vec::new();
        let mut i: usize = 0;
        while i < names.len()
            invariant
                self.wf(),
                i <= names.len(),
                ns == names@.map_values(|s: String| s@),
                ns == position_names(self@),
                ns.to_set() == self@.positions.dom(),
                out@.map_values(|p: &Position| p@) == ns.take(i as int).map_values(
                    |n: Seq<char>| self@.positions[n],
                ),
                forall|j: int| 0 <= j < out@.len() ==> (#[trigger] out@[j]).wf(),
            decreases names.len() - i,
        {
            proof {
                assert(ns.to_set().contains(ns[i as int]));
                assert(names@[i as int]@ == ns[i as int]);
                assert(positions_of(self.positions).contains_key(ns[i as int]));
            }
            let ghost before = out@;
            let p = self.positions.get(names[i].as_str());
            match p {
                Some(p) => {
                    out.push(p);
                    assert(p@ == self@.positions[ns[i as int]]);
                    assert(out@.map_values(|p: &Position| p@) =~= before.map_values(
                        |p: &Position| p@,
                    ).push(p@));
                    assert(ns.take(i + 1).map_values(|n: Seq<char>| self@.positions[n])
                        =~= ns.take(i as int).map_values(|n: Seq<char>| self@.positions[n]).push(
                        self@.positions[ns[i as int]],
                    ));
                },
                None => {
                    proof {
                        assert(false);
                    }
                },
            }
            i = i + 1;
        }
        assert(ns.take(names.len() as int) == ns);
        out
    }

    /// The open positions, in increasing order of contract name.
    pub fn open_positions(&self) -> (r: Vec<&Position>)
        requires
            self.wf(),
        ensures
            r@.map_values(|p: &Position| p@) == open_names_of(self@, position_names(self@)).map_values(
                |n: Seq<char>| self@.positions[n],
            ),
            forall|i: int| 0 <= i < r@.len() ==> (#[trigger] r@[i]).wf(),
    {
        let names = self.sorted_position_names();
        let ghost ns = names@.map_values(|s: String| s@);
        let mut out: Vec<&Position> = Vec::new();
        let mut i: usize = 0;
        while i < names.len()
            invariant
                self.wf(),
                i <= names.len(),
                ns == names@.map_values(|s: String| s@),
                ns == position_names(self@),
                ns.to_set() == self@.positions.dom(),
                out@.map_values(|p: &Position| p@) == open_names_of(self@, ns.take(i as int)).map_values(
                    |n: Seq<char>| self@.positions[n],
                ),
                forall|j: int| 0 <= j < out@.len() ==> (#[trigger] out@[j]).wf(),
            decreases names.len() - i,
        {
            proof {
                assert(ns.to_set().contains(ns[i as int]));
                assert(names@[i as int]@ == ns[i as int]);
                assert(positions_of(self.positions).contains_key(ns[i as int]));
                assert(ns.take(i + 1).drop_last() == ns.take(i as int));
            }
            let ghost before = out@;
            let p = self.positions.get(names[i].as_str());
            match p {
                Some(p) => {
                    if p.is_open() {
                        out.push(p);
                        assert(p@ == self@.positions[ns[i as int]]);
                        assert(out@.map_values(|p: &Position| p@) =~= before.map_values(
                            |p: &Position| p@,
                        ).push(p@));
                    }
                    assert(ns.take(i + 1).last() == ns[i as int]);
                },
                None => {
                    proof {
                        assert(false);
                    }
                },
            }
            assert(out@.map_values(|p: &Position| p@) =~= open_names_of(self@, ns.take(i + 1)).map_values(
                |n: Seq<char>| self@.positions[n],
            ));
            i = i + 1;
        }
        assert(ns.take(names.len() as int) == ns);
        out
    }

    /// The cash balance plus the mark-to-market value of every open position
    /// against its quote of the day.
    pub fn unrealized_account_balance(&self) -> (r: Result<Money, BrokerError>)
        requires
            self.wf(),
        ensures
            match r {
                Ok(m) => unrealized_of(self@) == Ok::<int, BrokerError>(m@),
                Err(e) => unrealized_of(self@) == Err::<int, BrokerError>(e),
            },
    {
        let names = self.sorted_position_names();
        let ghost ns = names@.map_values(|s: String| s@);
        let mut total = self.balance;
        let mut i: usize = 0;
        while i < names.len()
            invariant
                self.wf(),
                i <= names.len(),
                ns == names@.map_values(|s: String| s@),
                ns == position_names(self@),
                ns.to_set() == self@.positions.dom(),
                marked_balance(self@, ns.take(i as int)) == Ok::<int, BrokerError>(total@),
            decreases names.len() - i,
        {
            proof {
                assert(ns.to_set().contains(ns[i as int]));
                assert(names@[i as int]@ == ns[i as int]);
                assert(positions_of(self.positions).contains_key(ns[i as int]));
                assert(ns.take(i + 1).drop_last() == ns.take(i as int));
            }
            let name = names[i].as_str();
            match self.positions.get(name) {
                Some(p) => {
                    if p.is_open() {
                        match self.quotes.get(name) {
                            None => {
                                proof {
                                    lemma_marked_error_stays(self@, ns, i as int + 1);
                                }
                                return Err(BrokerError::NoQuote);
                            },
                            Some(q) => match p.current_value(q) {
                                None => {
                                    proof {
                                        lemma_marked_error_stays(self@, ns, i as int + 1);
                                    }
                                    return Err(BrokerError::Overflow);
                                },
                                Some(x) => match total.checked_add(x) {
                                    Some(t) => {
                                        total = t;
                                    },
                                    None => {
                                        proof {
                                            lemma_marked_error_stays(self@, ns, i as int + 1);
                                        }
                                        return Err(BrokerError::Overflow);
                                    },
                                },
                            },
                        }
                    }
                },
                None => {
                    proof {
                        assert(false);
                    }
                },
            }
            i = i + 1;
        }
        assert(ns.take(names.len() as int) == ns);
        Ok(total)
    }

    /// Records new highs and lows of the cash balance and of the unrealized
    /// balance. Fails, changing nothing, when the unrealized balance cannot be
    /// computed.
    pub fn update_statistics(&mut self) -> (r: Result<(), BrokerError>)
        requires
            old(self).wf(),
        ensures
            final(self).wf(),
            final(self).schedule() == old(self).schedule(),
            match unrealized_of(old(self)@) {
                Ok(u) => r is Ok && final(self)@ == with_statistics(old(self)@, u),
                Err(e) => r == Err::<(), BrokerError>(e) && final(self)@ == old(self)@,
            },
    {
        let u = match self.unrealized_account_balance() {
            Ok(u) => u,
            Err(e) => {
                return Err(e);
            },
        };
        let current_value = self.balance;
        if current_value > self.highest_realized_account_balance {
            self.highest_realized_account_balance = current_value;
        } else if current_value < self.lowest_realized_account_balance {
            self.lowest_realized_account_balance = current_value;
        }
        if u > self.highest_unrealized_account_balance {
            self.highest_unrealized_account_balance = u;
        } else if u < self.lowest_unrealized_account_balance {
            self.lowest_unrealized_account_balance = u;
        }
        Ok(())
    }

    /// The day's quotes of `symbol` of kind `kind`, in increasing order of name.
    fn select_quotes(&self, symbol: &str, kind: Option<bool>) -> (r: Vec<Quote>)
        requires
            self.wf(),
        ensures
            r@.map_values(|q: Quote| q@) == quotes_of_symbol(self@, symbol@, kind),
    {
        let names = self.quotes.names();
        let sorted = sort_names(&names);
        let ghost ns = sorted@.map_values(|s: String| s@);
        proof {
            assert(quotes_of(self.quotes).dom() == self@.quotes.dom());
        }
        let mut out: Vec<Quote> = Vec::new();
        let mut i: usize = 0;
        while i < sorted.len()
            invariant
                self.wf(),
                i <= sorted.len(),
                ns == sorted@.map_values(|s: String| s@),
                ns == sorted_names(self@.quotes.dom()),
                ns.to_set() == self@.quotes.dom(),
                out@.map_values(|q: Quote| q@) == selected_quotes(self@, ns.take(i as int), symbol@, kind),
            decreases sorted.len() - i,
        {
            proof {
                assert(ns.to_set().contains(ns[i as int]));
                assert(sorted@[i as int]@ == ns[i as int]);
                assert(quotes_of(self.quotes).contains_key(ns[i as int]));
                assert(ns.take(i + 1).drop_last() == ns.take(i as int));
                assert(ns.take(i + 1).last() == ns[i as int]);
            }
            let ghost before = out@;
            match self.quotes.get(sorted[i].as_str()) {
                Some(q) => {
                    let keep = same_text(q.symbol(), symbol) && match kind {
                        Some(call) => q.is_call() == call,
                        None => true,
                    };
                    if keep {
                        out.push(q.clone());
                        assert(out@.map_values(|q: Quote| q@) =~= before.map_values(|q: Quote| q@).push(
                            q@,
                        ));
                    }
                },
                None => {
                    proof {
                        assert(false);
                    }
                },
            }
            i = i + 1;
        }
        assert(ns.take(sorted.len() as int) == ns);
        out
    }

    /// The day's quotes of `symbol`, in increasing order of contract name.
    pub fn quotes_for(&self, symbol: &str) -> (r: Vec<Quote>)
        requires
            self.wf(),
        ensures
            r@.map_values(|q: Quote| q@) == quotes_of_symbol(self@, symbol@, None),
    {
        self.select_quotes(symbol, None)
    }

    /// The day's call quotes of `symbol`, in increasing order of contract name.
    pub fn call_quotes_for(&self, symbol: &str) -> (r: Vec<Quote>)
        requires
            self.wf(),
        ensures
            r@.map_values(|q: Quote| q@) == quotes_of_symbol(self@, symbol@, Some(true)),
    {
        self.select_quotes(symbol, Some(true))
    }

    /// The day's put quotes of `symbol`, in increasing order of contract name.
    pub fn put_quotes_for(&self, symbol: &str) -> (r: Vec<Quote>)
        requires
            self.wf(),
        ensures
            r@.map_values(|q: Quote| q@) == quotes_of_symbol(self@, symbol@, Some(false)),
    {
        self.select_quotes(symbol, Some(false))
    }

    /// The day's quotes expiring strictly more than `min` and strictly fewer
    /// than `max` days from the current date, ordered by days to expiration,
    /// puts before calls, then strike (and, among equals, name).
    pub fn nearest_quotes_expiring_between_n_days(&self, min: i32, max: i32) -> (r: Vec<Quote>)
        requires
            self.wf(),
            0 <= min <= max,
        ensures
            forall|i: int|
                0 <= i < r@.len() ==> self@.quotes.contains_key((#[trigger] r@[i])@.name)
                    && r@[i]@ == self@.quotes[r@[i]@.name] && expires_within(
                    r@[i]@,
                    self@.current_date,
                    min as int,
                    max as int,
                ),
            forall|n: Seq<char>|
                self@.quotes.contains_key(n) && expires_within(
                    #[trigger] self@.quotes[n],
                    self@.current_date,
                    min as int,
                    max as int,
                ) ==> named_in(r@, n),
            in_expiry_order(r@),
            r@.map_values(|q: Quote| q@) == nearest_of(self@, min as int, max as int),
    {
        let names = self.quotes.names();
        let ghost ns = names@.map_values(|s: String| s@);
        let ghost d = self@.current_date;
        let date = self.current_date;
        proof {
            assert(quotes_of(self.quotes).dom() == self@.quotes.dom());
        }
        let mut out: Vec<Quote> = Vec::new();
        let mut i: usize = 0;
        while i < names.len()
            invariant
                self.wf(),
                date == self.current_date,
                d == self@.current_date,
                i <= names.len(),
                ns == names@.map_values(|s: String| s@),
                ns.to_set() == self@.quotes.dom(),
                ns.no_duplicates(),
                forall|a: int, b: int|
                    0 <= a < b < out@.len() ==> (#[trigger] out@[a])@.name != (#[trigger] out@[b])@.name,
                forall|k: int|
                    0 <= k < out@.len() ==> self@.quotes.contains_key((#[trigger] out@[k])@.name)
                        && out@[k]@ == self@.quotes[out@[k]@.name] && expires_within(
                        out@[k]@,
                        d,
                        min as int,
                        max as int,
                    ) && name_among(out@[k]@.name, ns, i as int),
                forall|m: int|
                    0 <= m < i && expires_within(self@.quotes[#[trigger] ns[m]], d, min as int, max as int)
                        ==> named_in(out@, ns[m]),
            decreases names.len() - i,
        {
            proof {
                assert(ns.to_set().contains(ns[i as int]));
                assert(names@[i as int]@ == ns[i as int]);
                assert(quotes_of(self.quotes).contains_key(ns[i as int]));
            }
            let q = match self.quotes.get(names[i].as_str()) {
                Some(q) => q,
                None => {
                    proof {
                        assert(false);
                    }
                    return out;
                },
            };
            let dte = q.days_to_expiration(date);
            let ghost ov = out@;
            if (min as i64) < dte && dte < (max as i64) {
                out.push(q.clone());
                proof {
                    let nv = out@;
                    assert(nv[ov.len() as int]@ == q@);
                    assert forall|a: int, b: int| 0 <= a < b < nv.len() implies (#[trigger] nv[a])@.name
                        != (#[trigger] nv[b])@.name by {
                        assert(nv[a] == ov[a]);
                        if b == ov.len() {
                            assert(name_among(ov[a]@.name, ns, i as int));
                            let m = choose|m: int| 0 <= m < i && ns[m] == ov[a]@.name;
                            assert(ns[m] != ns[i as int]);
                        } else {
                            assert(nv[b] == ov[b]);
                        }
                    }
                    assert forall|k: int|
                        0 <= k < nv.len() implies self@.quotes.contains_key((#[trigger] nv[k])@.name)
                            && nv[k]@ == self@.quotes[nv[k]@.name] && expires_within(
                            nv[k]@,
                            d,
                            min as int,
                            max as int,
                        ) && name_among(nv[k]@.name, ns, i + 1) by {
                        if k < ov.len() {
                            assert(nv[k] == ov[k]);
                            assert(name_among(ov[k]@.name, ns, i as int));
                            let m = choose|m: int| 0 <= m < i && ns[m] == ov[k]@.name;
                            assert(ns[m] == nv[k]@.name);
                        } else {
                            assert(ns[i as int] == nv[k]@.name);
                        }
                    }
                    assert forall|m: int|
                        0 <= m < i + 1 && expires_within(self@.quotes[#[trigger] ns[m]], d, min as int, max as int)
                        implies named_in(nv, ns[m]) by {
                        if m == i {
                            assert(nv[ov.len() as int]@.name == ns[m]);
                        } else {
                            assert(named_in(ov, ns[m]));
                            let k = choose|k: int| 0 <= k < ov.len() && ov[k]@.name == ns[m];
                            assert(nv[k] == ov[k]);
                        }
                    }
                }
            } else {
                proof {
                    assert forall|k: int| 0 <= k < out@.len() implies name_among(
                        (#[trigger] out@[k])@.name,
                        ns,
                        i + 1,
                    ) by {
                        assert(name_among(out@[k]@.name, ns, i as int));
                        let m = choose|m: int| 0 <= m < i && ns[m] == out@[k]@.name;
                    }
                }
            }
            i = i + 1;
        }
        let r = sort_by_expiry(&out);
        proof {
            assert forall|k: int|
                0 <= k < r@.len() implies self@.quotes.contains_key((#[trigger] r@[k])@.name)
                    && r@[k]@ == self@.quotes[r@[k]@.name] && expires_within(
                    r@[k]@,
                    self@.current_date,
                    min as int,
                    max as int,
                ) by {
                assert(quote_among(r@[k]@, out@, out@.len() as int));
                let j = choose|j: int| 0 <= j < out@.len() && out@[j]@ == r@[k]@;
                assert(self@.quotes.contains_key(out@[j]@.name));
            }
            assert forall|n: Seq<char>|
                self@.quotes.contains_key(n) && expires_within(
                    #[trigger] self@.quotes[n],
                    self@.current_date,
                    min as int,
                    max as int,
                ) implies named_in(r@, n) by {
                assert(ns.to_set().contains(n));
                let m = choose|m: int| 0 <= m < ns.len() && ns[m] == n;
                assert(named_in(out@, ns[m]));
                let k = choose|k: int| 0 <= k < out@.len() && out@[k]@.name == ns[m];
                assert(quote_among(out@[k]@, r@, r@.len() as int));
                let k2 = choose|j: int| 0 <= j < r@.len() && r@[j]@ == out@[k]@;
                assert(r@[k2]@.name == n);
            }
            let rv = r@.map_values(|q: Quote| q@);
            let (lo, hi) = (min as int, max as int);
            assert(strictly_before_sorted(rv)) by {
                assert forall|a: int, b: int| 0 <= a < b < rv.len() implies quote_before(
                    #[trigger] rv[a],
                    #[trigger] rv[b],
                ) by {
                    assert(quote_before(r@[a]@, r@[b]@));
                }
            }
            assert forall|x: QuoteView| #[trigger] rv.contains(x) <==> in_window(self@, x, lo, hi) by {
                if rv.contains(x) {
                    let k = choose|k: int| 0 <= k < rv.len() && rv[k] == x;
                    assert(r@[k]@ == x);
                }
                if in_window(self@, x, lo, hi) {
                    assert(named_in(r@, x.name));
                    let k = choose|k: int| 0 <= k < r@.len() && r@[k]@.name == x.name;
                    assert(rv[k] == x);
                }
            }
            let q = nearest_of(self@, lo, hi);
            assert(strictly_before_sorted(q) && forall|x: QuoteView| #[trigger]
                q.contains(x) <==> in_window(self@, x, lo, hi));
            assert forall|x: QuoteView| #[trigger] rv.contains(x) implies q.contains(x) by {
                assert(in_window(self@, x, lo, hi));
            }
            assert forall|x: QuoteView| #[trigger] q.contains(x) implies rv.contains(x) by {
                assert(in_window(self@, x, lo, hi));
            }
            lemma_quote_order_unique(rv, q);
        }
        r
    }

    /// Closes every position due under `cutoff` at its quote of the day,
    /// each fill marked as forced by the broker.
    fn close_positions(&mut self, cutoff: Option<Date>) -> (r: Result<(), BrokerError>)
        requires
            old(self).wf(),
        ensures
            final(self).wf(),
            final(self).schedule() == old(self).schedule(),
            match close_out(
                old(self).schedule(),
                old(self)@,
                match cutoff {
                    Some(d) => Some(d.days as int),
                    None => None,
                },
            ) {
                Ok(w) => r is Ok && final(self)@ == w,
                Err(e) => r == Err::<(), BrokerError>(e),
            },
            final(self)@ == close_out_reached(
                old(self).schedule(),
                old(self)@,
                match cutoff {
                    Some(d) => Some(d.days as int),
                    None => None,
                },
            ),
            cutoff is None && r is Ok ==> forall|k: Seq<char>| #[trigger]
                final(self)@.positions.contains_key(k) ==> !due_for_close(final(self)@.positions[k], None),
            r is Ok ==> final(self)@.positions.dom() == old(self)@.positions.dom(),
            r is Ok ==> forall|k: Seq<char>| #[trigger]
                final(self)@.positions.contains_key(k) ==> if due_for_close(
                    old(self)@.positions[k],
                    match cutoff {
                        Some(d) => Some(d.days as int),
                        None => None,
                    },
                ) {
                    closed_out_by_broker(old(self)@.positions[k], final(self)@.positions[k], old(self)@.quotes[k])
                } else {
                    final(self)@.positions[k] == old(self)@.positions[k]
                },
    {
        let ghost c = match cutoff {
            Some(d) => Some(d.days as int),
            None => None,
        };
        let ghost v0 = self@;
        let names = self.sorted_position_names();
        let ghost ns = names@.map_values(|s: String| s@);
        let mut closes: Vec<(Order, Quote)> = Vec::new();
        let mut i: usize = 0;
        assert(ns.take(0).len() == 0);
        assert(closes@.map_values(|x: (Order, Quote)| (x.0@, x.1@)) =~= Seq::<(OrderView, QuoteView)>::empty());
        while i < names.len()
            invariant
                self.wf(),
                self@ == v0,
                c == match cutoff {
                    Some(d) => Some(d.days as int),
                    None => None,
                },
                i <= names.len(),
                ns == names@.map_values(|s: String| s@),
                ns == position_names(v0),
                ns.to_set() == v0.positions.dom(),
                closes_of(v0, ns.take(i as int), c) == Ok::<Seq<(OrderView, QuoteView)>, BrokerError>(
                    closes@.map_values(|x: (Order, Quote)| (x.0@, x.1@)),
                ),
                forall|j: int| 0 <= j < closes@.len() ==> (#[trigger] closes@[j]).0@.name == closes@[j].1@.name,
            decreases names.len() - i,
        {
            proof {
                assert(ns.to_set().contains(ns[i as int]));
                assert(names@[i as int]@ == ns[i as int]);
                assert(positions_of(self.positions).contains_key(ns[i as int]));
                assert(ns.take(i + 1).drop_last() == ns.take(i as int));
                assert(ns.take(i + 1).last() == ns[i as int]);
            }
            let name = names[i].as_str();
            let p = match self.positions.get(name) {
                Some(p) => p,
                None => {
                    proof {
                        assert(false);
                    }
                    return Err(BrokerError::NoQuote);
                },
            };
            assert(p@ == v0.positions[ns[i as int]]);
            let due = p.is_open() && p.quantity() != 0 && match cutoff {
                Some(d) => p.is_expired(d),
                None => true,
            };
            assert(due == due_for_close(v0.positions[ns[i as int]], c));
            if due {
                let q = match self.quotes.get(name) {
                    Some(q) => q,
                    None => {
                        proof {
                            assert(!v0.quotes.contains_key(ns[i as int]));
                            assert(closes_of(v0, ns.take(i + 1), c) == Err::<Seq<(OrderView, QuoteView)>, BrokerError>(BrokerError::NoQuote));
                            lemma_closes_error_stays(v0, ns, c, i as int + 1);
                        }
                        return Err(BrokerError::NoQuote);
                    },
                };
                let held = p.quantity() as i128;
                let size: i128 = if held > 0 { held } else { -held };
                if size > i32::MAX as i128 {
                    proof {
                        assert(closes_of(v0, ns.take(i + 1), c) == Err::<Seq<(OrderView, QuoteView)>, BrokerError>(BrokerError::Overflow));
                        lemma_closes_error_stays(v0, ns, c, i as int + 1);
                    }
                    return Err(BrokerError::Overflow);
                }
                let order = if p.is_long() {
                    Order::new_sell_close_order(q, size as i32, q.bid())
                } else {
                    Order::new_buy_close_order(q, size as i32, q.ask())
                };
                let ghost before = closes@;
                closes.push((order, q.clone()));
                proof {
                    assert(closes@.map_values(|x: (Order, Quote)| (x.0@, x.1@)) =~= before.map_values(
                        |x: (Order, Quote)| (x.0@, x.1@),
                    ).push((closes@.last().0@, closes@.last().1@)));
                }
            }
            i = i + 1;
        }
        proof {
            assert(ns.take(names.len() as int) == ns);
        }
        let ghost cs = closes@.map_values(|x: (Order, Quote)| (x.0@, x.1@));
        assert(cs.take(0) =~= Seq::<(OrderView, QuoteView)>::empty());
        assert forall|n: Seq<char>| #[trigger] v0.quotes.contains_key(n) implies v0.quotes[n].name == n by {
            assert(quotes_of(self.quotes).contains_key(n));
        }
        let mut j: usize = 0;
        while j < closes.len()
            invariant
                self.wf(),
                self.schedule() == old(self).schedule(),
                v0 == old(self)@,
                c == match cutoff {
                    Some(d) => Some(d.days as int),
                    None => None,
                },
                close_out(old(self).schedule(), v0, c) == forced_fills(old(self).schedule(), v0, cs),
                close_out_reached(old(self).schedule(), v0, c) == forced_reached(old(self).schedule(), v0, cs),
                ns == position_names(v0),
                ns.no_duplicates(),
                ns.to_set() == v0.positions.dom(),
                forall|n: Seq<char>| #[trigger] v0.quotes.contains_key(n) ==> v0.quotes[n].name == n,
                j <= closes.len(),
                cs == closes@.map_values(|x: (Order, Quote)| (x.0@, x.1@)),
                forall|k: int| 0 <= k < closes@.len() ==> (#[trigger] closes@[k]).0@.name == closes@[k].1@.name,
                forced_fills(old(self).schedule(), v0, cs.take(j as int)) == Ok::<BrokerView, BrokerError>(self@),
            decreases closes.len() - j,
        {
            proof {
                assert(cs.take(j + 1).drop_last() == cs.take(j as int));
                assert(cs.take(j + 1).last() == cs[j as int]);
            }
            let order = closes[j].0.clone();
            let quote = &closes[j].1;
            match self.fill_order(order, quote, true) {
                Ok(_) => {},
                Err(e) => {
                    proof {
                        assert(forced_fills(old(self).schedule(), v0, cs.take(j + 1)) == Err::<BrokerView, BrokerError>(e));
                        lemma_forced_error_stays(old(self).schedule(), v0, cs, j as int + 1);
                        lemma_forced_reached_at_error(old(self).schedule(), v0, cs, j as int);
                    }
                    return Err(e);
                },
            }
            j = j + 1;
        }
        proof {
            assert(cs.take(closes.len() as int) == cs);
            lemma_forced_reached_ok(old(self).schedule(), v0, cs);
            lemma_close_out_closes_due(old(self).schedule(), v0, c);
            if cutoff is None {
                lemma_close_out_leaves_none_due(old(self).schedule(), v0);
            }
        }
        Ok(())
    }

    /// Closes every open position at its quote of the day.
    pub fn close_all_open_positions(&mut self) -> (r: Result<(), BrokerError>)
        requires
            old(self).wf(),
        ensures
            final(self).wf(),
            final(self).schedule() == old(self).schedule(),
            match close_out(old(self).schedule(), old(self)@, None) {
                Ok(w) => r is Ok && final(self)@ == w,
                Err(e) => r == Err::<(), BrokerError>(e),
            },
            final(self)@ == close_out_reached(old(self).schedule(), old(self)@, None),
            r is Ok ==> forall|k: Seq<char>| #[trigger]
                final(self)@.positions.contains_key(k) ==> !due_for_close(final(self)@.positions[k], None),
    {
        self.close_positions(None)
    }

    /// Starts a day of ingestion: records the statistics, replaces the quote
    /// book with an empty one sized for the busiest day so far, and applies
    /// the quote carried over from the previous day. Fails, changing nothing,
    /// when the unrealized balance cannot be computed.
    pub fn begin_day(&mut self) -> (r: Result<(), BrokerError>)
        requires
            old(self).wf(),
        ensures
            final(self).wf(),
            final(self).schedule() == old(self).schedule(),
            match unrealized_of(old(self)@) {
                Ok(u) => r is Ok && final(self)@ == begun(with_statistics(old(self)@, u)),
                Err(e) => r == Err::<(), BrokerError>(e) && final(self)@ == old(self)@,
            },
    {
        match self.update_statistics() {
            Ok(()) => {},
            Err(e) => {
                return Err(e);
            },
        }
        self.quotes = QuoteBook::with_capacity(self.quote_map_capacity);
        self.awaiting_first_quote = true;
        let carried = self.carried_over_quote.take();
        match carried {
            Some(q) => {
                self.record_quote(q);
            },
            None => {},
        }
        proof {
            assert(self@.quotes =~= begun(with_statistics(old(self)@, unrealized_of(old(self)@)->Ok_0)).quotes);
            assert(self@.underlying =~= begun(with_statistics(old(self)@, unrealized_of(old(self)@)->Ok_0)).underlying);
        }
        Ok(())
    }

    /// Records a quote of the current day: its underlying price, the date,
    /// the quote itself, and one more quote processed.
    fn record_quote(&mut self, quote: Quote)
        requires
            old(self).wf(),
        ensures
            final(self).wf(),
            final(self).schedule() == old(self).schedule(),
            final(self)@ == after_record(old(self)@, quote@),
    {
        self.underlying_prices.insert(String::from_str(quote.symbol()), quote.underlying_price());
        self.current_date = quote.date();
        if self.quotes_processed < u64::MAX {
            self.quotes_processed = self.quotes_processed + 1;
        }
        let ghost qv = quote@;
        self.quotes.insert(String::from_str(quote.name()), quote);
        proof {
            assert(self@.quotes =~= old(self)@.quotes.insert(qv.name, qv));
            assert(self@.underlying =~= old(self)@.underlying.insert(qv.symbol, qv.underlying));
        }
    }

    /// Takes the next quote of the feed. The first quote of a day only seeds
    /// the date and the book. A quote of a later day ends the day: expired
    /// positions are closed against the day's last quotes, the statistics are
    /// recorded, the capacity hint grows to the day's number of contracts, and
    /// the quote is kept for the next day; the result is then `true`.
    /// Otherwise the quote is recorded and the result is `false`.
    pub fn ingest(&mut self, quote: Quote) -> (r: Result<bool, BrokerError>)
        requires
            old(self).wf(),
        ensures
            final(self).wf(),
            final(self).schedule() == old(self).schedule(),
            old(self)@.awaiting_first ==> r == Ok::<bool, BrokerError>(false) && final(self)@ == (
            BrokerView {
                current_date: quote@.date,
                quotes: old(self)@.quotes.insert(quote@.name, quote@),
                awaiting_first: false,
                ..old(self)@
            }),
            !old(self)@.awaiting_first && quote@.date == old(self)@.current_date ==> r == Ok::<
                bool,
                BrokerError,
            >(false) && final(self)@ == after_record(old(self)@, quote@),
            !old(self)@.awaiting_first && quote@.date != old(self)@.current_date ==> match close_out(
                old(self).schedule(),
                old(self)@,
                Some(quote@.date),
            ) {
                Err(e) => r == Err::<bool, BrokerError>(e) && final(self)@ == close_out_reached(
                    old(self).schedule(),
                    old(self)@,
                    Some(quote@.date),
                ),
                Ok(w) => match unrealized_of(w) {
                    Err(e) => r == Err::<bool, BrokerError>(e) && final(self)@ == w,
                    Ok(u) => r == Ok::<bool, BrokerError>(true) && final(self)@ == (BrokerView {
                        quote_capacity: if w.quotes.len() > w.quote_capacity {
                            w.quotes.len() as int
                        } else {
                            w.quote_capacity
                        },
                        carried_over: Some(quote@),
                        ..with_statistics(w, u)
                    }),
                },
            },
            !old(self)@.awaiting_first && quote@.date != old(self)@.current_date && r is Ok ==> {
                &&& final(self)@.positions.dom() == old(self)@.positions.dom()
                &&& forall|k: Seq<char>| #[trigger]
                    final(self)@.positions.contains_key(k) ==> if due_for_close(
                        old(self)@.positions[k],
                        Some(quote@.date),
                    ) {
                        closed_out_by_broker(
                            old(self)@.positions[k],
                            final(self)@.positions[k],
                            old(self)@.quotes[k],
                        )
                    } else {
                        final(self)@.positions[k] == old(self)@.positions[k]
                    }
            },
    {
        if self.awaiting_first_quote {
            self.current_date = quote.date();
            let ghost qv = quote@;
            self.quotes.insert(String::from_str(quote.name()), quote);
            self.awaiting_first_quote = false;
            proof {
                assert(self@.quotes =~= old(self)@.quotes.insert(qv.name, qv));
            }
            return Ok(false);
        }
        if quote.date() != self.current_date {
            match self.close_positions(Some(quote.date())) {
                Ok(()) => {},
                Err(e) => {
                    return Err(e);
                },
            }
            match self.update_statistics() {
                Ok(()) => {},
                Err(e) => {
                    return Err(e);
                },
            }
            let key_count = self.quotes.len();
            assert(self@.quotes.dom() =~= quotes_of(self.quotes).dom());
            if key_count > self.quote_map_capacity {
                self.quote_map_capacity = key_count;
            }
            self.carried_over_quote = Some(quote);
            return Ok(true);
        }
        self.record_quote(quote);
        Ok(false)
    }

    /// Ends the simulation once the feed is exhausted: records the final
    /// unrealized balance, grows the capacity hint to the last day's number of
    /// contracts, then closes every open position.
    pub fn finish(&mut self) -> (r: Result<(), BrokerError>)
        requires
            old(self).wf(),
        ensures
            final(self).wf(),
            final(self).schedule() == old(self).schedule(),
            match unrealized_of(old(self)@) {
                Err(e) => r == Err::<(), BrokerError>(e) && final(self)@ == old(self)@,
                Ok(u) => match close_out(
                    old(self).schedule(),
                    BrokerView {
                        final_unrealized: u,
                        quote_capacity: if old(self)@.quotes.len() > old(self)@.quote_capacity {
                            old(self)@.quotes.len() as int
                        } else {
                            old(self)@.quote_capacity
                        },
                        ..old(self)@
                    },
                    None,
                ) {
                    Ok(w) => r is Ok && final(self)@ == w,
                    Err(e) => r == Err::<(), BrokerError>(e) && final(self)@ == close_out_reached(
                        old(self).schedule(),
                        BrokerView {
                            final_unrealized: u,
                            quote_capacity: if old(self)@.quotes.len() > old(self)@.quote_capacity {
                                old(self)@.quotes.len() as int
                            } else {
                                old(self)@.quote_capacity
                            },
                            ..old(self)@
                        },
                        None,
                    ),
                },
            },
            r is Ok ==> forall|k: Seq<char>| #[trigger]
                final(self)@.positions.contains_key(k) ==> !due_for_close(final(self)@.positions[k], None),
    {
        let u = match self.unrealized_account_balance() {
            Ok(u) => u,
            Err(e) => {
                return Err(e);
            },
        };
        self.final_unrealized_account_balance = u;
        let key_count = self.quotes.len();
        assert(self@.quotes.dom() =~= quotes_of(self.quotes).dom());
        if key_count > self.quote_map_capacity {
            self.quote_map_capacity = key_count;
        }
        self.close_positions(None)
    }

    /// Fills `order` against `quote` at its midpoint on the current date,
    /// charges commission and books the result.
    fn fill_order(&mut self, order: Order, quote: &Quote, forced: bool) -> (r: Result<
        Margin,
        BrokerError,
    >)
        requires
            old(self).wf(),
            order@.name == quote@.name,
        ensures
            final(self).wf(),
            final(self).schedule() == old(self).schedule(),
            match fill_step(old(self)@, quote@, old(self).fill_for(order@, quote@, forced), forced) {
                Ok((w, m)) => r == Ok::<Margin, BrokerError>(m) && final(self)@ == w,
                Err(e) => r == Err::<Margin, BrokerError>(e) && final(self)@ == old(self)@,
            },
    {
        let ghost f0 = old(self).fill_for(order@, quote@, forced);
        let fill_price = quote.midpoint_price();
        let quantity = order.quantity();
        proof {
            assert(-(MONEY_MAX as int) * 100 * 0x8000_0000 <= fill_price@ * 100 * quantity <= (
            MONEY_MAX as int) * 100 * 0x8000_0000) by (nonlinear_arith)
                requires
                    in_money_range(fill_price@),
                    0 < quantity <= 0x8000_0000,
            ;
        }
        let cost = (fill_price.raw_value() as i128) * 100 * (quantity as i128);
        if cost < -(MONEY_MAX as i128) || cost > MONEY_MAX as i128 {
            return Err(BrokerError::Overflow);
        }
        let mut filled = FilledOrder::new(order, quote, fill_price, self.current_date);
        let commission = self.commission_schedule.commission_for(&filled);
        filled.set_commission(commission);
        if forced {
            filled.set_closed_by_broker();
        }
        assert(filled@ == f0);
        let accepted = match self.positions.get(quote.name()) {
            Some(p) => p.accepts(&filled),
            None => {
                let fresh = Position::new(quote);
                fresh.accepts(&filled)
            },
        };
        if !accepted {
            return Err(BrokerError::Overflow);
        }
        let flow = filled.canonical_cost_basis();
        let nb = self.balance.raw_value() as i128 + flow.raw_value() as i128 - commission.raw_value()
            as i128;
        if nb < -(MONEY_MAX as i128) || nb > MONEY_MAX as i128 {
            return Err(BrokerError::Overflow);
        }
        let new_balance = Money::from_cents(nb as i64);
        let new_paid = match self.commission_paid.checked_add(commission) {
            Some(p) => p,
            None => {
                return Err(BrokerError::Overflow);
            },
        };
        let required = (filled.cost_basis().raw_value() as i128) + (commission.raw_value() as i128);
        let margin = if filled.is_buy() && required > self.balance.raw_value() as i128 {
            Margin::Insufficient
        } else {
            Margin::Covered
        };
        if !forced && margin == Margin::Insufficient && self.margin_policy == MarginPolicy::Reject {
            return Err(BrokerError::InsufficientFunds);
        }
        let ghost v0 = self@;
        let ghost pb0 = positions_of(self.positions);
        let mut position = match self.positions.remove(quote.name()) {
            Some(p) => p,
            None => Position::new(quote),
        };
        assert(position@ == target_position(v0, quote@));
        self.orders.push(filled.clone());
        position.apply_order(filled);
        let ghost pv = position@;
        self.positions.insert(String::from_str(quote.name()), position);
        self.balance = new_balance;
        self.commission_paid = new_paid;
        proof {
            let pb = positions_of(self.positions);
            assert(pb == pb0.remove(quote@.name).insert(quote@.name, position));
            assert(pb.map_values(|p: Position| p@) =~= v0.positions.insert(quote@.name, pv));
            assert(self@.fills =~= v0.fills.push(f0));
            assert forall|k: Seq<char>| #[trigger]
                pb.contains_key(k) implies pb[k].wf() && pb[k]@.name == k by {
                if k != quote@.name {
                    assert(pb0.contains_key(k));
                }
            }
        }
        Ok(margin)
    }
}

/// Whether `s` is in the order of `quote_before`.
pub open spec fn in_expiry_order(s: Seq<Quote>) -> bool {
    forall|a: int, b: int| 0 <= a < b < s.len() ==> quote_before((#[trigger] s[a])@, (#[trigger] s[b])@)
}

proof fn lemma_insert_keeps_order(ov: Seq<Quote>, p: int, x: Quote, nv: Seq<Quote>)
    requires
        0 <= p <= ov.len(),
        nv == ov.insert(p, x),
        in_expiry_order(ov),
        forall|k: int| 0 <= k < p ==> quote_before((#[trigger] ov[k])@, x@),
        forall|k: int| p <= k < ov.len() ==> quote_before(x@, (#[trigger] ov[k])@),
    ensures
        in_expiry_order(nv),
{
    assert forall|a: int, b: int| 0 <= a < b < nv.len() implies quote_before(
        (#[trigger] nv[a])@,
        (#[trigger] nv[b])@,
    ) by {
        if a < p && b < p {
            assert(nv[a] == ov[a] && nv[b] == ov[b]);
        } else if a < p && b == p {
            assert(nv[a] == ov[a]);
        } else if a < p {
            assert(nv[a] == ov[a] && nv[b] == ov[b - 1]);
        } else if a == p {
            assert(nv[b] == ov[b - 1]);
        } else {
            assert(nv[a] == ov[a - 1] && nv[b] == ov[b - 1]);
        }
    }
}

/// Whether a quote with view `x` is among the first `n` of `s`.
pub open spec fn quote_among(x: QuoteView, s: Seq<Quote>, n: int) -> bool {
    exists|j: int| 0 <= j < n && s[j]@ == x
}

/// Whether a quote named `name` is in `s`.
pub open spec fn named_in(s: Seq<Quote>, name: Seq<char>) -> bool {
    exists|k: int| 0 <= k < s.len() && s[k]@.name == name
}

/// Whether `name` is among the first `n` of `names`.
pub open spec fn name_among(name: Seq<char>, names: Seq<Seq<char>>, n: int) -> bool {
    exists|m: int| 0 <= m < n && names[m] == name
}

proof fn lemma_new_name(ov: Seq<Quote>, all: Seq<Quote>, i: int)
    requires
        0 <= i < all.len(),
        forall|a: int, b: int| 0 <= a < b < all.len() ==> (#[trigger] all[a])@.name != (#[trigger] all[b])@.name,
        forall|k: int| 0 <= k < ov.len() ==> quote_among((#[trigger] ov[k])@, all, i),
    ensures
        forall|k: int| 0 <= k < ov.len() ==> (#[trigger] ov[k])@.name != all[i]@.name,
{
    assert forall|k: int| 0 <= k < ov.len() implies (#[trigger] ov[k])@.name != all[i]@.name by {
        assert(quote_among(ov[k]@, all, i));
        let j = choose|j: int| 0 <= j < i && all[j]@ == ov[k]@;
        assert(all[j]@.name != all[i]@.name);
    }
}

proof fn lemma_rest_after(ov: Seq<Quote>, p: int, xv: QuoteView)
    requires
        0 <= p <= ov.len(),
        in_expiry_order(ov),
        forall|k: int| 0 <= k < ov.len() ==> (#[trigger] ov[k])@.name != xv.name,
        p < ov.len() ==> !quote_before(ov[p]@, xv),
    ensures
        forall|k: int| p <= k < ov.len() ==> quote_before(xv, (#[trigger] ov[k])@),
{
    if p < ov.len() {
        lemma_quote_before_total(ov[p]@, xv);
        assert forall|k: int| p <= k < ov.len() implies quote_before(xv, (#[trigger] ov[k])@) by {
            if k > p {
                lemma_quote_before_transitive(xv, ov[p]@, ov[k]@);
            }
        }
    }
}

proof fn lemma_insert_keeps_members(
    ov: Seq<Quote>,
    p: int,
    x: Quote,
    nv: Seq<Quote>,
    all: Seq<Quote>,
    i: int,
)
    requires
        0 <= p <= ov.len(),
        0 <= i < all.len(),
        nv == ov.insert(p, x),
        x@ == all[i]@,
        forall|k: int| 0 <= k < ov.len() ==> quote_among((#[trigger] ov[k])@, all, i),
        forall|j: int| 0 <= j < i ==> quote_among((#[trigger] all[j])@, ov, ov.len() as int),
    ensures
        forall|k: int| 0 <= k < nv.len() ==> quote_among((#[trigger] nv[k])@, all, i + 1),
        forall|j: int| 0 <= j < i + 1 ==> quote_among((#[trigger] all[j])@, nv, nv.len() as int),
{
    assert forall|k: int| 0 <= k < nv.len() implies quote_among((#[trigger] nv[k])@, all, i + 1) by {
        if k < p {
            assert(nv[k] == ov[k]);
            assert(quote_among(ov[k]@, all, i));
            let j = choose|j: int| 0 <= j < i && all[j]@ == ov[k]@;
            assert(all[j]@ == nv[k]@);
        } else if k == p {
            assert(all[i]@ == nv[k]@);
        } else {
            assert(nv[k] == ov[k - 1]);
            assert(quote_among(ov[k - 1]@, all, i));
            let j = choose|j: int| 0 <= j < i && all[j]@ == ov[k - 1]@;
            assert(all[j]@ == nv[k]@);
        }
    }
    assert forall|j: int| 0 <= j < i + 1 implies quote_among((#[trigger] all[j])@, nv, nv.len() as int) by {
        if j == i {
            assert(nv[p]@ == all[j]@);
        } else {
            assert(quote_among(all[j]@, ov, ov.len() as int));
            let k = choose|k: int| 0 <= k < ov.len() && ov[k]@ == all[j]@;
            if k < p {
                assert(nv[k] == ov[k]);
            } else {
                assert(nv[k + 1] == ov[k]);
            }
        }
    }
}

/// Inserts `x` into `out`, which is in the order of `quote_before` and has no
/// quote named as `x`, where it keeps that order; returns its position.
fn insert_in_order(out: &mut Vec<Quote>, x: Quote) -> (p: usize)
    requires
        in_expiry_order(old(out)@),
        forall|k: int| 0 <= k < old(out)@.len() ==> (#[trigger] old(out)@[k])@.name != x@.name,
    ensures
        p <= old(out)@.len(),
        final(out)@ == old(out)@.insert(p as int, x),
        in_expiry_order(final(out)@),
{
    let ghost ov = out@;
    let ghost xv = x@;
    let mut p: usize = 0;
    while p < out.len() && quote_earlier(&out[p], &x)
        invariant
            p <= out.len(),
            ov == out@,
            xv == x@,
            forall|k: int| 0 <= k < p ==> quote_before((#[trigger] ov[k])@, xv),
        decreases out.len() - p,
    {
        p = p + 1;
    }
    proof {
        lemma_rest_after(ov, p as int, xv);
    }
    out.insert(p, x);
    proof {
        lemma_insert_keeps_order(ov, p as int, out@[p as int], out@);
    }
    p
}

/// `quotes`, whose names are distinct, in the order of `quote_before`.
fn sort_by_expiry(quotes: &Vec<Quote>) -> (r: Vec<Quote>)
    requires
        forall|a: int, b: int|
            0 <= a < b < quotes@.len() ==> (#[trigger] quotes@[a])@.name != (#[trigger] quotes@[b])@.name,
    ensures
        forall|k: int| 0 <= k < r@.len() ==> quote_among((#[trigger] r@[k])@, quotes@, quotes@.len() as int),
        forall|j: int| 0 <= j < quotes@.len() ==> quote_among((#[trigger] quotes@[j])@, r@, r@.len() as int),
        in_expiry_order(r@),
{
    let mut out: Vec<Quote> = Vec::new();
    let mut i: usize = 0;
    while i < quotes.len()
        invariant
            i <= quotes.len(),
            forall|a: int, b: int|
                0 <= a < b < quotes@.len() ==> (#[trigger] quotes@[a])@.name != (#[trigger] quotes@[b])@.name,
            forall|k: int| 0 <= k < out@.len() ==> quote_among((#[trigger] out@[k])@, quotes@, i as int),
            forall|j: int| 0 <= j < i ==> quote_among((#[trigger] quotes@[j])@, out@, out@.len() as int),
            in_expiry_order(out@),
        decreases quotes.len() - i,
    {
        let x = quotes[i].clone();
        let ghost ov = out@;
        let ghost xg = x;
        proof {
            lemma_new_name(ov, quotes@, i as int);
        }
        let p = insert_in_order(&mut out, x);
        proof {
            lemma_insert_keeps_members(ov, p as int, xg, out@, quotes@, i as int);
        }
        i = i + 1;
    }
    out
}

/// Whether `a` comes before `b` in the order of `quote_before`.
fn quote_earlier(a: &Quote, b: &Quote) -> (r: bool)
    ensures
        r == quote_before(a@, b@),
{
    let ea = a.expiration_date().days();
    let eb = b.expiration_date().days();
    if ea != eb {
        return ea < eb;
    }
    if a.is_call() != b.is_call() {
        return !a.is_call();
    }
    let sa = a.strike_price();
    let sb = b.strike_price();
    if sa != sb {
        return sa < sb;
    }
    crate::names::text_less(a.name(), b.name())
}

/// Where every order succeeds, the ledger reached is the outcome's.
proof fn lemma_orders_reached_ok<C: Commission>(sched: C, v: BrokerView, os: Seq<OrderView>)
    requires
        orders_outcome(sched, v, os) is Ok,
    ensures
        orders_reached(sched, v, os) == orders_outcome(sched, v, os)->Ok_0.0,
{
    if os.len() > 0 {
        assert(orders_outcome(sched, v, os.drop_last()) is Ok);
    }
}

/// Where the first `i` orders succeed and the next fails, the ledger reached
/// is the one after those `i`.
proof fn lemma_orders_reached_at_error<C: Commission>(
    sched: C,
    v: BrokerView,
    os: Seq<OrderView>,
    i: int,
)
    requires
        0 <= i < os.len(),
        orders_outcome(sched, v, os.take(i)) is Ok,
        orders_outcome(sched, v, os.take(i + 1)) is Err,
    ensures
        orders_reached(sched, v, os) == orders_outcome(sched, v, os.take(i))->Ok_0.0,
    decreases os.len() - i,
{
    let w = orders_outcome(sched, v, os.take(i))->Ok_0.0;
    assert(os.take(i + 1).drop_last() == os.take(i));
    assert(orders_reached(sched, v, os.take(i + 1)) == w);
    lemma_reached_stays(sched, v, os, i + 1);
}

/// Past a failing prefix, placing more orders reaches no further.
proof fn lemma_reached_stays<C: Commission>(sched: C, v: BrokerView, os: Seq<OrderView>, k: int)
    requires
        0 <= k <= os.len(),
        orders_outcome(sched, v, os.take(k)) is Err,
    ensures
        orders_reached(sched, v, os) == orders_reached(sched, v, os.take(k)),
    decreases os.len() - k,
{
    if k < os.len() {
        assert(os.take(k + 1).drop_last() == os.take(k));
        lemma_orders_error_stays(sched, v, os.take(k + 1), k);
        assert(os.take(k + 1).take(k) == os.take(k));
        lemma_reached_stays(sched, v, os, k + 1);
    } else {
        assert(os.take(k) == os);
    }
}

/// Once placing orders fails, placing them all fails the same way.
proof fn lemma_orders_error_stays<C: Commission>(
    sched: C,
    v: BrokerView,
    os: Seq<OrderView>,
    k: int,
)
    requires
        0 <= k <= os.len(),
        orders_outcome(sched, v, os.take(k)) is Err,
    ensures
        orders_outcome(sched, v, os) == orders_outcome(sched, v, os.take(k)),
    decreases os.len() - k,
{
    if k < os.len() {
        assert(os.take(k + 1).drop_last() == os.take(k));
        lemma_orders_error_stays(sched, v, os, k + 1);
    } else {
        assert(os.take(k) == os);
    }
}

/// Where every forced fill succeeds, the ledger reached is their outcome.
proof fn lemma_forced_reached_ok<C: Commission>(sched: C, v: BrokerView, cs: Seq<(OrderView, QuoteView)>)
    requires
        forced_fills(sched, v, cs) is Ok,
    ensures
        forced_reached(sched, v, cs) == forced_fills(sched, v, cs)->Ok_0,
{
    if cs.len() > 0 {
        assert(forced_fills(sched, v, cs.drop_last()) is Ok);
    }
}

/// Where the first `i` forced fills succeed and the next fails, the ledger
/// reached is the one after those `i`.
proof fn lemma_forced_reached_at_error<C: Commission>(
    sched: C,
    v: BrokerView,
    cs: Seq<(OrderView, QuoteView)>,
    i: int,
)
    requires
        0 <= i < cs.len(),
        forced_fills(sched, v, cs.take(i)) is Ok,
        forced_fills(sched, v, cs.take(i + 1)) is Err,
    ensures
        forced_reached(sched, v, cs) == forced_fills(sched, v, cs.take(i))->Ok_0,
{
    assert(cs.take(i + 1).drop_last() == cs.take(i));
    lemma_forced_reached_stays(sched, v, cs, i + 1);
}

/// Past a failing prefix, more forced fills reach no further.
proof fn lemma_forced_reached_stays<C: Commission>(
    sched: C,
    v: BrokerView,
    cs: Seq<(OrderView, QuoteView)>,
    k: int,
)
    requires
        0 <= k <= cs.len(),
        forced_fills(sched, v, cs.take(k)) is Err,
    ensures
        forced_reached(sched, v, cs) == forced_reached(sched, v, cs.take(k)),
    decreases cs.len() - k,
{
    if k < cs.len() {
        assert(cs.take(k + 1).drop_last() == cs.take(k));
        lemma_forced_error_stays(sched, v, cs.take(k + 1), k);
        assert(cs.take(k + 1).take(k) == cs.take(k));
        lemma_forced_reached_stays(sched, v, cs, k + 1);
    } else {
        assert(cs.take(k) == cs);
    }
}

/// Whether position `after` is position `before` closed by the broker against
/// quote `q`: one more fill, forced, of the closing order sized to the whole
/// net quantity at the worse side, leaving it flat.
pub open spec fn closed_out_by_broker(before: PositionView, after: PositionView, q: QuoteView) -> bool {
    &&& after.quantity == 0
    &&& after.orders.len() == before.orders.len() + 1
    &&& after.orders.drop_last() == before.orders
    &&& after.orders.last().closed_by_broker
    &&& after.orders.last().order == closing_order_of(before, q)
    &&& after.orders.last().quote == q
}

/// Whether one of `closes` is for contract `name`.
pub open spec fn closes_name(closes: Seq<(OrderView, QuoteView)>, name: Seq<char>) -> bool {
    exists|j: int| 0 <= j < closes.len() && closes[j].1.name == name
}

/// Whether `closes` closes positions of `v` at their quotes, once each.
pub open spec fn closes_well_formed(v: BrokerView, closes: Seq<(OrderView, QuoteView)>) -> bool {
    &&& forall|j: int|
        0 <= j < closes.len() ==> {
            let n = (#[trigger] closes[j]).1.name;
            &&& v.positions.contains_key(n)
            &&& v.quotes.contains_key(n)
            &&& closes[j].1 == v.quotes[n]
            &&& closes[j].0 == closing_order_of(v.positions[n], closes[j].1)
        }
    &&& forall|i: int, j: int|
        0 <= i < j < closes.len() ==> (#[trigger] closes[i]).1.name != (#[trigger] closes[j]).1.name
}

proof fn lemma_closes_shape(v: BrokerView, names: Seq<Seq<char>>, c: Option<int>)
    requires
        closes_of(v, names, c) is Ok,
        names.no_duplicates(),
        forall|n: Seq<char>| #[trigger] names.contains(n) ==> v.positions.contains_key(n),
        forall|n: Seq<char>| #[trigger] v.quotes.contains_key(n) ==> v.quotes[n].name == n,
    ensures
        closes_well_formed(v, closes_of(v, names, c)->Ok_0),
        forall|j: int|
            0 <= j < closes_of(v, names, c)->Ok_0.len() ==> names.contains(
                (#[trigger] closes_of(v, names, c)->Ok_0[j]).1.name,
            ),
        forall|n: Seq<char>|
            names.contains(n) && due_for_close(v.positions[n], c) ==> #[trigger] closes_name(
                closes_of(v, names, c)->Ok_0,
                n,
            ),
    decreases names.len(),
{
    if names.len() > 0 {
        let init = names.drop_last();
        let last = names.last();
        assert forall|n: Seq<char>| #[trigger] init.contains(n) implies v.positions.contains_key(n) by {
            let k = choose|k: int| 0 <= k < init.len() && init[k] == n;
            assert(names[k] == n);
            assert(names.contains(n));
        }
        assert(init.no_duplicates());
        lemma_closes_shape(v, init, c);
        let cs0 = closes_of(v, init, c)->Ok_0;
        let cs = closes_of(v, names, c)->Ok_0;
        assert(names.contains(last));
        assert(!init.contains(last)) by {
            if init.contains(last) {
                let k = choose|k: int| 0 <= k < init.len() && init[k] == last;
                assert(names[k] == names[names.len() - 1]);
            }
        }
        assert forall|j: int| 0 <= j < cs0.len() implies names.contains((#[trigger] cs0[j]).1.name) by {
            let k = choose|k: int| 0 <= k < init.len() && init[k] == cs0[j].1.name;
            assert(names[k] == init[k]);
        }
        if cs != cs0 {
            let q = v.quotes[last];
            assert(cs == cs0.push((closing_order_of(v.positions[last], q), q)));
            assert(q.name == last);
            assert forall|j: int| 0 <= j < cs.len() implies names.contains((#[trigger] cs[j]).1.name) by {
                if j < cs0.len() {
                    assert(cs[j] == cs0[j]);
                }
            }
            assert forall|i: int, j: int| 0 <= i < j < cs.len() implies (#[trigger] cs[i]).1.name
                != (#[trigger] cs[j]).1.name by {
                if j == cs0.len() {
                    assert(cs[i] == cs0[i]);
                    assert(init.contains(cs0[i].1.name));
                } else {
                    assert(cs[i] == cs0[i] && cs[j] == cs0[j]);
                }
            }
            assert forall|j: int| 0 <= j < cs.len() implies {
                let n = (#[trigger] cs[j]).1.name;
                &&& v.positions.contains_key(n)
                &&& v.quotes.contains_key(n)
                &&& cs[j].1 == v.quotes[n]
                &&& cs[j].0 == closing_order_of(v.positions[n], cs[j].1)
            } by {
                if j < cs0.len() {
                    assert(cs[j] == cs0[j]);
                }
            }
            assert forall|n: Seq<char>|
                names.contains(n) && due_for_close(v.positions[n], c) implies #[trigger] closes_name(
                cs,
                n,
            ) by {
                if n == last {
                    assert(cs[cs0.len() as int].1.name == n);
                } else {
                    let k = choose|k: int| 0 <= k < names.len() && names[k] == n;
                    assert(init[k] == n);
                    assert(closes_name(cs0, n));
                    let j = choose|j: int| 0 <= j < cs0.len() && cs0[j].1.name == n;
                    assert(cs[j] == cs0[j]);
                }
            }
        } else {
            assert forall|n: Seq<char>|
                names.contains(n) && due_for_close(v.positions[n], c) implies #[trigger] closes_name(
                cs,
                n,
            ) by {
                if n != last {
                    let k = choose|k: int| 0 <= k < names.len() && names[k] == n;
                    assert(init[k] == n);
                } else {
                    assert(!due_for_close(v.positions[last], c));
                }
            }
        }
    }
}

proof fn lemma_forced_fills_zero<C: Commission>(
    sched: C,
    v: BrokerView,
    cs: Seq<(OrderView, QuoteView)>,
)
    requires
        forced_fills(sched, v, cs) is Ok,
        closes_well_formed(v, cs),
    ensures
        forced_fills(sched, v, cs)->Ok_0.positions.dom() == v.positions.dom(),
        forall|k: Seq<char>| #[trigger]
            forced_fills(sched, v, cs)->Ok_0.positions.contains_key(k) ==> if closes_name(cs, k) {
                closed_out_by_broker(
                    v.positions[k],
                    forced_fills(sched, v, cs)->Ok_0.positions[k],
                    v.quotes[k],
                )
            } else {
                forced_fills(sched, v, cs)->Ok_0.positions[k] == v.positions[k]
            },
    decreases cs.len(),
{
    if cs.len() > 0 {
        let init = cs.drop_last();
        assert(closes_well_formed(v, init)) by {
            assert forall|j: int| 0 <= j < init.len() implies {
                let n = (#[trigger] init[j]).1.name;
                &&& v.positions.contains_key(n)
                &&& v.quotes.contains_key(n)
                &&& init[j].1 == v.quotes[n]
                &&& init[j].0 == closing_order_of(v.positions[n], init[j].1)
            } by {
                assert(init[j] == cs[j]);
            }
            assert forall|i: int, j: int| 0 <= i < j < init.len() implies (#[trigger] init[i]).1.name
                != (#[trigger] init[j]).1.name by {
                assert(init[i] == cs[i] && init[j] == cs[j]);
            }
        }
        lemma_forced_fills_zero(sched, v, init);
        let w0 = forced_fills(sched, v, init)->Ok_0;
        let w = forced_fills(sched, v, cs)->Ok_0;
        let (o, q) = cs.last();
        let n = q.name;
        assert(cs.last() == cs[cs.len() - 1]);
        assert(v.positions.contains_key(n));
        assert(!closes_name(init, n)) by {
            if closes_name(init, n) {
                let j = choose|j: int| 0 <= j < init.len() && init[j].1.name == n;
                assert(cs[j] == init[j]);
            }
        }
        assert(w0.positions[n] == v.positions[n]);
        assert(w.positions.dom() =~= v.positions.dom());
        assert forall|k: Seq<char>| #[trigger] w.positions.contains_key(k) implies if closes_name(cs, k) {
            closed_out_by_broker(v.positions[k], w.positions[k], v.quotes[k])
        } else {
            w.positions[k] == v.positions[k]
        } by {
            if k == n {
                assert(closes_name(cs, k)) by {
                    assert(cs[cs.len() - 1].1.name == k);
                }
                assert(w.positions[k].orders.drop_last() == v.positions[k].orders);
            } else {
                if closes_name(cs, k) {
                    let j = choose|j: int| 0 <= j < cs.len() && cs[j].1.name == k;
                    assert(init[j] == cs[j]);
                    assert(closes_name(init, k));
                } else {
                    if closes_name(init, k) {
                        let j = choose|j: int| 0 <= j < init.len() && init[j].1.name == k;
                        assert(cs[j] == init[j]);
                    }
                }
            }
        }
    }
}

/// A close-out that succeeds closes each due position by a forced fill and
/// leaves the others as they were.
proof fn lemma_close_out_closes_due<C: Commission>(sched: C, v: BrokerView, c: Option<int>)
    requires
        close_out(sched, v, c) is Ok,
        position_names(v).no_duplicates(),
        position_names(v).to_set() == v.positions.dom(),
        forall|n: Seq<char>| #[trigger] v.quotes.contains_key(n) ==> v.quotes[n].name == n,
    ensures
        close_out(sched, v, c)->Ok_0.positions.dom() == v.positions.dom(),
        forall|k: Seq<char>| #[trigger]
            close_out(sched, v, c)->Ok_0.positions.contains_key(k) ==> if due_for_close(
                v.positions[k],
                c,
            ) {
                closed_out_by_broker(v.positions[k], close_out(sched, v, c)->Ok_0.positions[k], v.quotes[k])
            } else {
                close_out(sched, v, c)->Ok_0.positions[k] == v.positions[k]
            },
{
    let names = position_names(v);
    assert forall|n: Seq<char>| #[trigger] names.contains(n) implies v.positions.contains_key(n) by {
        assert(names.to_set().contains(n));
    }
    lemma_closes_shape(v, names, c);
    let cs = closes_of(v, names, c)->Ok_0;
    lemma_forced_fills_zero(sched, v, cs);
    let w = close_out(sched, v, c)->Ok_0;
    assert forall|k: Seq<char>| #[trigger] w.positions.contains_key(k) implies if due_for_close(
        v.positions[k],
        c,
    ) {
        closed_out_by_broker(v.positions[k], w.positions[k], v.quotes[k])
    } else {
        w.positions[k] == v.positions[k]
    } by {
        assert(names.to_set().contains(k));
        assert(names.contains(k));
        if closes_name(cs, k) {
            let j = choose|j: int| 0 <= j < cs.len() && cs[j].1.name == k;
            assert(v.positions.contains_key(k));
            if !due_for_close(v.positions[k], c) {
                lemma_closes_only_due(v, names, c, j);
            }
        }
    }
}

/// Each closing order is for a position due for closing.
proof fn lemma_closes_only_due(v: BrokerView, names: Seq<Seq<char>>, c: Option<int>, j: int)
    requires
        closes_of(v, names, c) is Ok,
        0 <= j < closes_of(v, names, c)->Ok_0.len(),
        forall|n: Seq<char>| #[trigger] v.quotes.contains_key(n) ==> v.quotes[n].name == n,
    ensures
        due_for_close(v.positions[closes_of(v, names, c)->Ok_0[j].1.name], c),
    decreases names.len(),
{
    if names.len() > 0 {
        let cs0 = closes_of(v, names.drop_last(), c)->Ok_0;
        if j < cs0.len() {
            lemma_closes_only_due(v, names.drop_last(), c, j);
        } else {
            assert(v.quotes[names.last()].name == names.last());
        }
    }
}

/// A close-out of every position that succeeds leaves none due for closing.
proof fn lemma_close_out_leaves_none_due<C: Commission>(sched: C, v: BrokerView)
    requires
        close_out(sched, v, None) is Ok,
        position_names(v).no_duplicates(),
        position_names(v).to_set() == v.positions.dom(),
        forall|n: Seq<char>| #[trigger] v.quotes.contains_key(n) ==> v.quotes[n].name == n,
    ensures
        forall|k: Seq<char>| #[trigger]
            close_out(sched, v, None)->Ok_0.positions.contains_key(k) ==> !due_for_close(
                close_out(sched, v, None)->Ok_0.positions[k],
                None,
            ),
{
    lemma_close_out_closes_due(sched, v, None);
}

/// Once gathering closing orders fails, the whole of it fails the same way.
proof fn lemma_closes_error_stays(v: BrokerView, names: Seq<Seq<char>>, c: Option<int>, k: int)
    requires
        0 <= k <= names.len(),
        closes_of(v, names.take(k), c) is Err,
    ensures
        closes_of(v, names, c) == closes_of(v, names.take(k), c),
    decreases names.len() - k,
{
    if k < names.len() {
        assert(names.take(k + 1).drop_last() == names.take(k));
        lemma_closes_error_stays(v, names, c, k + 1);
    } else {
        assert(names.take(k) == names);
    }
}

/// Once a forced fill fails, the whole sequence of them fails the same way.
proof fn lemma_forced_error_stays<C: Commission>(
    b: C,
    v: BrokerView,
    cs: Seq<(OrderView, QuoteView)>,
    k: int,
)
    requires
        0 <= k <= cs.len(),
        forced_fills(b, v, cs.take(k)) is Err,
    ensures
        forced_fills(b, v, cs) == forced_fills(b, v, cs.take(k)),
    decreases cs.len() - k,
{
    if k < cs.len() {
        assert(cs.take(k + 1).drop_last() == cs.take(k));
        lemma_forced_error_stays(b, v, cs, k + 1);
    } else {
        assert(cs.take(k) == cs);
    }
}

/// Once the running mark-to-market fails, the whole of it fails the same way.
proof fn lemma_marked_error_stays(v: BrokerView, names: Seq<Seq<char>>, k: int)
    requires
        0 <= k <= names.len(),
        marked_balance(v, names.take(k)) is Err,
    ensures
        marked_balance(v, names) == marked_balance(v, names.take(k)),
    decreases names.len() - k,
{
    if k < names.len() {
        assert(names.take(k + 1).drop_last() == names.take(k));
        lemma_marked_error_stays(v, names, k + 1);
    } else {
        assert(names.take(k) == names);
    }
}

} // verus!
