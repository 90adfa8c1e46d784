use vstd::prelude::*;

use crate::date::Date;
use crate::filled_order::{
    canonical_cost_basis_of, unrealized_value_of, FilledOrder, FilledOrderView,
};
use crate::money::{in_money_range, Money, MONEY_MAX};
use crate::order::canonical_quantity_of;
use crate::quote::{Quote, QuoteView};
use crate::util::same_text;

verus! {

/// The sum of the signed quantities of `fills`.
pub open spec fn net_quantity_of(fills: Seq<FilledOrderView>) -> int
    decreases fills.len(),
{
    if fills.len() == 0 {
        0
    } else {
        net_quantity_of(fills.drop_last()) + canonical_quantity_of(fills.last().order)
    }
}

/// What one fill adds to realized profit: buys are debits, sells credits.
pub open spec fn realized_term_of(f: FilledOrderView) -> int {
    -(f.fill_price * 100 * canonical_quantity_of(f.order))
}

/// The realized profit of `fills`, before commission.
pub open spec fn realized_profit_of(fills: Seq<FilledOrderView>) -> int
    decreases fills.len(),
{
    if fills.len() == 0 {
        0
    } else {
        realized_profit_of(fills.drop_last()) + realized_term_of(fills.last())
    }
}

/// The sum of the cash that `fills` moved.
pub open spec fn cash_flow_of(fills: Seq<FilledOrderView>) -> int
    decreases fills.len(),
{
    if fills.len() == 0 {
        0
    } else {
        cash_flow_of(fills.drop_last()) + canonical_cost_basis_of(fills.last())
    }
}

/// The commission charged on `fills`.
pub open spec fn commission_of(fills: Seq<FilledOrderView>) -> int
    decreases fills.len(),
{
    if fills.len() == 0 {
        0
    } else {
        commission_of(fills.drop_last()) + fills.last().commission
    }
}

/// The number of `fills` that open.
pub open spec fn opening_count_of(fills: Seq<FilledOrderView>) -> nat
    decreases fills.len(),
{
    if fills.len() == 0 {
        0
    } else {
        opening_count_of(fills.drop_last()) + if fills.last().order.open {
            1nat
        } else {
            0nat
        }
    }
}

/// The number of `fills` that the broker forced.
pub open spec fn broker_closed_count_of(fills: Seq<FilledOrderView>) -> nat
    decreases fills.len(),
{
    if fills.len() == 0 {
        0
    } else {
        broker_closed_count_of(fills.drop_last()) + if fills.last().closed_by_broker {
            1nat
        } else {
            0nat
        }
    }
}

/// The mark-to-market value of `fills` against `q`, summed lot by lot, or
/// `None` when a lot's value or a running total cannot be held.
pub open spec fn checked_value_of(fills: Seq<FilledOrderView>, q: QuoteView) -> Option<int>
    decreases fills.len(),
{
    if fills.len() == 0 {
        Some(0)
    } else {
        match checked_value_of(fills.drop_last(), q) {
            None => None,
            Some(s) => {
                let t = unrealized_value_of(fills.last(), q);
                if in_money_range(t) && in_money_range(s + t) {
                    Some(s + t)
                } else {
                    None
                }
            },
        }
    }
}

/// Whether a position's contract has expired as of day `day`: it expired
/// strictly before that day.
pub open spec fn expired_on(p: PositionView, day: int) -> bool {
    p.expiration < day
}

/// Whether a position is open: its opening fills are not as many as its closing ones.
pub open spec fn position_is_open(p: PositionView) -> bool {
    opening_count_of(p.orders) * 2 != p.orders.len()
}

/// What a position holds, with amounts in cents and dates as day numbers.
pub struct PositionView {
    pub name: Seq<char>,
    pub symbol: Seq<char>,
    pub quantity: int,
    pub expiration: int,
    pub orders: Seq<FilledOrderView>,
}

/// Whether every running total of `fills` can be held.
pub open spec fn totals_in_range(fills: Seq<FilledOrderView>) -> bool {
    &&& forall|k: int|
        0 <= k <= fills.len() ==> in_money_range(#[trigger] realized_profit_of(fills.take(k)))
    &&& forall|k: int| 0 <= k <= fills.len() ==> in_money_range(#[trigger] commission_of(fills.take(k)))
}

/// Whether `p` can take fill `f`: same contract, and every total stays representable.
pub open spec fn accepts_fill(p: PositionView, f: FilledOrderView) -> bool {
    &&& f.order.name == p.name
    &&& i64::MIN <= p.quantity + canonical_quantity_of(f.order) <= i64::MAX
    &&& in_money_range(realized_profit_of(p.orders.push(f)))
    &&& in_money_range(commission_of(p.orders.push(f)))
}

/// The ledger of one option contract: every fill applied to it and its net
/// signed quantity (positive long, negative short).
pub struct Position {
    name: String,
    symbol: String,
    quantity: i64,
    expiration_date: Date,
    orders: Vec<FilledOrder>,
}

impl View for Position {
    type V = PositionView;

    closed spec fn view(&self) -> PositionView {
        PositionView {
            name: self.name@,
            symbol: self.symbol@,
            quantity: self.quantity as int,
            expiration: self.expiration_date.days as int,
            orders: self.orders@.map_values(|f: FilledOrder| f@),
        }
    }
}

proof fn lemma_take_push(s: Seq<FilledOrderView>, f: FilledOrderView, k: int)
    requires
        0 <= k <= s.len(),
    ensures
        s.push(f).take(k) == s.take(k),
{
    assert(s.push(f).take(k) =~= s.take(k));
}

impl Position {
    /// The ledger's internal consistency: the net quantity is the sum of the
    /// fills' signed quantities, every running total can be held, and every
    /// fill is for this position's contract.
    pub closed spec fn wf(&self) -> bool {
        &&& self.quantity == net_quantity_of(self@.orders)
        &&& totals_in_range(self@.orders)
        &&& forall|i: int| 0 <= i < self@.orders.len() ==> (#[trigger] self@.orders[i]).order.name == self@.name
    }

    /// An empty position for `quote`'s contract; fills are added with `apply_order`.
    pub fn new(quote: &Quote) -> (r: Position)
        ensures
            r.wf(),
            r@ == (PositionView {
                name: quote@.name,
                symbol: quote@.symbol,
                quantity: 0,
                expiration: quote@.expiration,
                orders: Seq::empty(),
            }),
    {
        let orders: Vec<FilledOrder> = Vec::new();
        let p = Position {
            name: String::from_str(quote.name()),
            symbol: String::from_str(quote.symbol()),
            quantity: 0,
            expiration_date: quote.expiration_date(),
            orders,
        };
        assert(p@.orders =~= Seq::<FilledOrderView>::empty());
        assert(p@.orders.take(0) =~= Seq::<FilledOrderView>::empty());
        p
    }

    /// Whether `fill` can be applied without a total leaving its range.
    pub fn accepts(&self, fill: &FilledOrder) -> (r: bool)
        requires
            self.wf(),
        ensures
            r == accepts_fill(self@, fill@),
    {
        proof {
            let all = self@.orders;
            assert(all.take(all.len() as int) == all);
            let f = fill@;
            assert(all.push(f).drop_last() == all);
        }
        if !same_text(fill.option_name(), self.name.as_str()) {
            return false;
        }
        let q = self.quantity as i128 + fill.canonical_quantity() as i128;
        if q < i64::MIN as i128 || q > i64::MAX as i128 {
            return false;
        }
        let profit = self.realized_profit().raw_value() as i128 - lot_value(
            fill.fill_price(),
            fill.canonical_quantity(),
        );
        if profit < -(MONEY_MAX as i128) || profit > MONEY_MAX as i128 {
            return false;
        }
        let commission = self.commission_paid().raw_value() as i128 + fill.commission().raw_value()
            as i128;
        commission <= MONEY_MAX as i128
    }

    /// How many fills the broker forced.
    pub fn broker_closed_order_count(&self) -> (r: usize)
        ensures
            r == broker_closed_count_of(self@.orders),
    {
        let mut count: usize = 0;
        let mut i: usize = 0;
        while i < self.orders.len()
            invariant
                i <= self.orders.len(),
                count <= i,
                count == broker_closed_count_of(self@.orders.take(i as int)),
            decreases self.orders.len() - i,
        {
            assert(self@.orders.take(i + 1).drop_last() == self@.orders.take(i as int));
            if self.orders[i].closed_by_broker() {
                count = count + 1;
            }
            i = i + 1;
        }
        assert(self@.orders.take(self.orders.len() as int) == self@.orders);
        count
    }

    /// Profit before commission: each fill adds −(canonical quantity × 100 × fill price).
    pub fn realized_profit(&self) -> (r: Money)
        requires
            self.wf(),
        ensures
            r@ == realized_profit_of(self@.orders),
            in_money_range(r@),
    {
        let mut sum = Money::zero();
        let mut i: usize = 0;
        while i < self.orders.len()
            invariant
                i <= self.orders.len(),
                sum@ == realized_profit_of(self@.orders.take(i as int)),
                totals_in_range(self@.orders),
            decreases self.orders.len() - i,
        {
            let o = &self.orders[i];
            assert(self@.orders.take(i + 1).drop_last() == self@.orders.take(i as int));
            assert(in_money_range(realized_profit_of(self@.orders.take(i + 1))));
            let cq = o.canonical_quantity() as i128;
            let term = -((o.fill_price().raw_value() as i128) * 100 * cq);
            let next = sum.raw_value() as i128 + term;
            sum = Money::from_cents(next as i64);
            i = i + 1;
        }
        assert(self@.orders.take(self.orders.len() as int) == self@.orders);
        sum
    }

    /// The commission paid on all fills.
    pub fn commission_paid(&self) -> (r: Money)
        requires
            self.wf(),
        ensures
            r@ == commission_of(self@.orders),
            0 <= r@,
            in_money_range(r@),
    {
        let mut sum = Money::zero();
        let mut i: usize = 0;
        while i < self.orders.len()
            invariant
                i <= self.orders.len(),
                sum@ == commission_of(self@.orders.take(i as int)),
                0 <= sum@,
                totals_in_range(self@.orders),
            decreases self.orders.len() - i,
        {
            assert(self@.orders.take(i + 1).drop_last() == self@.orders.take(i as int));
            assert(in_money_range(commission_of(self@.orders.take(i + 1))));
            sum = sum + self.orders[i].commission();
            i = i + 1;
        }
        assert(self@.orders.take(self.orders.len() as int) == self@.orders);
        sum
    }

    pub fn symbol(&self) -> (r: &str)
        ensures
            r@ == self@.symbol,
    {
        self.symbol.as_str()
    }

    pub fn name(&self) -> (r: &str)
        ensures
            r@ == self@.name,
    {
        self.name.as_str()
    }

    /// The fills, in the order they were applied.
    pub fn orders(&self) -> (r: &Vec<FilledOrder>)
        ensures
            r@.map_values(|f: FilledOrder| f@) == self@.orders,
    {
        &self.orders
    }

    pub fn order_count(&self) -> (r: usize)
        ensures
            r == self@.orders.len(),
    {
        self.orders.len()
    }

    /// Appends `order` and moves the net quantity by its signed quantity.
    pub fn apply_order(&mut self, order: FilledOrder)
        requires
            old(self).wf(),
            accepts_fill(old(self)@, order@),
        ensures
            final(self).wf(),
            final(self)@ == (PositionView {
                quantity: old(self)@.quantity + canonical_quantity_of(order@.order),
                orders: old(self)@.orders.push(order@),
                ..old(self)@
            }),
    {
        let ghost before = self@.orders;
        let ghost f = order@;
        self.quantity = self.quantity + order.canonical_quantity() as i64;
        self.orders.push(order);
        proof {
            let after = self@.orders;
            assert(after =~= before.push(f));
            assert(after.drop_last() == before);
            assert forall|k: int| 0 <= k <= after.len() implies in_money_range(
                #[trigger] realized_profit_of(after.take(k)),
            ) by {
                if k < after.len() {
                    lemma_take_push(before, f, k);
                } else {
                    assert(after.take(k) == after);
                }
            }
            assert forall|k: int| 0 <= k <= after.len() implies in_money_range(
                #[trigger] commission_of(after.take(k)),
            ) by {
                if k < after.len() {
                    lemma_take_push(before, f, k);
                } else {
                    assert(after.take(k) == after);
                }
            }
            assert forall|i: int| 0 <= i < after.len() implies (#[trigger] after[i]).order.name
                == self@.name by {
                if i < before.len() {
                    assert(after[i] == before[i]);
                }
            }
        }
    }

    /// The net signed quantity: the sum of the fills' signed quantities.
    pub fn quantity(&self) -> (r: i64)
        requires
            self.wf(),
        ensures
            r == self@.quantity,
            r == net_quantity_of(self@.orders),
    {
        self.quantity
    }

    pub fn expiration_date(&self) -> (r: Date)
        ensures
            r.days == self@.expiration,
    {
        self.expiration_date
    }

    pub fn is_long(&self) -> (r: bool)
        ensures
            r == (self@.quantity > 0),
    {
        self.quantity > 0
    }

    /// Whether this position is not long (a flat position counts as short).
    pub fn is_short(&self) -> (r: bool)
        ensures
            r == !(self@.quantity > 0),
    {
        !self.is_long()
    }

    pub fn is_flat(&self) -> (r: bool)
        ensures
            r == (self@.quantity == 0),
    {
        self.quantity == 0
    }

    /// Whether the number of opening fills differs from the number of closing
    /// fills. This counts fills rather than testing the net quantity.
    pub fn is_open(&self) -> (r: bool)
        ensures
            r == position_is_open(self@),
    {
        let mut open: usize = 0;
        let mut i: usize = 0;
        while i < self.orders.len()
            invariant
                i <= self.orders.len(),
                open <= i,
                open == opening_count_of(self@.orders.take(i as int)),
            decreases self.orders.len() - i,
        {
            assert(self@.orders.take(i + 1).drop_last() == self@.orders.take(i as int));
            if self.orders[i].is_open() {
                open = open + 1;
            }
            i = i + 1;
        }
        assert(self@.orders.take(self.orders.len() as int) == self@.orders);
        let closed = self.orders.len() - open;
        open != closed
    }

    pub fn is_closed(&self) -> (r: bool)
        ensures
            r == !position_is_open(self@),
    {
        !self.is_open()
    }

    /// Whether the contract expired strictly before `current_date`: a contract
    /// expiring on `current_date` itself is not yet expired.
    pub fn is_expired(&self, current_date: Date) -> (r: bool)
        ensures
            r == expired_on(self@, current_date.days as int),
    {
        self.expiration_date.days < current_date.days
    }

    /// The mark-to-market value of all lots against `current_quote`, or `None`
    /// when it cannot be held.
    pub fn current_value(&self, current_quote: &Quote) -> (r: Option<Money>)
        ensures
            r matches Some(v) ==> checked_value_of(self@.orders, current_quote@) == Some(v@),
            r is None ==> checked_value_of(self@.orders, current_quote@) is None,
    {
        let mut sum = Money::zero();
        let mut i: usize = 0;
        while i < self.orders.len()
            invariant
                i <= self.orders.len(),
                checked_value_of(self@.orders.take(i as int), current_quote@) == Some(sum@),
            decreases self.orders.len() - i,
        {
            let o = &self.orders[i];
            assert(self@.orders.take(i + 1).drop_last() == self@.orders.take(i as int));
            let price = if o.is_buy() {
                current_quote.bid()
            } else {
                current_quote.ask()
            };
            let t = lot_value(price, o.canonical_quantity());
            if t < -(MONEY_MAX as i128) || t > MONEY_MAX as i128 {
                proof {
                    lemma_none_stays_none(self@.orders, current_quote@, i as int + 1);
                }
                return None;
            }
            let v = o.unrealized_value(current_quote);
            match sum.checked_add(v) {
                Some(s) => {
                    sum = s;
                },
                None => {
                    proof {
                        lemma_none_stays_none(self@.orders, current_quote@, i as int + 1);
                    }
                    return None;
                },
            }
            i = i + 1;
        }
        assert(self@.orders.take(self.orders.len() as int) == self@.orders);
        Some(sum)
    }
}

/// price × 100 × `quantity`, exactly.
fn lot_value(price: Money, quantity: i32) -> (r: i128)
    requires
        in_money_range(price@),
    ensures
        r == price@ * 100 * quantity,
        -(MONEY_MAX as int) * 100 * 0x8000_0000 <= r <= (MONEY_MAX as int) * 100 * 0x8000_0000,
{
    let p = price.raw_value() as i128;
    let q = quantity as i128;
    proof {
        let m = MONEY_MAX as int;
        assert(-m * 100 * 0x8000_0000 <= p * 100 * q <= m * 100 * 0x8000_0000) by (nonlinear_arith)
            requires
                -m <= p <= m,
                -0x8000_0000 <= q <= 0x8000_0000,
                m > 0,
        ;
    }
    p * 100 * q
}

/// Once a running total fails, the whole total fails.
proof fn lemma_none_stays_none(fills: Seq<FilledOrderView>, q: QuoteView, k: int)
    requires
        0 <= k <= fills.len(),
        checked_value_of(fills.take(k), q) is None,
    ensures
        checked_value_of(fills, q) is None,
    decreases fills.len() - k,
{
    if k < fills.len() {
        assert(fills.take(k + 1).drop_last() == fills.take(k));
        lemma_none_stays_none(fills, q, k + 1);
    } else {
        assert(fills.take(k) == fills);
    }
}

} // verus!
