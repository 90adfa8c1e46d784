use vstd::prelude::*;

use crate::date::Date;
use crate::money::{in_money_range, Money};
use crate::order::{canonical_quantity_of, Order, OrderView};
use crate::quote::{Quote, QuoteView};

verus! {

/// What a filled order holds, with amounts in cents and the date as a day number.
pub struct FilledOrderView {
    pub order: OrderView,
    pub quote: QuoteView,
    pub fill_price: int,
    pub fill_date: int,
    pub commission: int,
    pub closed_by_broker: bool,
}

/// The unsigned cash amount of a fill: price × 100 shares × quantity.
pub open spec fn cost_basis_of(f: FilledOrderView) -> int {
    f.fill_price * 100 * f.order.quantity
}

/// The cash a fill moves: negative for a buy (cash leaves), positive for a sell.
pub open spec fn canonical_cost_basis_of(f: FilledOrderView) -> int {
    if f.order.buy {
        -cost_basis_of(f)
    } else {
        cost_basis_of(f)
    }
}

/// What closing this lot against `q` would bring: the bid for a bought lot,
/// the ask for a sold one, × 100 × the signed quantity.
pub open spec fn unrealized_value_of(f: FilledOrderView, q: QuoteView) -> int {
    (if f.order.buy {
        q.bid
    } else {
        q.ask
    }) * 100 * canonical_quantity_of(f.order)
}

/// An order bound to its execution: the quote it filled against, the fill
/// price and date, the commission charged and whether the broker forced it.
pub struct FilledOrder {
    order: Order,
    fill_quote: Quote,
    fill_price: Money,
    fill_date: Date,
    commission: Money,
    closed_by_broker: bool,
}

impl View for FilledOrder {
    type V = FilledOrderView;

    closed spec fn view(&self) -> FilledOrderView {
        FilledOrderView {
            order: self.order@,
            quote: self.fill_quote@,
            fill_price: self.fill_price@,
            fill_date: self.fill_date.days as int,
            commission: self.commission@,
            closed_by_broker: self.closed_by_broker,
        }
    }
}

impl Clone for FilledOrder {
    fn clone(&self) -> (r: FilledOrder)
        ensures
            r@ == self@,
    {
        proof {
            use_type_invariant(self);
        }
        FilledOrder {
            order: self.order.clone(),
            fill_quote: self.fill_quote.clone(),
            fill_price: self.fill_price,
            fill_date: self.fill_date,
            commission: self.commission,
            closed_by_broker: self.closed_by_broker,
        }
    }
}

impl FilledOrder {
    #[verifier::type_invariant]
    spec fn inv(&self) -> bool {
        &&& 0 <= self.commission@
        &&& in_money_range(self.commission@)
        &&& in_money_range(self.fill_price@)
        &&& in_money_range(self.fill_price@ * 100)
        &&& in_money_range(cost_basis_of(self@))
    }

    /// Binds `order` to its execution against `quote` at `fill_price` on
    /// `fill_date`, with no commission yet and not forced by the broker.
    pub fn new(order: Order, quote: &Quote, fill_price: Money, fill_date: Date) -> (r: FilledOrder)
        requires
            in_money_range(fill_price@ * 100 * order@.quantity),
        ensures
            r@ == (FilledOrderView {
                order: order@,
                quote: quote@,
                fill_price: fill_price@,
                fill_date: fill_date.days as int,
                commission: 0,
                closed_by_broker: false,
            }),
    {
        let q = order.quantity();
        proof {
            assert(in_money_range(fill_price@ * 100) && in_money_range(fill_price@)) by (nonlinear_arith)
                requires
                    in_money_range(fill_price@ * 100 * q),
                    q > 0,
            ;
        }
        FilledOrder {
            order,
            fill_quote: quote.clone(),
            fill_price,
            fill_date,
            commission: Money::zero(),
            closed_by_broker: false,
        }
    }

    /// Sets the commission charged for this fill.
    pub fn set_commission(&mut self, commish: Money)
        requires
            0 <= commish@,
            in_money_range(commish@),
        ensures
            final(self)@ == (FilledOrderView { commission: commish@, ..old(self)@ }),
    {
        proof {
            use_type_invariant(&*self);
        }
        self.commission = commish;
    }

    pub fn commission(&self) -> (r: Money)
        ensures
            r@ == self@.commission,
            0 <= r@,
            in_money_range(r@),
    {
        proof {
            use_type_invariant(self);
        }
        self.commission
    }

    pub fn fill_price(&self) -> (r: Money)
        ensures
            r@ == self@.fill_price,
            in_money_range(r@),
            in_money_range(r@ * 100),
    {
        proof {
            use_type_invariant(self);
        }
        self.fill_price
    }

    /// The day this order was filled.
    pub fn fill_date(&self) -> (r: Date)
        ensures
            r.days == self@.fill_date,
    {
        self.fill_date
    }

    /// The quote this order was filled against.
    pub fn fill_quote(&self) -> (r: &Quote)
        ensures
            r@ == self@.quote,
    {
        &self.fill_quote
    }

    pub fn closed_by_broker(&self) -> (r: bool)
        ensures
            r == self@.closed_by_broker,
    {
        self.closed_by_broker
    }

    /// Marks this fill as forced by the broker.
    pub fn set_closed_by_broker(&mut self)
        ensures
            final(self)@ == (FilledOrderView { closed_by_broker: true, ..old(self)@ }),
    {
        proof {
            use_type_invariant(&*self);
        }
        self.closed_by_broker = true;
    }

    /// Fill price × 100 × quantity.
    pub fn cost_basis(&self) -> (r: Money)
        ensures
            r@ == cost_basis_of(self@),
            in_money_range(r@),
    {
        proof {
            use_type_invariant(self);
        }
        self.fill_price * 100 * (self.order.quantity() as i64)
    }

    /// The cost basis, negated for a buy.
    pub fn canonical_cost_basis(&self) -> (r: Money)
        ensures
            r@ == canonical_cost_basis_of(self@),
            in_money_range(r@),
    {
        if self.is_buy() {
            Money::zero() - self.cost_basis()
        } else {
            self.cost_basis()
        }
    }

    /// The value of this lot if closed now against `quote`.
    pub fn unrealized_value(&self, quote: &Quote) -> (r: Money)
        requires
            in_money_range(unrealized_value_of(self@, quote@)),
        ensures
            r@ == unrealized_value_of(self@, quote@),
    {
        let price = if self.is_buy() {
            quote.bid()
        } else {
            quote.ask()
        };
        let cq = self.canonical_quantity();
        proof {
            assert(in_money_range(price@ * 100)) by (nonlinear_arith)
                requires
                    in_money_range(price@ * 100 * cq),
                    cq != 0,
            ;
        }
        price * 100 * (cq as i64)
    }

    pub fn order(&self) -> (r: &Order)
        ensures
            r@ == self@.order,
    {
        &self.order
    }

    pub fn buy_or_sell_string(&self) -> (r: &'static str)
        ensures
            r@ == (if self@.order.buy {
                seq!['B', 'U', 'Y']
            } else {
                seq!['S', 'E', 'L', 'L']
            }),
    {
        self.order.buy_or_sell_string()
    }

    pub fn quantity(&self) -> (r: i32)
        ensures
            r == self@.order.quantity,
            r > 0,
    {
        self.order.quantity()
    }

    pub fn option_name(&self) -> (r: &str)
        ensures
            r@ == self@.order.name,
    {
        self.order.option_name()
    }

    pub fn margin_requirement(&self, price: Money) -> (r: Money)
        requires
            in_money_range(price@ * 100 * self@.order.quantity),
        ensures
            r@ == price@ * 100 * self@.order.quantity,
    {
        self.order.margin_requirement(price)
    }

    pub fn canonical_quantity(&self) -> (r: i32)
        ensures
            r == canonical_quantity_of(self@.order),
            r != 0,
    {
        self.order.canonical_quantity()
    }

    pub fn is_buy(&self) -> (r: bool)
        ensures
            r == self@.order.buy,
    {
        self.order.is_buy()
    }

    pub fn is_sell(&self) -> (r: bool)
        ensures
            r == !self@.order.buy,
    {
        self.order.is_sell()
    }

    pub fn buy_to_open(&self) -> (r: bool)
        ensures
            r == (self@.order.buy && self@.order.open),
    {
        self.order.buy_to_open()
    }

    pub fn sell_to_open(&self) -> (r: bool)
        ensures
            r == (!self@.order.buy && self@.order.open),
    {
        self.order.sell_to_open()
    }

    pub fn buy_to_close(&self) -> (r: bool)
        ensures
            r == (self@.order.buy && !self@.order.open),
    {
        self.order.buy_to_close()
    }

    pub fn sell_to_close(&self) -> (r: bool)
        ensures
            r == (!self@.order.buy && !self@.order.open),
    {
        self.order.sell_to_close()
    }

    pub fn is_open(&self) -> (r: bool)
        ensures
            r == self@.order.open,
    {
        self.order.is_open()
    }

    pub fn is_close(&self) -> (r: bool)
        ensures
            r == !self@.order.open,
    {
        self.order.is_close()
    }
}

} // verus!
