use vstd::prelude::*;
use vstd::string::StringExecFns;

use crate::money::{in_money_range, money_text, Money};
use crate::quote::Quote;
use crate::util::{decimal, push_decimal};

verus! {

/// What an order holds, with amounts in cents.
pub struct OrderView {
    pub symbol: Seq<char>,
    pub name: Seq<char>,
    pub buy: bool,
    pub open: bool,
    pub quantity: int,
    pub limit: int,
    pub strike: int,
}

/// The signed quantity of an order: positive for a buy, negative for a sell.
pub open spec fn canonical_quantity_of(o: OrderView) -> int {
    if o.buy {
        o.quantity
    } else {
        -o.quantity
    }
}

/// How an order is summarised: symbol, side, quantity, strike and limit.
pub open spec fn order_summary_of(o: OrderView) -> Seq<char> {
    o.symbol + seq![' '] + (if o.buy {
        seq!['B', 'U', 'Y']
    } else {
        seq!['S', 'E', 'L', 'L']
    }) + seq![' '] + decimal(o.quantity as nat) + seq![' '] + money_text(o.strike) + seq![
        ' ',
        'S',
        'T',
        'R',
        'I',
        'K',
        'E',
        ' ',
        'a',
        't',
        ' ',
        'L',
        'I',
        'M',
        'I',
        'T',
        ' ',
    ] + money_text(o.limit)
}

/// An intent to buy or sell a positive number of contracts of one option,
/// to open or to close, with a non-negative limit price.
pub struct Order {
    symbol: String,
    name: String,
    buy: bool,
    open: bool,
    quantity: i32,
    limit: Money,
    strike_price: Money,
}

impl View for Order {
    type V = OrderView;

    closed spec fn view(&self) -> OrderView {
        OrderView {
            symbol: self.symbol@,
            name: self.name@,
            buy: self.buy,
            open: self.open,
            quantity: self.quantity as int,
            limit: self.limit@,
            strike: self.strike_price@,
        }
    }
}

impl Clone for Order {
    fn clone(&self) -> (r: Order)
        ensures
            r@ == self@,
    {
        proof {
            use_type_invariant(self);
        }
        Order {
            symbol: self.symbol.clone(),
            name: self.name.clone(),
            buy: self.buy,
            open: self.open,
            quantity: self.quantity,
            limit: self.limit,
            strike_price: self.strike_price,
        }
    }
}

impl Order {
    #[verifier::type_invariant]
    spec fn inv(&self) -> bool {
        &&& self.quantity > 0
        &&& 0 <= self.limit@
        &&& in_money_range(self.limit@)
        &&& 0 <= self.strike_price@
        &&& in_money_range(self.strike_price@)
    }

    pub fn is_buy(&self) -> (r: bool)
        ensures
            r == self@.buy,
    {
        self.buy
    }

    pub fn is_sell(&self) -> (r: bool)
        ensures
            r == !self@.buy,
    {
        !self.is_buy()
    }

    pub fn buy_or_sell_string(&self) -> (r: &'static str)
        ensures
            r@ == (if self@.buy {
                seq!['B', 'U', 'Y']
            } else {
                seq!['S', 'E', 'L', 'L']
            }),
    {
        proof {
            reveal_strlit("BUY");
            reveal_strlit("SELL");
        }
        if self.buy {
            "BUY"
        } else {
            "SELL"
        }
    }

    /// A one-line description, such as `AAPL BUY 10 $150.00 STRIKE at LIMIT $2.50`.
    pub fn summary(&self) -> (r: String)
        ensures
            r@ == order_summary_of(self@),
    {
        proof {
            use_type_invariant(self);
            reveal_strlit(" ");
            reveal_strlit(" STRIKE at LIMIT ");
        }
        let mut out = String::from_str(self.symbol.as_str());
        out.append(" ");
        out.append(self.buy_or_sell_string());
        out.append(" ");
        push_decimal(&mut out, self.quantity as u64);
        out.append(" ");
        let strike = self.strike_price.to_string();
        out.append(strike.as_str());
        out.append(" STRIKE at LIMIT ");
        let limit = self.limit.to_string();
        out.append(limit.as_str());
        assert(out@ =~= order_summary_of(self@));
        out
    }

    pub fn option_name(&self) -> (r: &str)
        ensures
            r@ == self@.name,
    {
        self.name.as_str()
    }

    /// An order to buy `quantity` contracts of `quote`'s option to open a position.
    pub fn new_buy_open_order(quote: &Quote, quantity: i32, limit: Money) -> (r: Order)
        requires
            quantity > 0,
            0 <= limit@,
            in_money_range(limit@),
        ensures
            r@ == (OrderView {
                symbol: quote@.symbol,
                name: quote@.name,
                buy: true,
                open: true,
                quantity: quantity as int,
                limit: limit@,
                strike: quote@.strike,
            }),
    {
        Order {
            symbol: String::from_str(quote.symbol()),
            name: String::from_str(quote.name()),
            buy: true,
            open: true,
            quantity,
            limit,
            strike_price: quote.strike_price(),
        }
    }

    /// An order to sell `quantity` contracts of `quote`'s option to open a position.
    pub fn new_sell_open_order(quote: &Quote, quantity: i32, limit: Money) -> (r: Order)
        requires
            quantity > 0,
            0 <= limit@,
            in_money_range(limit@),
        ensures
            r@ == (OrderView {
                symbol: quote@.symbol,
                name: quote@.name,
                buy: false,
                open: true,
                quantity: quantity as int,
                limit: limit@,
                strike: quote@.strike,
            }),
    {
        let mut o = Order::new_buy_open_order(quote, quantity, limit);
        proof {
            use_type_invariant(&o);
        }
        o.buy = false;
        o
    }

    /// An order to buy `quantity` contracts of `quote`'s option to close a short position.
    pub fn new_buy_close_order(quote: &Quote, quantity: i32, limit: Money) -> (r: Order)
        requires
            quantity > 0,
            0 <= limit@,
            in_money_range(limit@),
        ensures
            r@ == (OrderView {
                symbol: quote@.symbol,
                name: quote@.name,
                buy: true,
                open: false,
                quantity: quantity as int,
                limit: limit@,
                strike: quote@.strike,
            }),
    {
        let mut o = Order::new_buy_open_order(quote, quantity, limit);
        proof {
            use_type_invariant(&o);
        }
        o.open = false;
        o
    }

    /// An order to sell `quantity` contracts of `quote`'s option to close a long position.
    pub fn new_sell_close_order(quote: &Quote, quantity: i32, limit: Money) -> (r: Order)
        requires
            quantity > 0,
            0 <= limit@,
            in_money_range(limit@),
        ensures
            r@ == (OrderView {
                symbol: quote@.symbol,
                name: quote@.name,
                buy: false,
                open: false,
                quantity: quantity as int,
                limit: limit@,
                strike: quote@.strike,
            }),
    {
        let mut o = Order::new_buy_open_order(quote, quantity, limit);
        proof {
            use_type_invariant(&o);
        }
        o.buy = false;
        o.open = false;
        o
    }

    pub fn buy_to_open(&self) -> (r: bool)
        ensures
            r == (self@.buy && self@.open),
    {
        self.buy && self.open
    }

    pub fn sell_to_open(&self) -> (r: bool)
        ensures
            r == (!self@.buy && self@.open),
    {
        !self.buy && self.open
    }

    pub fn buy_to_close(&self) -> (r: bool)
        ensures
            r == (self@.buy && !self@.open),
    {
        self.buy && !self.open
    }

    pub fn sell_to_close(&self) -> (r: bool)
        ensures
            r == (!self@.buy && !self@.open),
    {
        !self.buy && !self.open
    }

    pub fn is_open(&self) -> (r: bool)
        ensures
            r == self@.open,
    {
        self.open
    }

    pub fn is_close(&self) -> (r: bool)
        ensures
            r == !self@.open,
    {
        !self.is_open()
    }

    /// The capital that buying this order at `price` per share ties up.
    pub fn margin_requirement(&self, price: Money) -> (r: Money)
        requires
            in_money_range(price@ * 100 * self@.quantity),
        ensures
            r@ == price@ * 100 * self@.quantity,
    {
        proof {
            use_type_invariant(self);
            assert(in_money_range(price@ * 100)) by (nonlinear_arith)
                requires
                    in_money_range(price@ * 100 * self@.quantity),
                    self@.quantity > 0,
            ;
        }
        price * 100 * (self.quantity as i64)
    }

    pub fn symbol(&self) -> (r: &str)
        ensures
            r@ == self@.symbol,
    {
        self.symbol.as_str()
    }

    pub fn quantity(&self) -> (r: i32)
        ensures
            r == self@.quantity,
            r > 0,
    {
        proof {
            use_type_invariant(self);
        }
        self.quantity
    }

    pub fn limit(&self) -> (r: Money)
        ensures
            r@ == self@.limit,
    {
        self.limit
    }

    /// The quantity, negated for a sell.
    pub fn canonical_quantity(&self) -> (r: i32)
        ensures
            r == canonical_quantity_of(self@),
            r != 0,
    {
        proof {
            use_type_invariant(self);
        }
        if self.buy {
            self.quantity
        } else {
            -self.quantity
        }
    }
}

} // verus!
