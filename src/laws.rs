//! Properties that hold across the ledger's operations.

use vstd::prelude::*;

use crate::broker::{after_fill, target_position, BrokerView};
use crate::filled_order::{canonical_cost_basis_of, FilledOrderView};
use crate::order::canonical_quantity_of;
use crate::position::{
    expired_on, net_quantity_of, realized_profit_of, realized_term_of, PositionView,
};
use crate::quote::QuoteView;

verus! {

broadcast use {
    vstd::seq_lib::to_multiset_build,
    vstd::seq_lib::to_multiset_remove,
    vstd::seq_lib::to_multiset_contains,
    vstd::seq_lib::to_multiset_len,
};

proof fn lemma_net_quantity_remove(s: Seq<FilledOrderView>, i: int)
    requires
        0 <= i < s.len(),
    ensures
        net_quantity_of(s) == net_quantity_of(s.remove(i)) + canonical_quantity_of(s[i].order),
    decreases s.len(),
{
    if i == s.len() - 1 {
        assert(s.remove(i) == s.drop_last());
    } else {
        assert(s.remove(i).drop_last() == s.drop_last().remove(i));
        assert(s.remove(i).last() == s.last());
        lemma_net_quantity_remove(s.drop_last(), i);
    }
}

/// The net quantity of a set of fills is the sum of their signed quantities
/// whatever order they were applied in: two sequences holding the same fills
/// have the same net quantity.
pub proof fn law_net_quantity_order_independent(a: Seq<FilledOrderView>, b: Seq<FilledOrderView>)
    requires
        a.to_multiset() == b.to_multiset(),
    ensures
        net_quantity_of(a) == net_quantity_of(b),
    decreases a.len(),
{
    if a.len() == 0 {
        assert(b.to_multiset().len() == 0);
    } else {
        let x = a.last();
        let a0 = a.drop_last();
        assert(a == a0.push(x));
        assert(a.to_multiset() == a0.to_multiset().insert(x));
        assert(b.to_multiset().count(x) > 0);
        assert(b.contains(x));
        let i = choose|i: int| 0 <= i < b.len() && b[i] == x;
        let b0 = b.remove(i);
        assert(b0.to_multiset() == b.to_multiset().remove(x));
        assert(a0.to_multiset() =~= b0.to_multiset());
        law_net_quantity_order_independent(a0, b0);
        lemma_net_quantity_remove(b, i);
    }
}

/// A filled buy moves cash by minus quantity × 100 × fill price, a filled
/// sell by plus the same; with a positive price a buy is a debit and a sell a
/// credit.
pub proof fn law_canonical_cost_basis_sign(f: FilledOrderView)
    requires
        f.order.quantity > 0,
    ensures
        f.order.buy ==> canonical_cost_basis_of(f) == -(f.order.quantity * 100 * f.fill_price),
        !f.order.buy ==> canonical_cost_basis_of(f) == f.order.quantity * 100 * f.fill_price,
        f.fill_price > 0 && f.order.buy ==> canonical_cost_basis_of(f) < 0,
        f.fill_price > 0 && !f.order.buy ==> canonical_cost_basis_of(f) > 0,
{
    assert(f.fill_price * 100 * f.order.quantity == f.order.quantity * 100 * f.fill_price)
        by (nonlinear_arith);
    assert(f.fill_price > 0 ==> f.order.quantity * 100 * f.fill_price > 0) by (nonlinear_arith)
        requires
            f.order.quantity > 0,
    ;
}

/// Buying N contracts and then selling N contracts of the same option at the
/// same price, with the same commission, leaves the position's realized
/// profit as it was and takes exactly twice the commission from the cash.
pub proof fn law_round_trip(v: BrokerView, q: QuoteView, b: FilledOrderView, s: FilledOrderView)
    requires
        b.order.buy,
        !s.order.buy,
        b.order.quantity == s.order.quantity,
        b.fill_price == s.fill_price,
        b.commission == s.commission,
    ensures
        after_fill(after_fill(v, q, b), q, s).balance == v.balance - 2 * b.commission,
        realized_profit_of(after_fill(after_fill(v, q, b), q, s).positions[q.name].orders)
            == realized_profit_of(target_position(v, q).orders),
{
    let w = after_fill(v, q, b);
    let start = target_position(v, q);
    assert(target_position(w, q).orders == start.orders.push(b));
    let o2 = start.orders.push(b).push(s);
    assert(o2.drop_last() == start.orders.push(b));
    assert(start.orders.push(b).drop_last() == start.orders);
    assert(b.fill_price * 100 * b.order.quantity == s.fill_price * 100 * s.order.quantity);
    let n = b.order.quantity;
    let pr = b.fill_price;
    assert(-(pr * 100 * n) + -(pr * 100 * (-n)) == 0) by (nonlinear_arith);
    assert(after_fill(w, q, s).positions[q.name].orders == o2);
    assert(realized_profit_of(o2) == realized_profit_of(start.orders.push(b)) + realized_term_of(s));
    assert(realized_profit_of(start.orders.push(b)) == realized_profit_of(start.orders) + realized_term_of(b));
}

/// A contract expiring on day D is not expired on day D, and is expired on day D + 1.
pub proof fn law_expiry_boundary(p: PositionView)
    ensures
        !expired_on(p, p.expiration),
        expired_on(p, p.expiration + 1),
{
}

} // verus!
