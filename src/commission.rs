use vstd::prelude::*;

use crate::filled_order::{FilledOrder, FilledOrderView};
use crate::money::{in_money_range, Money};

verus! {

/// A fee schedule: what a filled order costs in commission.
pub trait Commission {
    /// The fee, in cents, this schedule charges for a fill.
    spec fn fee_for(&self, f: FilledOrderView) -> int;

    /// The commission for `filled_order`; never negative.
    fn commission_for(&self, filled_order: &FilledOrder) -> (r: Money)
        ensures
            r@ == self.fee_for(filled_order@),
            0 <= r@,
            in_money_range(r@),
    ;
}

/// The flat fee of the Charles Schwab schedule, in cents.
pub const SCHWAB_BASE_FEE_CENTS: i64 = 495;

/// The per-contract fee of the Charles Schwab schedule, in cents.
pub const SCHWAB_PER_CONTRACT_CENTS: i64 = 65;

/// The highest fill price, in cents, at which buying to close is free.
pub const SCHWAB_FREE_CLOSE_CENTS: i64 = 5;

/// The Charles Schwab schedule: nothing for buying to close at $0.05 or less,
/// otherwise $4.95 plus $0.65 per contract.
pub open spec fn schwab_fee_of(f: FilledOrderView) -> int {
    if f.order.buy && !f.order.open && f.fill_price <= SCHWAB_FREE_CLOSE_CENTS {
        0
    } else {
        SCHWAB_BASE_FEE_CENTS + SCHWAB_PER_CONTRACT_CENTS * f.order.quantity
    }
}

/// Charles Schwab's option commissions.
pub struct CharlesSchwab {
    base_fee: Money,
    per_contract: Money,
}

impl CharlesSchwab {
    #[verifier::type_invariant]
    spec fn inv(&self) -> bool {
        self.base_fee@ == SCHWAB_BASE_FEE_CENTS && self.per_contract@ == SCHWAB_PER_CONTRACT_CENTS
    }

    pub fn new() -> (r: CharlesSchwab) {
        CharlesSchwab {
            base_fee: Money::new(4, 95),
            per_contract: Money::new(0, 65),
        }
    }
}

impl Commission for CharlesSchwab {
    open spec fn fee_for(&self, f: FilledOrderView) -> int {
        schwab_fee_of(f)
    }

    fn commission_for(&self, filled_order: &FilledOrder) -> (r: Money) {
        proof {
            use_type_invariant(self);
        }
        let quantity = filled_order.quantity();
        if filled_order.buy_to_close() && filled_order.fill_price() <= Money::new(
            0,
            SCHWAB_FREE_CLOSE_CENTS,
        ) {
            Money::zero()
        } else {
            self.base_fee + self.per_contract * (quantity as i64)
        }
    }
}

/// A schedule that charges nothing.
pub struct NullCommission {}

impl NullCommission {
    pub fn new() -> (r: NullCommission) {
        NullCommission {  }
    }
}

impl Commission for NullCommission {
    open spec fn fee_for(&self, f: FilledOrderView) -> int {
        0
    }

    fn commission_for(&self, filled_order: &FilledOrder) -> (r: Money) {
        Money::zero()
    }
}

} // verus!
