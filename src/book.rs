//! The broker's keyed collections, each an `FnvHashMap` from a name to a value.

use fnv::FnvHashMap;
use vstd::prelude::*;

use crate::money::Money;
use crate::position::Position;
use crate::quote::Quote;

verus! {

/// The quotes a quote book holds, by contract name.
pub uninterp spec fn quotes_of(b: QuoteBook) -> Map<Seq<char>, Quote>;

/// The positions a position book holds, by contract name.
pub uninterp spec fn positions_of(b: PositionBook) -> Map<Seq<char>, Position>;

/// The prices a price book holds, by symbol.
pub uninterp spec fn prices_of(b: PriceBook) -> Map<Seq<char>, Money>;

/// The day's quotes, by contract name.
#[verifier::external_body]
pub struct QuoteBook {
    map: FnvHashMap<String, Quote>,
}

/// The positions, by contract name.
#[verifier::external_body]
pub struct PositionBook {
    map: FnvHashMap<String, Position>,
}

/// The last underlying price of each symbol.
#[verifier::external_body]
pub struct PriceBook {
    map: FnvHashMap<String, Money>,
}

impl QuoteBook {
    /// Relies on `HashMap::with_capacity_and_hasher`: an empty map with room
    /// for `capacity` entries.
    #[verifier::external_body]
    pub(crate) fn with_capacity(capacity: usize) -> (r: QuoteBook)
        ensures
            quotes_of(r).dom() == Set::<Seq<char>>::empty(),
    {
        QuoteBook { map: FnvHashMap::with_capacity_and_hasher(capacity, Default::default()) }
    }

    /// Relies on `HashMap::insert`: `name` now maps to `quote`, other entries unchanged.
    #[verifier::external_body]
    pub(crate) fn insert(&mut self, name: String, quote: Quote)
        ensures
            quotes_of(*final(self)) == quotes_of(*old(self)).insert(name@, quote),
    {
        self.map.insert(name, quote);
    }

    /// Relies on `HashMap::get`: the entry of `name`, if any.
    #[verifier::external_body]
    pub(crate) fn get(&self, name: &str) -> (r: Option<&Quote>)
        ensures
            match r {
                Some(q) => quotes_of(*self).contains_key(name@) && *q == quotes_of(*self)[name@],
                None => !quotes_of(*self).contains_key(name@),
            },
    {
        self.map.get(name)
    }

    /// Relies on `HashMap::len`: the number of entries.
    #[verifier::external_body]
    pub(crate) fn len(&self) -> (r: usize)
        ensures
            r == quotes_of(*self).len(),
    {
        self.map.len()
    }

    /// Relies on `HashMap::keys`: every name once, in no particular order.
    #[verifier::external_body]
    pub(crate) fn names(&self) -> (r: Vec<String>)
        ensures
            r@.map_values(|s: String| s@).to_set() == quotes_of(*self).dom(),
            r@.map_values(|s: String| s@).no_duplicates(),
    {
        self.map.keys().cloned().collect()
    }
}

impl PositionBook {
    /// Relies on `HashMap::default`: an empty map.
    #[verifier::external_body]
    pub(crate) fn new() -> (r: PositionBook)
        ensures
            positions_of(r).dom() == Set::<Seq<char>>::empty(),
    {
        PositionBook { map: FnvHashMap::default() }
    }

    /// Relies on `HashMap::insert`: `name` now maps to `position`, other entries unchanged.
    #[verifier::external_body]
    pub(crate) fn insert(&mut self, name: String, position: Position)
        ensures
            positions_of(*final(self)) == positions_of(*old(self)).insert(name@, position),
    {
        self.map.insert(name, position);
    }

    /// Relies on `HashMap::remove`: takes out the entry of `name`, if any.
    #[verifier::external_body]
    pub(crate) fn remove(&mut self, name: &str) -> (r: Option<Position>)
        ensures
            positions_of(*final(self)) == positions_of(*old(self)).remove(name@),
            match r {
                Some(p) => positions_of(*old(self)).contains_key(name@) && p == positions_of(
                    *old(self),
                )[name@],
                None => !positions_of(*old(self)).contains_key(name@),
            },
    {
        self.map.remove(name)
    }

    /// Relies on `HashMap::get`: the entry of `name`, if any.
    #[verifier::external_body]
    pub(crate) fn get(&self, name: &str) -> (r: Option<&Position>)
        ensures
            match r {
                Some(p) => positions_of(*self).contains_key(name@) && *p == positions_of(
                    *self,
                )[name@],
                None => !positions_of(*self).contains_key(name@),
            },
    {
        self.map.get(name)
    }

    /// Relies on `HashMap::keys`: every name once, in no particular order.
    #[verifier::external_body]
    pub(crate) fn names(&self) -> (r: Vec<String>)
        ensures
            r@.map_values(|s: String| s@).to_set() == positions_of(*self).dom(),
            r@.map_values(|s: String| s@).no_duplicates(),
    {
        self.map.keys().cloned().collect()
    }
}

impl PriceBook {
    /// Relies on `HashMap::default`: an empty map.
    #[verifier::external_body]
    pub(crate) fn new() -> (r: PriceBook)
        ensures
            prices_of(r).dom() == Set::<Seq<char>>::empty(),
    {
        PriceBook { map: FnvHashMap::default() }
    }

    /// Relies on `HashMap::insert`: `symbol` now maps to `price`, other entries unchanged.
    #[verifier::external_body]
    pub(crate) fn insert(&mut self, symbol: String, price: Money)
        ensures
            prices_of(*final(self)) == prices_of(*old(self)).insert(symbol@, price),
    {
        self.map.insert(symbol, price);
    }

    /// Relies on `HashMap::get`: the entry of `symbol`, if any, copied out.
    #[verifier::external_body]
    pub(crate) fn get(&self, symbol: &str) -> (r: Option<Money>)
        ensures
            match r {
                Some(p) => prices_of(*self).contains_key(symbol@) && p == prices_of(*self)[symbol@],
                None => !prices_of(*self).contains_key(symbol@),
            },
    {
        self.map.get(symbol).copied()
    }
}

} // verus!
