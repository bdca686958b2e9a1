//! The data model: price levels, order books and trades.
use crate::decimal::Dec;
use vstd::prelude::*;

verus! {

/// One price and the quantity resting there, on one side of a book.
#[derive(Clone, Copy, Debug)]
pub struct Level {
    pub price: Dec,
    pub quantity: Dec,
}

/// A snapshot of an order book: bids best (highest) first, asks best (lowest) first.
#[derive(Clone, Debug)]
pub struct OrderBook {
    pub bids: Vec<Level>,
    pub asks: Vec<Level>,
    pub timestamp: i64,
}

/// The aggressor side of a trade.
#[derive(Clone, Copy, Debug, PartialEq, Eq, Structural)]
pub enum Side {
    Buy,
    Sell,
}

/// An executed trade.
#[derive(Clone, Copy, Debug)]
pub struct Trade {
    pub price: Dec,
    pub quantity: Dec,
    pub side: Side,
    pub timestamp: i64,
}

impl Level {
    /// Both decimals are well formed and the quantity is not negative.
    pub open spec fn wf(&self) -> bool {
        self.price.wf() && self.quantity.wf() && self.quantity.units() >= 0
    }
}

impl Trade {
    /// Both decimals are well formed and the quantity is not negative.
    pub open spec fn wf(&self) -> bool {
        self.price.wf() && self.quantity.wf() && self.quantity.units() >= 0
    }
}

} // verus!
