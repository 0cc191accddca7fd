use vstd::prelude::*;

verus! {

/// Which side of the book an order rests on.
#[derive(Clone, Copy, PartialEq, Eq, Structural, Debug)]
pub enum OrderType {
    Buy,
    Sell,
}

/// One resting intent to trade. Prices and quantities are integer ticks and
/// lots, so that partial fills terminate exactly at zero. `quantity` is the
/// only field the engine ever changes; `id`, `order_type` and `price` are
/// immutable after creation.
#[derive(Clone, Copy, PartialEq, Eq, Structural, Debug)]
pub struct Order {
    pub id: u64,
    pub order_type: OrderType,
    pub price: u64,
    pub quantity: u64,
}

/// An immutable record of one executed match. `price` is always the resting
/// sell order's price at the moment of the match, and `quantity` the minimum
/// of the two remaining quantities.
#[derive(Clone, Copy, PartialEq, Eq, Structural, Debug)]
pub struct Trade {
    pub buy_id: u64,
    pub sell_id: u64,
    pub price: u64,
    pub quantity: u64,
}

} // verus!
