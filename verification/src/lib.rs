//! A single-asset continuous limit-order matching engine.
//!
//! The book holds resting buy and sell orders plus the accumulated trade
//! history. Submitting an order inserts it on its side, re-sorts both sides
//! by price priority, and matches crossing pairs until none remain, at the
//! resting sell order's price.

pub mod book;
pub mod laws;
pub mod lemmas;
pub mod model;
pub mod order;
