use vstd::prelude::*;

use crate::clock::now_millis;
use crate::ids::fresh_id;
use crate::price::Price;
use crate::quantity::Quantity;

verus! {

/// One execution: maker is the resting order, taker the incoming one.
/// The price is always the maker's resting price. Immutable once emitted.
#[derive(Debug, Clone, Copy, PartialEq, Eq)]
pub struct Trade {
    pub id: u128,
    pub maker_order_id: u128,
    pub taker_order_id: u128,
    pub maker_user_id: u128,
    pub taker_user_id: u128,
    pub price: Price,
    pub quantity: Quantity,
    pub timestamp: i64,
}

impl Trade {
    /// A fresh trade record with a newly drawn identifier and the current
    /// timestamp; every other field is exactly as given.
    pub fn new(
        maker_order_id: u128,
        taker_order_id: u128,
        maker_user_id: u128,
        taker_user_id: u128,
        price: Price,
        quantity: Quantity,
    ) -> (t: Trade)
        ensures
            t.maker_order_id == maker_order_id,
            t.taker_order_id == taker_order_id,
            t.maker_user_id == maker_user_id,
            t.taker_user_id == taker_user_id,
            t.price == price,
            t.quantity == quantity,
    {
        Trade {
            id: fresh_id(),
            maker_order_id,
            taker_order_id,
            maker_user_id,
            taker_user_id,
            price,
            quantity,
            timestamp: now_millis(),
        }
    }
}

} // verus!
