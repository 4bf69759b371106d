use vstd::prelude::*;

use crate::clock::now_millis;
use crate::ids::fresh_id;
use crate::price::Price;
use crate::quantity::Quantity;

verus! {

#[derive(Debug, Clone, Copy, PartialEq, Eq, Structural)]
pub enum OrderSide {
    Buy,
    Sell,
}

impl OrderSide {
    /// The side a taker on this side matches against.
    pub open spec fn spec_opposite(self) -> OrderSide {
        match self {
            OrderSide::Buy => OrderSide::Sell,
            OrderSide::Sell => OrderSide::Buy,
        }
    }

    pub fn opposite(self) -> (r: OrderSide)
        ensures
            r == self.spec_opposite(),
    {
        match self {
            OrderSide::Buy => OrderSide::Sell,
            OrderSide::Sell => OrderSide::Buy,
        }
    }
}

#[derive(Debug, Clone, Copy, PartialEq, Eq, Structural)]
pub enum OrderType {
    Limit,
    Market,
}

#[derive(Debug, Clone, Copy, PartialEq, Eq, Structural)]
pub enum OrderStatus {
    Open,
    PartiallyFilled,
    Filled,
    Cancelled,
}

/// An order as the engine tracks it. Identifiers are opaque 128-bit values;
/// `price` is present exactly on limit orders; the timestamp is a Unix
/// millisecond count attached at creation.
#[derive(Debug, Clone, PartialEq, Eq)]
pub struct Order {
    pub id: u128,
    pub user_id: u128,
    pub side: OrderSide,
    pub order_type: OrderType,
    pub price: Option<Price>,
    pub original_quantity: Quantity,
    pub remaining_quantity: Quantity,
    pub status: OrderStatus,
    pub timestamp: i64,
}

/// What must hold of an order resting on the book at price `price` on side
/// `side`: a limit order at that price, partly unfilled, with its status
/// reflecting whether any of it has traded.
pub open spec fn order_wf_resting(o: Order, side: OrderSide, price: Price) -> bool {
    &&& o.side == side
    &&& o.order_type == OrderType::Limit
    &&& o.price == Some(price)
    &&& 0 < o.remaining_quantity.raw <= o.original_quantity.raw
    &&& (o.status == OrderStatus::Open <==> o.remaining_quantity.raw == o.original_quantity.raw)
    &&& (o.status == OrderStatus::Open || o.status == OrderStatus::PartiallyFilled)
}

impl Order {
    /// A fresh limit order: wholly unfilled, status `Open`, with a
    /// newly drawn identifier and the current timestamp.
    pub fn new_limit(user_id: u128, side: OrderSide, price: Price, quantity: Quantity) -> (o:
        Order)
        ensures
            o.user_id == user_id,
            o.side == side,
            o.order_type == OrderType::Limit,
            o.price == Some(price),
            o.original_quantity == quantity,
            o.remaining_quantity == quantity,
            o.status == OrderStatus::Open,
    {
        Order {
            id: fresh_id(),
            user_id,
            side,
            order_type: OrderType::Limit,
            price: Some(price),
            original_quantity: quantity,
            remaining_quantity: quantity,
            status: OrderStatus::Open,
            timestamp: now_millis(),
        }
    }

    /// A fresh market order: no limit price; market orders never rest.
    pub fn new_market(user_id: u128, side: OrderSide, quantity: Quantity) -> (o: Order)
        ensures
            o.user_id == user_id,
            o.side == side,
            o.order_type == OrderType::Market,
            o.price is None,
            o.original_quantity == quantity,
            o.remaining_quantity == quantity,
            o.status == OrderStatus::Open,
    {
        Order {
            id: fresh_id(),
            user_id,
            side,
            order_type: OrderType::Market,
            price: None,
            original_quantity: quantity,
            remaining_quantity: quantity,
            status: OrderStatus::Open,
            timestamp: now_millis(),
        }
    }

    pub fn is_fully_filled(&self) -> (r: bool)
        ensures
            r == (self.remaining_quantity.raw == 0),
    {
        self.remaining_quantity.is_zero()
    }

    /// Record a fill of `quantity` units: the remainder shrinks by exactly
    /// that much and the status becomes `Filled` when nothing is left,
    /// `PartiallyFilled` otherwise. Filling more than remains is a
    /// programmer error and is ruled out here.
    pub fn fill(&mut self, quantity: Quantity)
        requires
            quantity.raw <= old(self).remaining_quantity.raw,
        ensures
            final(self).remaining_quantity.raw == old(self).remaining_quantity.raw - quantity.raw,
            final(self).status == if final(self).remaining_quantity.raw == 0 {
                OrderStatus::Filled
            } else {
                OrderStatus::PartiallyFilled
            },
            final(self).id == old(self).id,
            final(self).user_id == old(self).user_id,
            final(self).side == old(self).side,
            final(self).order_type == old(self).order_type,
            final(self).price == old(self).price,
            final(self).original_quantity == old(self).original_quantity,
            final(self).timestamp == old(self).timestamp,
    {
        self.remaining_quantity = self.remaining_quantity.sub(quantity);

        if self.is_fully_filled() {
            self.status = OrderStatus::Filled;
        } else {
            self.status = OrderStatus::PartiallyFilled;
        }
    }

    /// Mark the order cancelled; nothing else changes.
    pub fn cancel(&mut self)
        ensures
            *final(self) == (Order { status: OrderStatus::Cancelled, ..*old(self) }),
    {
        self.status = OrderStatus::Cancelled;
    }
}

} // verus!
