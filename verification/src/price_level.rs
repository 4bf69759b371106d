use vstd::prelude::*;

use crate::order::{Order, OrderSide, order_wf_resting};
use crate::price::Price;
use crate::quantity::Quantity;

verus! {

/// Sum of the remaining quantities of a queue of orders, as a mathematical
/// integer.
pub open spec fn sum_remaining(s: Seq<Order>) -> int
    decreases s.len(),
{
    if s.len() == 0 {
        0
    } else {
        s[0].remaining_quantity.raw + sum_remaining(s.skip(1))
    }
}

pub proof fn lemma_sum_remaining_nonneg(s: Seq<Order>)
    ensures
        sum_remaining(s) >= 0,
    decreases s.len(),
{
    if s.len() > 0 {
        lemma_sum_remaining_nonneg(s.skip(1));
    }
}

pub proof fn lemma_sum_remaining_push(s: Seq<Order>, o: Order)
    ensures
        sum_remaining(s.push(o)) == sum_remaining(s) + o.remaining_quantity.raw,
    decreases s.len(),
{
    if s.len() == 0 {
        assert(s.push(o)[0] == o);
        assert(s.push(o).skip(1) =~= Seq::<Order>::empty());
        assert(sum_remaining(s.push(o).skip(1)) == 0);
        assert(sum_remaining(s.push(o)) == o.remaining_quantity.raw + 0);
    } else {
        assert(s.push(o)[0] == s[0]);
        assert(s.push(o).skip(1) =~= s.skip(1).push(o));
        lemma_sum_remaining_push(s.skip(1), o);
        assert(sum_remaining(s.push(o)) == s[0].remaining_quantity.raw + sum_remaining(
            s.skip(1).push(o),
        ));
    }
}

pub proof fn lemma_sum_remaining_remove(s: Seq<Order>, i: int)
    requires
        0 <= i < s.len(),
    ensures
        sum_remaining(s.remove(i)) == sum_remaining(s) - s[i].remaining_quantity.raw,
    decreases s.len(),
{
    if i == 0 {
        assert(s.remove(0) =~= s.skip(1));
    } else {
        assert(s.remove(i).skip(1) =~= s.skip(1).remove(i - 1));
        lemma_sum_remaining_remove(s.skip(1), i - 1);
    }
}

pub proof fn lemma_sum_remaining_update(s: Seq<Order>, i: int, o: Order)
    requires
        0 <= i < s.len(),
    ensures
        sum_remaining(s.update(i, o)) == sum_remaining(s) - s[i].remaining_quantity.raw
            + o.remaining_quantity.raw,
    decreases s.len(),
{
    if i == 0 {
        assert(s.update(0, o).skip(1) =~= s.skip(1));
    } else {
        assert(s.update(i, o).skip(1) =~= s.skip(1).update(i - 1, o));
        lemma_sum_remaining_update(s.skip(1), i - 1, o);
    }
}

/// Some order in `s` carries the identifier `id`.
pub open spec fn has_order_id(s: Seq<Order>, id: u128) -> bool {
    exists|i: int| 0 <= i < s.len() && s[i].id == id
}

/// Identifiers within `s` name at most one order each.
pub open spec fn ids_unique(s: Seq<Order>) -> bool {
    forall|i: int, j: int|
        0 <= i < s.len() && 0 <= j < s.len() && i != j ==> s[i].id != s[j].id
}

/// A FIFO queue of resting orders sharing one price, oldest first, with a
/// cached aggregate of their remaining quantities.
#[derive(Debug, Clone)]
pub struct PriceLevel {
    pub price: Price,
    pub orders: Vec<Order>,
    pub total_volume: Quantity,
}

/// The level's internal invariant, as the book maintains it: non-empty,
/// every queued order well-formed for this side and price, and the cached
/// volume equal to the sum of the remainders.
pub open spec fn level_wf(l: PriceLevel, side: OrderSide) -> bool {
    &&& l.orders.len() > 0
    &&& forall|i: int|
        0 <= i < l.orders@.len() ==> order_wf_resting(#[trigger] l.orders@[i], side, l.price)
    &&& l.total_volume.raw == sum_remaining(l.orders@)
}

impl PriceLevel {
    /// An empty level at the given price.
    pub fn new(price: Price) -> (l: PriceLevel)
        ensures
            l.price == price,
            l.orders@ =~= Seq::<Order>::empty(),
            l.total_volume.raw == 0,
    {
        PriceLevel { price, orders: Vec::new(), total_volume: Quantity::new(0) }
    }

    /// Append an order to the tail of the queue and add its remainder to
    /// the cached volume.
    pub fn enqueue_order(&mut self, order: Order)
        requires
            old(self).total_volume.raw + order.remaining_quantity.raw <= u64::MAX,
        ensures
            final(self).orders@ == old(self).orders@.push(order),
            final(self).total_volume.raw == old(self).total_volume.raw
                + order.remaining_quantity.raw,
            final(self).price == old(self).price,
    {
        self.total_volume = self.total_volume.add(order.remaining_quantity);
        self.orders.push(order);
    }

    /// Remove the order with the given id, if present, and subtract its
    /// remainder from the cached volume. A linear scan: levels are shallow.
    pub fn dequeue_order_by_id(&mut self, order_id: u128) -> (r: Option<Order>)
        requires
            old(self).total_volume.raw == sum_remaining(old(self).orders@),
        ensures
            match r {
                None => {
                    &&& *final(self) == *old(self)
                    &&& !has_order_id(old(self).orders@, order_id)
                },
                Some(o) => {
                    &&& exists|i: int|
                        0 <= i < old(self).orders@.len() && old(self).orders@[i].id == order_id
                            && o == old(self).orders@[i] && final(self).orders@ == old(
                            self,
                        ).orders@.remove(i)
                    &&& o.id == order_id
                    &&& final(self).total_volume.raw == old(self).total_volume.raw
                        - o.remaining_quantity.raw
                    &&& final(self).total_volume.raw == sum_remaining(final(self).orders@)
                    &&& final(self).price == old(self).price
                },
            },
    {
        let n: usize = self.orders.len();
        let mut i: usize = 0;
        while i < n
            invariant
                *self == *old(self),
                self.total_volume.raw == sum_remaining(self.orders@),
                n == self.orders.len(),
                0 <= i <= n,
                forall|j: int| 0 <= j < i ==> self.orders@[j].id != order_id,
            decreases n - i,
        {
            if self.orders[i].id == order_id {
                proof {
                    lemma_sum_remaining_remove(self.orders@, i as int);
                    lemma_sum_remaining_nonneg(self.orders@.remove(i as int));
                }
                let o = self.orders.remove(i);
                self.total_volume = self.total_volume.sub(o.remaining_quantity);
                return Some(o);
            }
            i = i + 1;
        }
        None
    }

    /// Subtract a filled amount from the cached volume; the filled order's
    /// own remainder is adjusted separately by the matcher.
    pub fn update_volume(&mut self, quantity_filled: Quantity)
        requires
            quantity_filled.raw <= old(self).total_volume.raw,
        ensures
            final(self).total_volume.raw == old(self).total_volume.raw - quantity_filled.raw,
            final(self).orders == old(self).orders,
            final(self).price == old(self).price,
    {
        self.total_volume = self.total_volume.sub(quantity_filled);
    }

    pub fn is_empty(&self) -> (r: bool)
        ensures
            r == (self.orders@.len() == 0),
    {
        self.orders.len() == 0
    }

    /// The oldest resting order, if any.
    pub fn front(&self) -> (r: Option<&Order>)
        ensures
            match r {
                Some(o) => self.orders@.len() > 0 && *o == self.orders@[0],
                None => self.orders@.len() == 0,
            },
    {
        if self.orders.len() > 0 {
            Some(&self.orders[0])
        } else {
            None
        }
    }

    /// Mutable access to the oldest resting order. The caller adjusts the
    /// cached volume separately after changing the order's remainder.
    pub fn front_mut(&mut self) -> (r: &mut Order)
        requires
            old(self).orders@.len() > 0,
        ensures
            *r == old(self).orders@[0],
            final(self).orders@ == old(self).orders@.update(0, *final(r)),
            final(self).price == old(self).price,
            final(self).total_volume == old(self).total_volume,
    {
        &mut self.orders[0]
    }

    /// Drop the head order when it has been fully consumed.
    pub fn pop_if_filled(&mut self) -> (r: Option<Order>)
        ensures
            match r {
                Some(o) => {
                    &&& old(self).orders@.len() > 0
                    &&& o == old(self).orders@[0]
                    &&& o.remaining_quantity.raw == 0
                    &&& final(self).orders@ == old(self).orders@.remove(0)
                },
                None => {
                    &&& *final(self) == *old(self)
                    &&& (old(self).orders@.len() > 0 ==> old(
                        self,
                    ).orders@[0].remaining_quantity.raw != 0)
                },
            },
            final(self).price == old(self).price,
            final(self).total_volume == old(self).total_volume,
    {
        if self.orders.len() > 0 {
            if self.orders[0].is_fully_filled() {
                let o = self.orders.remove(0);
                return Some(o);
            }
        }
        None
    }
}

} // verus!
