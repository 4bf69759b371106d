use vstd::prelude::*;

use crate::balance::{Currency, UserBalance};
use crate::errors::BookError;
use crate::order::{order_wf_resting, Order, OrderSide, OrderStatus, OrderType};
use crate::price::Price;
use crate::price_level::{has_order_id, level_wf, PriceLevel};
use crate::quantity::Quantity;

verus! {

/// Where a resting order stands: its side and price locate the level that
/// holds the order with this id.
#[derive(Debug, Clone, Copy, PartialEq, Eq, Structural)]
pub struct OrderRef {
    pub id: u128,
    pub side: OrderSide,
    pub price: Price,
}

/// Sum over all users of one currency's holdings, available plus locked.
pub open spec fn sum_holdings(s: Seq<UserBalance>, c: Currency) -> int
    decreases s.len(),
{
    if s.len() == 0 {
        0
    } else {
        s[0].spec_total(c) + sum_holdings(s.skip(1), c)
    }
}

pub proof fn lemma_sum_holdings_nonneg(s: Seq<UserBalance>, c: Currency)
    ensures
        sum_holdings(s, c) >= 0,
    decreases s.len(),
{
    if s.len() > 0 {
        lemma_sum_holdings_nonneg(s.skip(1), c);
    }
}

pub proof fn lemma_sum_holdings_push(s: Seq<UserBalance>, c: Currency, b: UserBalance)
    ensures
        sum_holdings(s.push(b), c) == sum_holdings(s, c) + b.spec_total(c),
    decreases s.len(),
{
    if s.len() == 0 {
        assert(s.push(b)[0] == b);
        assert(s.push(b).skip(1) =~= Seq::<UserBalance>::empty());
        assert(sum_holdings(s.push(b).skip(1), c) == 0);
    } else {
        assert(s.push(b)[0] == s[0]);
        assert(s.push(b).skip(1) =~= s.skip(1).push(b));
        lemma_sum_holdings_push(s.skip(1), c, b);
        assert(sum_holdings(s.push(b), c) == s[0].spec_total(c) + sum_holdings(
            s.skip(1).push(b),
            c,
        ));
    }
}

pub proof fn lemma_sum_holdings_update(s: Seq<UserBalance>, c: Currency, i: int, b: UserBalance)
    requires
        0 <= i < s.len(),
    ensures
        sum_holdings(s.update(i, b), c) == sum_holdings(s, c) - s[i].spec_total(c)
            + b.spec_total(c),
    decreases s.len(),
{
    if i == 0 {
        assert(s.update(0, b).skip(1) =~= s.skip(1));
        assert(s.update(0, b)[0] == b);
    } else {
        assert(s.update(i, b)[0] == s[0]);
        assert(s.update(i, b).skip(1) =~= s.skip(1).update(i - 1, b));
        lemma_sum_holdings_update(s.skip(1), c, i - 1, b);
    }
}

/// Any single user's holding is bounded by the sum over all users.
pub proof fn lemma_sum_holdings_elem_bound(s: Seq<UserBalance>, c: Currency, i: int)
    requires
        0 <= i < s.len(),
    ensures
        s[i].spec_total(c) <= sum_holdings(s, c),
    decreases s.len(),
{
    if i == 0 {
        lemma_sum_holdings_nonneg(s.skip(1), c);
    } else {
        lemma_sum_holdings_elem_bound(s.skip(1), c, i - 1);
        assert(s.skip(1)[i - 1] == s[i]);
    }
}

/// Each user id names at most one balance entry.
pub open spec fn users_unique(s: Seq<UserBalance>) -> bool {
    forall|i: int, j: int|
        0 <= i < s.len() && 0 <= j < s.len() && i != j ==> s[i].user_id != s[j].user_id
}

pub open spec fn has_user(s: Seq<UserBalance>, user_id: u128) -> bool {
    exists|i: int| 0 <= i < s.len() && s[i].user_id == user_id
}

/// The position of a user's balance entry; meaningful when `has_user` holds
/// and `users_unique` makes it the only one.
pub open spec fn user_index(s: Seq<UserBalance>, user_id: u128) -> int {
    choose|i: int| 0 <= i < s.len() && s[i].user_id == user_id
}

/// The user's balance entry.
pub open spec fn balance_of(s: Seq<UserBalance>, user_id: u128) -> UserBalance {
    s[user_index(s, user_id)]
}

/// Bid levels are strictly descending in price: the best bid first.
pub open spec fn bids_sorted(levels: Seq<PriceLevel>) -> bool {
    forall|i: int, j: int|
        0 <= i < j < levels.len() ==> levels[i].price.raw > levels[j].price.raw
}

/// Ask levels are strictly ascending in price: the best ask first.
pub open spec fn asks_sorted(levels: Seq<PriceLevel>) -> bool {
    forall|i: int, j: int|
        0 <= i < j < levels.len() ==> levels[i].price.raw < levels[j].price.raw
}

/// Every level on the side is well-formed for that side.
pub open spec fn side_wf(levels: Seq<PriceLevel>, side: OrderSide) -> bool {
    forall|i: int| 0 <= i < levels.len() ==> level_wf(#[trigger] levels[i], side)
}

/// Some level on the side holds an order with this id.
pub open spec fn side_has_order_id(levels: Seq<PriceLevel>, id: u128) -> bool {
    exists|i: int| 0 <= i < levels.len() && has_order_id(#[trigger] levels[i].orders@, id)
}

/// The exact order value `o` rests at some position of the book.
pub open spec fn is_resting_order(book: OrderBook, o: Order) -> bool {
    exists|side: OrderSide, i: int, j: int|
        0 <= i < book.book_side(side).len() && 0 <= j < book.book_side(side)[i].orders@.len() && (
        #[trigger] book.book_side(side)[i].orders@[j]) == o
}

/// The index holds an entry with exactly these coordinates.
pub open spec fn index_has(entries: Seq<OrderRef>, id: u128, side: OrderSide, price: Price) -> bool {
    exists|k: int|
        0 <= k < entries.len() && entries[k] == (OrderRef { id, side, price })
}

/// The two-sided book: bid levels in descending and ask levels in ascending
/// price order, a by-id index of every resting order, and the per-user
/// balance table with cached currency totals.
#[derive(Debug, Clone)]
pub struct OrderBook {
    pub bids: Vec<PriceLevel>,
    pub asks: Vec<PriceLevel>,
    pub orders: Vec<OrderRef>,
    pub user_balances: Vec<UserBalance>,
    pub total_usd: u64,
    pub total_btc: u64,
}

impl OrderBook {
    /// The levels of one side, best price first.
    pub open spec fn book_side(self, side: OrderSide) -> Seq<PriceLevel> {
        match side {
            OrderSide::Buy => self.bids@,
            OrderSide::Sell => self.asks@,
        }
    }

    /// An order with this id rests somewhere on the book.
    pub open spec fn resting(self, id: u128) -> bool {
        side_has_order_id(self.bids@, id) || side_has_order_id(self.asks@, id)
    }

    /// The order resting under this id: meaningful when the id rests and
    /// the book invariant holds, which make it the only one.
    pub open spec fn resting_order(self, id: u128) -> Order {
        choose|o: Order| is_resting_order(self, o) && o.id == id
    }

    /// Every index entry points at a level of its side with its price that
    /// holds an order with its id.
    pub open spec fn entry_ok(self, e: OrderRef) -> bool {
        exists|i: int|
            0 <= i < self.book_side(e.side).len() && (#[trigger] self.book_side(e.side)[i]).price
                == e.price && has_order_id(self.book_side(e.side)[i].orders@, e.id)
    }

    /// Every order resting on `side` has an index entry with its id, that
    /// side, and its level's price.
    pub open spec fn index_complete_side(self, side: OrderSide) -> bool {
        forall|i: int, j: int|
            0 <= i < self.book_side(side).len() && 0 <= j < self.book_side(side)[i].orders@.len()
                ==> index_has(
                self.orders@,
                (#[trigger] self.book_side(side)[i].orders@[j]).id,
                side,
                self.book_side(side)[i].price,
            )
    }

    /// Index entries carry pairwise distinct ids.
    pub open spec fn index_ids_unique(self) -> bool {
        forall|k1: int, k2: int|
            0 <= k1 < self.orders@.len() && 0 <= k2 < self.orders@.len() && k1 != k2
                ==> self.orders@[k1].id != self.orders@[k2].id
    }

    /// Within each level, ids are pairwise distinct.
    pub open spec fn level_ids_unique(self, side: OrderSide) -> bool {
        forall|i: int, j1: int, j2: int|
            #![trigger self.book_side(side)[i].orders@[j1], self.book_side(side)[i].orders@[j2]]
            0 <= i < self.book_side(side).len() && 0 <= j1 < self.book_side(side)[i].orders@.len()
                && 0 <= j2 < self.book_side(side)[i].orders@.len() && j1 != j2 ==> self.book_side(
                side,
            )[i].orders@[j1].id != self.book_side(side)[i].orders@[j2].id
    }

    /// The by-id index lists exactly the resting orders: every entry points
    /// at one, every resting order is pointed at, and ids repeat nowhere.
    pub open spec fn index_wf(self) -> bool {
        &&& forall|k: int| 0 <= k < self.orders@.len() ==> self.entry_ok(#[trigger] self.orders@[k])
        &&& self.index_complete_side(OrderSide::Buy)
        &&& self.index_complete_side(OrderSide::Sell)
        &&& self.index_ids_unique()
        &&& self.level_ids_unique(OrderSide::Buy)
        &&& self.level_ids_unique(OrderSide::Sell)
    }

    /// Best bid strictly below best ask whenever both sides are non-empty.
    pub open spec fn spread_ok(self) -> bool {
        self.bids@.len() > 0 && self.asks@.len() > 0 ==> self.bids@[0].price.raw
            < self.asks@[0].price.raw
    }

    /// The balance table: unique users, and the cached totals equal to the
    /// sums over all users, so every holding fits the fixed-point range.
    pub open spec fn balances_wf(self) -> bool {
        &&& users_unique(self.user_balances@)
        &&& self.total_usd == sum_holdings(self.user_balances@, Currency::Usd)
        &&& self.total_btc == sum_holdings(self.user_balances@, Currency::Btc)
    }

    /// The book's whole invariant, re-established by every operation.
    pub open spec fn wf(self) -> bool {
        &&& side_wf(self.bids@, OrderSide::Buy)
        &&& side_wf(self.asks@, OrderSide::Sell)
        &&& bids_sorted(self.bids@)
        &&& asks_sorted(self.asks@)
        &&& self.spread_ok()
        &&& self.index_wf()
        &&& self.balances_wf()
    }

    /// The cached total of one currency.
    pub open spec fn spec_total(self, c: Currency) -> u64 {
        match c {
            Currency::Usd => self.total_usd,
            Currency::Btc => self.total_btc,
        }
    }

    /// An empty book: no levels, no resting orders, no balances.
    pub fn new() -> (book: OrderBook)
        ensures
            book.wf(),
            book.bids@.len() == 0,
            book.asks@.len() == 0,
            book.orders@.len() == 0,
            book.user_balances@.len() == 0,
            book.total_usd == 0,
            book.total_btc == 0,
    {
        OrderBook {
            bids: Vec::new(),
            asks: Vec::new(),
            orders: Vec::new(),
            user_balances: Vec::new(),
            total_usd: 0,
            total_btc: 0,
        }
    }

    /// The highest resting bid price, if any.
    pub fn best_bid(&self) -> (r: Option<Price>)
        ensures
            self.bids@.len() > 0 ==> r == Some(self.bids@[0].price),
            self.bids@.len() == 0 ==> r is None,
    {
        if self.bids.len() > 0 {
            Some(self.bids[0].price)
        } else {
            None
        }
    }

    /// The lowest resting ask price, if any.
    pub fn best_ask(&self) -> (r: Option<Price>)
        ensures
            self.asks@.len() > 0 ==> r == Some(self.asks@[0].price),
            self.asks@.len() == 0 ==> r is None,
    {
        if self.asks.len() > 0 {
            Some(self.asks[0].price)
        } else {
            None
        }
    }

    /// The position of this user's balance entry, if one exists.
    fn find_balance_index(&self, user_id: u128) -> (r: Option<usize>)
        ensures
            match r {
                Some(i) => i < self.user_balances@.len() && self.user_balances@[i as int].user_id
                    == user_id,
                None => !has_user(self.user_balances@, user_id),
            },
    {
        let n: usize = self.user_balances.len();
        let mut i: usize = 0;
        while i < n
            invariant
                n == self.user_balances.len(),
                0 <= i <= n,
                forall|j: int| 0 <= j < i ==> self.user_balances@[j].user_id != user_id,
            decreases n - i,
        {
            if self.user_balances[i].user_id == user_id {
                return Some(i);
            }
            i = i + 1;
        }
        None
    }

    /// Ensure this user has a balance entry, creating an empty one on first
    /// reference.
    pub fn get_or_create_balance(&mut self, user_id: u128)
        requires
            old(self).balances_wf(),
        ensures
            self_unchanged_but_balances(*old(self), *final(self)),
            final(self).balances_wf(),
            has_user(final(self).user_balances@, user_id),
            final(self).total_usd == old(self).total_usd,
            final(self).total_btc == old(self).total_btc,
            has_user(old(self).user_balances@, user_id) ==> *final(self) == *old(self),
            !has_user(old(self).user_balances@, user_id) ==> final(self).user_balances@ == old(
                self,
            ).user_balances@.push(UserBalance::new_spec(user_id)),
    {
        let existing = self.find_balance_index(user_id);
        if existing.is_none() {
            let b = UserBalance::new(user_id);
            proof {
                lemma_sum_holdings_push(self.user_balances@, Currency::Usd, b);
                lemma_sum_holdings_push(self.user_balances@, Currency::Btc, b);
            }
            self.user_balances.push(b);
            proof {
                let n = self.user_balances@.len() - 1;
                assert(self.user_balances@[n].user_id == user_id);
                assert(has_user(self.user_balances@, user_id));
            }
        }
    }

    /// This user's balance entry, if the user is known.
    pub fn get_user_balance(&self, user_id: u128) -> (r: Option<&UserBalance>)
        ensures
            match r {
                Some(b) => has_user(self.user_balances@, user_id) && b.user_id == user_id
                    && exists|i: int|
                    0 <= i < self.user_balances@.len() && self.user_balances@[i] == *b,
                None => !has_user(self.user_balances@, user_id),
            },
    {
        match self.find_balance_index(user_id) {
            Some(i) => Some(&self.user_balances[i]),
            None => None,
        }
    }

    /// Whether the user exists and has at least `amount` of `currency`
    /// freely available.
    pub fn has_sufficient_balance(&self, user_id: u128, currency: Currency, amount: u64) -> (r:
        bool)
        requires
            self.balances_wf(),
        ensures
            r == (has_user(self.user_balances@, user_id) && balance_of(
                self.user_balances@,
                user_id,
            ).spec_available(currency) >= amount),
    {
        match self.find_balance_index(user_id) {
            Some(i) => {
                proof {
                    lemma_user_index_agrees(self.user_balances@, user_id, i as int);
                }
                self.user_balances[i].get_balance(currency) >= amount
            },
            None => false,
        }
    }

    /// Credit a user's available balance, creating the account on first
    /// reference. Fails, changing nothing, exactly when the venue-wide
    /// total of the currency would leave the fixed-point range.
    pub fn add_funds(&mut self, user_id: u128, currency: Currency, amount: u64) -> (r: Result<
        (),
        BookError,
    >)
        requires
            old(self).balances_wf(),
        ensures
            balances_delta_ok(*old(self), *final(self), user_id),
            old(self).spec_total(currency) + amount > u64::MAX ==> r == Err::<(), BookError>(
                BookError::Overflow,
            ) && same_balances(*old(self), *final(self)),
            old(self).spec_total(currency) + amount <= u64::MAX ==> {
                &&& r is Ok
                &&& has_user(final(self).user_balances@, user_id)
                &&& avail_of(*final(self), user_id, currency) == avail_of(
                    *old(self),
                    user_id,
                    currency,
                ) + amount
                &&& locked_of(*final(self), user_id, currency) == locked_of(
                    *old(self),
                    user_id,
                    currency,
                )
                &&& avail_of(*final(self), user_id, currency.spec_other()) == avail_of(
                    *old(self),
                    user_id,
                    currency.spec_other(),
                )
                &&& locked_of(*final(self), user_id, currency.spec_other()) == locked_of(
                    *old(self),
                    user_id,
                    currency.spec_other(),
                )
                &&& final(self).spec_total(currency) == old(self).spec_total(currency) + amount
                &&& final(self).spec_total(currency.spec_other()) == old(self).spec_total(
                    currency.spec_other(),
                )
            },
    {
        let total: u64 = match currency {
            Currency::Usd => self.total_usd,
            Currency::Btc => self.total_btc,
        };
        if amount > u64::MAX - total {
            return Err(BookError::Overflow);
        }
        let ghost s0 = self.user_balances@;
        self.get_or_create_balance(user_id);
        proof {
            if !has_user(s0, user_id) {
                lemma_push_entry(s0, UserBalance::new_spec(user_id));
            }
        }
        let ghost s1 = self.user_balances@;
        let i = self.balance_index(user_id);
        proof {
            lemma_user_index_agrees(s1, user_id, i as int);
            lemma_sum_holdings_elem_bound(s1, currency, i as int);
        }
        let b = &mut self.user_balances[i];
        b.add_balance(currency, amount);
        proof {
            lemma_sum_holdings_update(s1, Currency::Usd, i as int, self.user_balances@[i as int]);
            lemma_sum_holdings_update(s1, Currency::Btc, i as int, self.user_balances@[i as int]);
            lemma_single_entry_change(s1, self.user_balances@, i as int);
        }
        match currency {
            Currency::Usd => {
                self.total_usd = self.total_usd + amount;
            },
            Currency::Btc => {
                self.total_btc = self.total_btc + amount;
            },
        }
        Ok(())
    }

    /// Debit a user's available balance. Fails, changing nothing, exactly
    /// when the user is unknown or has less than `amount` available.
    pub fn deduct_balance(&mut self, user_id: u128, currency: Currency, amount: u64) -> (r: Result<
        (),
        BookError,
    >)
        requires
            old(self).balances_wf(),
        ensures
            balances_delta_ok(*old(self), *final(self), user_id),
            !has_user(old(self).user_balances@, user_id) ==> r == Err::<(), BookError>(
                BookError::NotFound,
            ) && same_balances(*old(self), *final(self)),
            has_user(old(self).user_balances@, user_id) && amount > avail_of(
                *old(self),
                user_id,
                currency,
            ) ==> r == Err::<(), BookError>(BookError::InsufficientBalance) && same_balances(*old(self), *final(self)),
            has_user(old(self).user_balances@, user_id) && amount <= avail_of(
                *old(self),
                user_id,
                currency,
            ) ==> {
                &&& r is Ok
                &&& has_user(final(self).user_balances@, user_id)
                &&& avail_of(*final(self), user_id, currency) == avail_of(
                    *old(self),
                    user_id,
                    currency,
                ) - amount
                &&& locked_of(*final(self), user_id, currency) == locked_of(
                    *old(self),
                    user_id,
                    currency,
                )
                &&& avail_of(*final(self), user_id, currency.spec_other()) == avail_of(
                    *old(self),
                    user_id,
                    currency.spec_other(),
                )
                &&& locked_of(*final(self), user_id, currency.spec_other()) == locked_of(
                    *old(self),
                    user_id,
                    currency.spec_other(),
                )
                &&& final(self).spec_total(currency) == old(self).spec_total(currency) - amount
                &&& final(self).spec_total(currency.spec_other()) == old(self).spec_total(
                    currency.spec_other(),
                )
            },
    {
        let i_opt = self.find_balance_index(user_id);
        match i_opt {
            None => Err(BookError::NotFound),
            Some(i) => {
                let ghost s1 = self.user_balances@;
                proof {
                    lemma_user_index_agrees(s1, user_id, i as int);
                    lemma_sum_holdings_elem_bound(s1, currency, i as int);
                }
                let b = &mut self.user_balances[i];
                let res = b.subtract_balance(currency, amount);
                match res {
                    Ok(()) => {
                        proof {
                            lemma_sum_holdings_update(
                                s1,
                                Currency::Usd,
                                i as int,
                                self.user_balances@[i as int],
                            );
                            lemma_sum_holdings_update(
                                s1,
                                Currency::Btc,
                                i as int,
                                self.user_balances@[i as int],
                            );
                            lemma_single_entry_change(s1, self.user_balances@, i as int);
                        }
                        match currency {
                            Currency::Usd => {
                                self.total_usd = self.total_usd - amount;
                            },
                            Currency::Btc => {
                                self.total_btc = self.total_btc - amount;
                            },
                        }
                        Ok(())
                    },
                    Err(e) => {
                        proof {
                            assert(self.user_balances@ =~= s1);
                        }
                        Err(e)
                    },
                }
            },
        }
    }

    /// Credit a user's available balance; same behaviour as `add_funds`.
    pub fn credit_balance(&mut self, user_id: u128, currency: Currency, amount: u64) -> (r: Result<
        (),
        BookError,
    >)
        requires
            old(self).balances_wf(),
        ensures
            balances_delta_ok(*old(self), *final(self), user_id),
            old(self).spec_total(currency) + amount > u64::MAX ==> r == Err::<(), BookError>(
                BookError::Overflow,
            ) && same_balances(*old(self), *final(self)),
            old(self).spec_total(currency) + amount <= u64::MAX ==> {
                &&& r is Ok
                &&& has_user(final(self).user_balances@, user_id)
                &&& avail_of(*final(self), user_id, currency) == avail_of(
                    *old(self),
                    user_id,
                    currency,
                ) + amount
                &&& locked_of(*final(self), user_id, currency) == locked_of(
                    *old(self),
                    user_id,
                    currency,
                )
                &&& avail_of(*final(self), user_id, currency.spec_other()) == avail_of(
                    *old(self),
                    user_id,
                    currency.spec_other(),
                )
                &&& locked_of(*final(self), user_id, currency.spec_other()) == locked_of(
                    *old(self),
                    user_id,
                    currency.spec_other(),
                )
                &&& final(self).spec_total(currency) == old(self).spec_total(currency) + amount
                &&& final(self).spec_total(currency.spec_other()) == old(self).spec_total(
                    currency.spec_other(),
                )
            },
    {
        self.add_funds(user_id, currency, amount)
    }

    /// Move part of a user's available balance into the locked bucket,
    /// reserving it for an open order. Fails, changing nothing, exactly
    /// when the user is unknown or has less than `amount` available.
    /// The user's total holding, and the venue totals, never change.
    pub fn lock_funds(&mut self, user_id: u128, currency: Currency, amount: u64) -> (r: Result<
        (),
        BookError,
    >)
        requires
            old(self).balances_wf(),
        ensures
            balances_delta_ok(*old(self), *final(self), user_id),
            final(self).total_usd == old(self).total_usd,
            final(self).total_btc == old(self).total_btc,
            !has_user(old(self).user_balances@, user_id) ==> r == Err::<(), BookError>(
                BookError::InsufficientBalance,
            ) && same_balances(*old(self), *final(self)),
            has_user(old(self).user_balances@, user_id) && amount > avail_of(
                *old(self),
                user_id,
                currency,
            ) ==> r == Err::<(), BookError>(BookError::InsufficientBalance) && same_balances(*old(self), *final(self)),
            has_user(old(self).user_balances@, user_id) && amount <= avail_of(
                *old(self),
                user_id,
                currency,
            ) ==> {
                &&& r is Ok
                &&& has_user(final(self).user_balances@, user_id)
                &&& avail_of(*final(self), user_id, currency) == avail_of(
                    *old(self),
                    user_id,
                    currency,
                ) - amount
                &&& locked_of(*final(self), user_id, currency) == locked_of(
                    *old(self),
                    user_id,
                    currency,
                ) + amount
                &&& avail_of(*final(self), user_id, currency.spec_other()) == avail_of(
                    *old(self),
                    user_id,
                    currency.spec_other(),
                )
                &&& locked_of(*final(self), user_id, currency.spec_other()) == locked_of(
                    *old(self),
                    user_id,
                    currency.spec_other(),
                )
            },
    {
        let i_opt = self.find_balance_index(user_id);
        match i_opt {
            None => Err(BookError::InsufficientBalance),
            Some(i) => {
                let ghost s1 = self.user_balances@;
                proof {
                    lemma_user_index_agrees(s1, user_id, i as int);
                    lemma_sum_holdings_elem_bound(s1, currency, i as int);
                }
                let b = &mut self.user_balances[i];
                let res = b.lock(currency, amount);
                proof {
                    lemma_sum_holdings_update(
                        s1,
                        Currency::Usd,
                        i as int,
                        self.user_balances@[i as int],
                    );
                    lemma_sum_holdings_update(
                        s1,
                        Currency::Btc,
                        i as int,
                        self.user_balances@[i as int],
                    );
                    lemma_single_entry_change(s1, self.user_balances@, i as int);
                    if res is Err {
                        assert(self.user_balances@ =~= s1);
                    }
                }
                res
            },
        }
    }

    /// Move part of a user's locked balance back to the available bucket,
    /// releasing a reservation. Fails, changing nothing, exactly when the
    /// user is unknown or has less than `amount` locked. The user's total
    /// holding, and the venue totals, never change.
    pub fn unlock_funds(&mut self, user_id: u128, currency: Currency, amount: u64) -> (r: Result<
        (),
        BookError,
    >)
        requires
            old(self).balances_wf(),
        ensures
            balances_delta_ok(*old(self), *final(self), user_id),
            final(self).total_usd == old(self).total_usd,
            final(self).total_btc == old(self).total_btc,
            !has_user(old(self).user_balances@, user_id) ==> r == Err::<(), BookError>(
                BookError::InsufficientBalance,
            ) && same_balances(*old(self), *final(self)),
            has_user(old(self).user_balances@, user_id) && amount > locked_of(
                *old(self),
                user_id,
                currency,
            ) ==> r == Err::<(), BookError>(BookError::InsufficientBalance) && same_balances(*old(self), *final(self)),
            has_user(old(self).user_balances@, user_id) && amount <= locked_of(
                *old(self),
                user_id,
                currency,
            ) ==> {
                &&& r is Ok
                &&& has_user(final(self).user_balances@, user_id)
                &&& locked_of(*final(self), user_id, currency) == locked_of(
                    *old(self),
                    user_id,
                    currency,
                ) - amount
                &&& avail_of(*final(self), user_id, currency) == avail_of(
                    *old(self),
                    user_id,
                    currency,
                ) + amount
                &&& avail_of(*final(self), user_id, currency.spec_other()) == avail_of(
                    *old(self),
                    user_id,
                    currency.spec_other(),
                )
                &&& locked_of(*final(self), user_id, currency.spec_other()) == locked_of(
                    *old(self),
                    user_id,
                    currency.spec_other(),
                )
            },
    {
        let i_opt = self.find_balance_index(user_id);
        match i_opt {
            None => Err(BookError::InsufficientBalance),
            Some(i) => {
                let ghost s1 = self.user_balances@;
                proof {
                    lemma_user_index_agrees(s1, user_id, i as int);
                    lemma_sum_holdings_elem_bound(s1, currency, i as int);
                }
                let b = &mut self.user_balances[i];
                let res = b.unlock(currency, amount);
                proof {
                    lemma_sum_holdings_update(
                        s1,
                        Currency::Usd,
                        i as int,
                        self.user_balances@[i as int],
                    );
                    lemma_sum_holdings_update(
                        s1,
                        Currency::Btc,
                        i as int,
                        self.user_balances@[i as int],
                    );
                    lemma_single_entry_change(s1, self.user_balances@, i as int);
                    if res is Err {
                        assert(self.user_balances@ =~= s1);
                    }
                }
                res
            },
        }
    }

    /// Debit a user's locked balance, consuming part of a reservation.
    /// Fails, changing nothing, exactly when the user is unknown or has
    /// less than `amount` locked.
    pub fn debit_locked(&mut self, user_id: u128, currency: Currency, amount: u64) -> (r: Result<
        (),
        BookError,
    >)
        requires
            old(self).balances_wf(),
        ensures
            balances_delta_ok(*old(self), *final(self), user_id),
            !has_user(old(self).user_balances@, user_id) ==> r == Err::<(), BookError>(
                BookError::NotFound,
            ) && same_balances(*old(self), *final(self)),
            has_user(old(self).user_balances@, user_id) && amount > locked_of(
                *old(self),
                user_id,
                currency,
            ) ==> r == Err::<(), BookError>(BookError::InsufficientBalance) && same_balances(*old(self), *final(self)),
            has_user(old(self).user_balances@, user_id) && amount <= locked_of(
                *old(self),
                user_id,
                currency,
            ) ==> {
                &&& r is Ok
                &&& has_user(final(self).user_balances@, user_id)
                &&& locked_of(*final(self), user_id, currency) == locked_of(
                    *old(self),
                    user_id,
                    currency,
                ) - amount
                &&& avail_of(*final(self), user_id, currency) == avail_of(
                    *old(self),
                    user_id,
                    currency,
                )
                &&& avail_of(*final(self), user_id, currency.spec_other()) == avail_of(
                    *old(self),
                    user_id,
                    currency.spec_other(),
                )
                &&& locked_of(*final(self), user_id, currency.spec_other()) == locked_of(
                    *old(self),
                    user_id,
                    currency.spec_other(),
                )
                &&& final(self).spec_total(currency) == old(self).spec_total(currency) - amount
                &&& final(self).spec_total(currency.spec_other()) == old(self).spec_total(
                    currency.spec_other(),
                )
            },
    {
        let i_opt = self.find_balance_index(user_id);
        match i_opt {
            None => Err(BookError::NotFound),
            Some(i) => {
                let ghost s1 = self.user_balances@;
                proof {
                    lemma_user_index_agrees(s1, user_id, i as int);
                    lemma_sum_holdings_elem_bound(s1, currency, i as int);
                }
                let b = &mut self.user_balances[i];
                let res = b.subtract_locked(currency, amount);
                match res {
                    Ok(()) => {
                        proof {
                            lemma_sum_holdings_update(
                                s1,
                                Currency::Usd,
                                i as int,
                                self.user_balances@[i as int],
                            );
                            lemma_sum_holdings_update(
                                s1,
                                Currency::Btc,
                                i as int,
                                self.user_balances@[i as int],
                            );
                            lemma_single_entry_change(s1, self.user_balances@, i as int);
                        }
                        match currency {
                            Currency::Usd => {
                                self.total_usd = self.total_usd - amount;
                            },
                            Currency::Btc => {
                                self.total_btc = self.total_btc - amount;
                            },
                        }
                        Ok(())
                    },
                    Err(e) => {
                        proof {
                            assert(self.user_balances@ =~= s1);
                        }
                        Err(e)
                    },
                }
            },
        }
    }

    /// Whether the level at this price on this side (if any) can absorb
    /// `qty` more volume without leaving the fixed-point range.
    pub fn level_volume_fits(&self, side: OrderSide, price: Price, qty: Quantity) -> (r: bool)
        requires
            match side {
                OrderSide::Buy => bids_sorted(self.bids@),
                OrderSide::Sell => asks_sorted(self.asks@),
            },
        ensures
            r == forall|i: int|
                0 <= i < self.book_side(side).len() && (#[trigger] self.book_side(side)[i]).price
                    == price ==> self.book_side(side)[i].total_volume.raw + qty.raw <= u64::MAX,
    {
        let found = match side {
            OrderSide::Buy => find_level(&self.bids, price),
            OrderSide::Sell => find_level(&self.asks, price),
        };
        match found {
            Some(i) => {
                let level_vol: u64 = match side {
                    OrderSide::Buy => self.bids[i].total_volume.raw(),
                    OrderSide::Sell => self.asks[i].total_volume.raw(),
                };
                proof {
                    // Prices are strict on a sorted side, so the found
                    // level is the only one at this price.
                    assert forall|j: int|
                        0 <= j < self.book_side(side).len() && (#[trigger] self.book_side(
                            side,
                        )[j]).price == price implies j == i as int by {
                        if j != i as int {
                            assert(self.book_side(side)[i as int].price == price);
                        }
                    }
                }
                let fits = qty.raw <= u64::MAX - level_vol;
                proof {
                    if !fits {
                        assert(self.book_side(side)[i as int].price == price);
                        assert(self.book_side(side)[i as int].total_volume.raw + qty.raw
                            > u64::MAX);
                    }
                }
                fits
            },
            None => true,
        }
    }

    /// Route a limit order with a nonzero remainder to its side of the
    /// book, creating the price level on demand, and index it by id.
    #[verifier::rlimit(30)]
    pub fn add_order(&mut self, order: Order)
        requires
            old(self).wf(),
            order.price is Some,
            order_wf_resting(order, order.side, order.price.unwrap()),
            !old(self).resting(order.id),
            forall|i: int|
                0 <= i < old(self).book_side(order.side).len() && (#[trigger] old(self).book_side(
                    order.side,
                )[i]).price == order.price.unwrap() ==> old(self).book_side(
                    order.side,
                )[i].total_volume.raw + order.remaining_quantity.raw <= u64::MAX,
            order.side == OrderSide::Buy && old(self).asks@.len() > 0 ==> order.price.unwrap().raw
                < old(self).asks@[0].price.raw,
            order.side == OrderSide::Sell && old(self).bids@.len() > 0 ==> order.price.unwrap().raw
                > old(self).bids@[0].price.raw,
        ensures
            final(self).wf(),
            final(self).resting(order.id),
            forall|id: u128| id != order.id ==> final(self).resting(id) == old(self).resting(id),
            side_after_add(
                old(self).book_side(order.side),
                final(self).book_side(order.side),
                order,
            ),
            final(self).book_side(order.side.spec_opposite()) == old(self).book_side(
                order.side.spec_opposite(),
            ),
            final(self).orders@ == old(self).orders@.push(
                OrderRef { id: order.id, side: order.side, price: order.price.unwrap() },
            ),
            final(self).user_balances == old(self).user_balances,
            final(self).total_usd == old(self).total_usd,
            final(self).total_btc == old(self).total_btc,
    {
        let oid: u128 = order.id;
        let oside = order.side;
        let price: Price = match order.price {
            Some(p) => p,
            None => {
                proof {
                    assert(false);
                }
                Price::new(0)
            },
        };
        let ghost a = *old(self);

        match oside {
            OrderSide::Buy => {
                match find_level(&self.bids, price) {
                    Some(i) => {
                        let lvl = &mut self.bids[i];
                        lvl.enqueue_order(order);
                        proof {
                            assert forall|j: int|
                                0 <= j < a.bids@.len() && j != i ==> self.bids@[j]
                                    == a.bids@[j] by {}
                            assert(side_after_add(a.bids@, self.bids@, order));
                            lemma_sorted_after_level_update(a.bids@, self.bids@, i as int, true);
                        }
                    },
                    None => {
                        let pos = find_bid_insert_pos(&self.bids, price);
                        let mut lvl = PriceLevel::new(price);
                        lvl.enqueue_order(order);
                        self.bids.insert(pos, lvl);
                        proof {
                            assert(self.bids@[pos as int].orders@ =~= seq![order]);
                            assert forall|j: int| 0 <= j < pos ==> self.bids@[j] == a.bids@[j] by {}
                            assert forall|j: int|
                                pos <= j < a.bids@.len() ==> self.bids@[j + 1] == a.bids@[j] by {}
                            assert(side_after_add(a.bids@, self.bids@, order));
                            lemma_sorted_after_level_insert(
                                a.bids@,
                                self.bids@,
                                pos as int,
                                price,
                                true,
                            );
                        }
                    },
                }
            },
            OrderSide::Sell => {
                match find_level(&self.asks, price) {
                    Some(i) => {
                        let lvl = &mut self.asks[i];
                        lvl.enqueue_order(order);
                        proof {
                            assert forall|j: int|
                                0 <= j < a.asks@.len() && j != i ==> self.asks@[j]
                                    == a.asks@[j] by {}
                            assert(side_after_add(a.asks@, self.asks@, order));
                            lemma_sorted_after_level_update(a.asks@, self.asks@, i as int, false);
                        }
                    },
                    None => {
                        let pos = find_ask_insert_pos(&self.asks, price);
                        let mut lvl = PriceLevel::new(price);
                        lvl.enqueue_order(order);
                        self.asks.insert(pos, lvl);
                        proof {
                            assert(self.asks@[pos as int].orders@ =~= seq![order]);
                            assert forall|j: int| 0 <= j < pos ==> self.asks@[j] == a.asks@[j] by {}
                            assert forall|j: int|
                                pos <= j < a.asks@.len() ==> self.asks@[j + 1] == a.asks@[j] by {}
                            assert(side_after_add(a.asks@, self.asks@, order));
                            lemma_sorted_after_level_insert(
                                a.asks@,
                                self.asks@,
                                pos as int,
                                price,
                                false,
                            );
                        }
                    },
                }
            },
        }
        self.orders.push(OrderRef { id: oid, side: oside, price });
        proof {
            lemma_add_order_effect(a, *self, order);
            // Best prices only move toward the incoming order's own side,
            // so the spread stays open.
            match oside {
                OrderSide::Buy => {
                    assert(self.asks@ == a.asks@);
                    if self.bids@.len() > 0 && self.asks@.len() > 0 {
                        assert(self.bids@[0].price.raw < self.asks@[0].price.raw);
                    }
                },
                OrderSide::Sell => {
                    assert(self.bids@ == a.bids@);
                    if self.bids@.len() > 0 && self.asks@.len() > 0 {
                        assert(self.bids@[0].price.raw < self.asks@[0].price.raw);
                    }
                },
            }
        }
    }

    /// The position of this order id's index entry, if it has one.
    pub(crate) fn find_order_entry(&self, order_id: u128) -> (r: Option<usize>)
        ensures
            match r {
                Some(k) => k < self.orders@.len() && self.orders@[k as int].id == order_id,
                None => forall|k: int| 0 <= k < self.orders@.len() ==> self.orders@[k].id != order_id,
            },
    {
        let n: usize = self.orders.len();
        let mut i: usize = 0;
        while i < n
            invariant
                n == self.orders@.len(),
                0 <= i <= n,
                forall|j: int| 0 <= j < i ==> self.orders@[j].id != order_id,
            decreases n - i,
        {
            if self.orders[i].id == order_id {
                return Some(i);
            }
            i = i + 1;
        }
        None
    }

    /// A view of the resting order with this id, if any.
    pub fn get_order(&self, order_id: u128) -> (r: Option<&Order>)
        requires
            self.wf(),
        ensures
            match r {
                Some(o) => self.resting(order_id) && o.id == order_id && is_resting_order(
                    *self,
                    *o,
                ),
                None => !self.resting(order_id),
            },
    {
        let k_opt = self.find_order_entry(order_id);
        match k_opt {
            None => {
                proof {
                    if self.resting(order_id) {
                        lemma_resting_has_entry(*self, order_id);
                        assert(false);
                    }
                }
                None
            },
            Some(k) => {
                let e = self.orders[k];
                proof {
                    assert(self.entry_ok(self.orders@[k as int]));
                }
                let levels: &Vec<PriceLevel> = match e.side {
                    OrderSide::Buy => &self.bids,
                    OrderSide::Sell => &self.asks,
                };
                let i = match find_level(levels, e.price) {
                    Some(i) => i,
                    None => {
                        proof {
                            assert(false);
                        }
                        0
                    },
                };
                let m: usize = levels[i].orders.len();
                let mut j: usize = 0;
                while j < m
                    invariant
                        self.wf(),
                        i < levels@.len(),
                        levels@ == self.book_side(e.side),
                        levels@[i as int].price == e.price,
                        has_order_id(levels@[i as int].orders@, order_id),
                        m == levels@[i as int].orders@.len(),
                        0 <= j <= m,
                        forall|j2: int|
                            0 <= j2 < j ==> levels@[i as int].orders@[j2].id != order_id,
                    decreases m - j,
                {
                    if levels[i].orders[j].id == order_id {
                        proof {
                            match e.side {
                                OrderSide::Buy => {
                                    assert(side_has_order_id(self.bids@, order_id));
                                },
                                OrderSide::Sell => {
                                    assert(side_has_order_id(self.asks@, order_id));
                                },
                            }
                        }
                        return Some(&levels[i].orders[j]);
                    }
                    j = j + 1;
                }
                proof {
                    assert(false);
                }
                None
            },
        }
    }

    /// Remove the order with this id from its level and from the by-id
    /// index, dropping the level if it empties, and hand the order back so
    /// the caller can refund its reservation. Fails, changing nothing,
    /// exactly when no such order rests. Balances are untouched either way.
    #[verifier::rlimit(60)]
    pub fn cancel_order(&mut self, order_id: u128) -> (r: Result<Order, BookError>)
        requires
            old(self).wf(),
        ensures
            final(self).wf(),
            final(self).user_balances == old(self).user_balances,
            final(self).total_usd == old(self).total_usd,
            final(self).total_btc == old(self).total_btc,
            !old(self).resting(order_id) ==> r == Err::<Order, BookError>(BookError::NotFound)
                && *final(self) == *old(self),
            old(self).resting(order_id) ==> match r {
                Ok(o) => {
                    &&& o.id == order_id
                    &&& is_resting_order(*old(self), o)
                    &&& order_wf_resting(o, o.side, o.price.unwrap())
                    &&& !final(self).resting(order_id)
                    &&& forall|id: u128|
                        id != order_id ==> final(self).resting(id) == old(self).resting(id)
                    &&& final(self).book_side(o.side.spec_opposite()) == old(self).book_side(
                        o.side.spec_opposite(),
                    )
                    &&& exists|i: int, j: int|
                        0 <= i < old(self).book_side(o.side).len() && 0 <= j < old(
                            self,
                        ).book_side(o.side)[i].orders@.len() && old(self).book_side(
                            o.side,
                        )[i].orders@[j] == o && #[trigger] side_after_remove(
                            old(self).book_side(o.side),
                            final(self).book_side(o.side),
                            i,
                            j,
                        )
                },
                Err(_) => false,
            },
    {
        let k = match self.find_order_entry(order_id) {
            Some(k) => k,
            None => {
                proof {
                    if self.resting(order_id) {
                        lemma_resting_has_entry(*self, order_id);
                        assert(false);
                    }
                }
                return Err(BookError::NotFound);
            },
        };
        let e = self.orders[k];
        proof {
            assert(self.entry_ok(self.orders@[k as int]));
        }
        let ghost a = *self;
        self.orders.remove(k);
        let removed: Order;
        match e.side {
            OrderSide::Buy => {
                let i = match find_level(&self.bids, e.price) {
                    Some(i) => i,
                    None => {
                        proof {
                            assert(false);
                        }
                        0
                    },
                };
                let lvl = &mut self.bids[i];
                removed = match lvl.dequeue_order_by_id(order_id) {
                    Some(o) => o,
                    None => {
                        proof {
                            assert(false);
                        }
                        Order {
                            id: 0,
                            user_id: 0,
                            side: OrderSide::Buy,
                            order_type: OrderType::Limit,
                            price: None,
                            original_quantity: Quantity::new(0),
                            remaining_quantity: Quantity::new(0),
                            status: OrderStatus::Cancelled,
                            timestamp: 0,
                        }
                    },
                };
                let ghost j = choose|j: int|
                    0 <= j < a.bids@[i as int].orders@.len() && a.bids@[i as int].orders@[j].id
                        == order_id && removed == a.bids@[i as int].orders@[j]
                        && self.bids@[i as int].orders@ == a.bids@[i as int].orders@.remove(j);
                proof {
                    if a.bids@[i as int].orders@.len() > 1 {
                        assert(self.bids@[i as int].orders@.len() > 0);
                    } else {
                        assert(j == 0);
                    }
                }
                if self.bids[i].is_empty() {
                    self.bids.remove(i);
                    proof {
                        assert(side_after_remove(a.bids@, self.bids@, i as int, j));
                    }
                } else {
                    proof {
                        assert(a.bids@[i as int].orders@.len() > 1) by {
                            if a.bids@[i as int].orders@.len() == 1 {
                                assert(self.bids@[i as int].orders@.len() == 0);
                            }
                        }
                        assert(side_after_remove(a.bids@, self.bids@, i as int, j));
                    }
                }
                proof {
                    lemma_remove_order_effect(a, *self, OrderSide::Buy, i as int, j, k as int);
                    lemma_cancel_spread(a, *self, OrderSide::Buy, i as int, j);
                    assert(removed.side == OrderSide::Buy);
                    assert(a.book_side(OrderSide::Buy)[i as int].orders@[j] == removed
                        && side_after_remove(
                        a.book_side(OrderSide::Buy),
                        self.book_side(OrderSide::Buy),
                        i as int,
                        j,
                    ));
                }
            },
            OrderSide::Sell => {
                let i = match find_level(&self.asks, e.price) {
                    Some(i) => i,
                    None => {
                        proof {
                            assert(false);
                        }
                        0
                    },
                };
                let lvl = &mut self.asks[i];
                removed = match lvl.dequeue_order_by_id(order_id) {
                    Some(o) => o,
                    None => {
                        proof {
                            assert(false);
                        }
                        Order {
                            id: 0,
                            user_id: 0,
                            side: OrderSide::Buy,
                            order_type: OrderType::Limit,
                            price: None,
                            original_quantity: Quantity::new(0),
                            remaining_quantity: Quantity::new(0),
                            status: OrderStatus::Cancelled,
                            timestamp: 0,
                        }
                    },
                };
                let ghost j = choose|j: int|
                    0 <= j < a.asks@[i as int].orders@.len() && a.asks@[i as int].orders@[j].id
                        == order_id && removed == a.asks@[i as int].orders@[j]
                        && self.asks@[i as int].orders@ == a.asks@[i as int].orders@.remove(j);
                proof {
                    if a.asks@[i as int].orders@.len() > 1 {
                        assert(self.asks@[i as int].orders@.len() > 0);
                    } else {
                        assert(j == 0);
                    }
                }
                if self.asks[i].is_empty() {
                    self.asks.remove(i);
                    proof {
                        assert(side_after_remove(a.asks@, self.asks@, i as int, j));
                    }
                } else {
                    proof {
                        assert(a.asks@[i as int].orders@.len() > 1) by {
                            if a.asks@[i as int].orders@.len() == 1 {
                                assert(self.asks@[i as int].orders@.len() == 0);
                            }
                        }
                        assert(side_after_remove(a.asks@, self.asks@, i as int, j));
                    }
                }
                proof {
                    lemma_remove_order_effect(a, *self, OrderSide::Sell, i as int, j, k as int);
                    lemma_cancel_spread(a, *self, OrderSide::Sell, i as int, j);
                    assert(removed.side == OrderSide::Sell);
                    assert(a.book_side(OrderSide::Sell)[i as int].orders@[j] == removed
                        && side_after_remove(
                        a.book_side(OrderSide::Sell),
                        self.book_side(OrderSide::Sell),
                        i as int,
                        j,
                    ));
                }
            },
        }
        Ok(removed)
    }

    /// The top `levels` price levels of each side as `(price, volume)`
    /// pairs: bids first, best (highest) bid leading; asks second, best
    /// (lowest) ask leading. Bid prices strictly fall, ask prices strictly
    /// rise.
    pub fn get_depth(&self, levels: usize) -> (r: (Vec<(Price, Quantity)>, Vec<(Price, Quantity)>))
        requires
            self.wf(),
        ensures
            r.0@.len() == if levels <= self.bids@.len() {
                levels as int
            } else {
                self.bids@.len() as int
            },
            r.1@.len() == if levels <= self.asks@.len() {
                levels as int
            } else {
                self.asks@.len() as int
            },
            forall|i: int|
                0 <= i < r.0@.len() ==> r.0@[i] == (
                (#[trigger] self.bids@[i]).price,
                self.bids@[i].total_volume,
                ),
            forall|i: int|
                0 <= i < r.1@.len() ==> r.1@[i] == (
                (#[trigger] self.asks@[i]).price,
                self.asks@[i].total_volume,
                ),
            forall|i: int, j: int| 0 <= i < j < r.0@.len() ==> r.0@[i].0.raw > r.0@[j].0.raw,
            forall|i: int, j: int| 0 <= i < j < r.1@.len() ==> r.1@[i].0.raw < r.1@[j].0.raw,
    {
        let nb: usize = if levels <= self.bids.len() {
            levels
        } else {
            self.bids.len()
        };
        let na: usize = if levels <= self.asks.len() {
            levels
        } else {
            self.asks.len()
        };
        let mut bids: Vec<(Price, Quantity)> = Vec::new();
        let mut i: usize = 0;
        while i < nb
            invariant
                nb <= self.bids@.len(),
                0 <= i <= nb,
                bids@.len() == i,
                forall|j: int|
                    0 <= j < i ==> bids@[j] == (
                    (#[trigger] self.bids@[j]).price,
                    self.bids@[j].total_volume,
                    ),
            decreases nb - i,
        {
            bids.push((self.bids[i].price, self.bids[i].total_volume));
            i = i + 1;
        }
        let mut asks: Vec<(Price, Quantity)> = Vec::new();
        let mut j: usize = 0;
        while j < na
            invariant
                na <= self.asks@.len(),
                0 <= j <= na,
                asks@.len() == j,
                forall|i2: int|
                    0 <= i2 < j ==> asks@[i2] == (
                    (#[trigger] self.asks@[i2]).price,
                    self.asks@[i2].total_volume,
                    ),
            decreases na - j,
        {
            asks.push((self.asks[j].price, self.asks[j].total_volume));
            j = j + 1;
        }
        proof {
            assert forall|i2: int, j2: int|
                0 <= i2 < j2 < bids@.len() implies bids@[i2].0.raw > bids@[j2].0.raw by {
                assert(bids@[i2] == (self.bids@[i2].price, self.bids@[i2].total_volume));
                assert(bids@[j2] == (self.bids@[j2].price, self.bids@[j2].total_volume));
            }
            assert forall|i2: int, j2: int|
                0 <= i2 < j2 < asks@.len() implies asks@[i2].0.raw < asks@[j2].0.raw by {
                assert(asks@[i2] == (self.asks@[i2].price, self.asks@[i2].total_volume));
                assert(asks@[j2] == (self.asks@[j2].price, self.asks@[j2].total_volume));
            }
        }
        (bids, asks)
    }

    /// The position of this user's balance entry, which must exist.
    fn balance_index(&self, user_id: u128) -> (i: usize)
        requires
            has_user(self.user_balances@, user_id),
        ensures
            i < self.user_balances@.len(),
            self.user_balances@[i as int].user_id == user_id,
    {
        let n: usize = self.user_balances.len();
        let mut i: usize = 0;
        while i < n
            invariant
                n == self.user_balances.len(),
                0 <= i <= n,
                has_user(self.user_balances@, user_id),
                forall|j: int| 0 <= j < i ==> self.user_balances@[j].user_id != user_id,
            decreases n - i,
        {
            if self.user_balances[i].user_id == user_id {
                return i;
            }
            i = i + 1;
        }
        proof {
            assert(false);
        }
        0
    }
}

/// Helper for contracts: the parts of the book other than the balance table
/// are untouched.
pub open spec fn self_unchanged_but_balances(a: OrderBook, b: OrderBook) -> bool {
    &&& b.bids == a.bids
    &&& b.asks == a.asks
    &&& b.orders == a.orders
}

/// The user's freely available amount of a currency, zero for an unknown
/// user.
pub open spec fn avail_of(book: OrderBook, user_id: u128, c: Currency) -> int {
    if has_user(book.user_balances@, user_id) {
        balance_of(book.user_balances@, user_id).spec_available(c) as int
    } else {
        0
    }
}

/// The user's locked amount of a currency, zero for an unknown user.
pub open spec fn locked_of(book: OrderBook, user_id: u128, c: Currency) -> int {
    if has_user(book.user_balances@, user_id) {
        balance_of(book.user_balances@, user_id).spec_locked(c) as int
    } else {
        0
    }
}

/// The balance table and the cached totals hold exactly the same values:
/// how a failed operation leaves them.
pub open spec fn same_balances(a: OrderBook, b: OrderBook) -> bool {
    &&& b.user_balances@ == a.user_balances@
    &&& b.total_usd == a.total_usd
    &&& b.total_btc == a.total_btc
}

/// The balance table changed at most at `user_id`'s entry, the balance
/// invariant still holds, and no other part of the book moved.
pub open spec fn balances_delta_ok(a: OrderBook, b: OrderBook, user_id: u128) -> bool {
    &&& self_unchanged_but_balances(a, b)
    &&& b.balances_wf()
    &&& forall|u: u128|
        u != user_id ==> #[trigger] has_user(b.user_balances@, u) == has_user(a.user_balances@, u)
    &&& forall|u: u128|
        u != user_id && has_user(a.user_balances@, u) ==> #[trigger] balance_of(
            b.user_balances@,
            u,
        ) == balance_of(a.user_balances@, u)
}

/// Appending a fresh user's entry disturbs no existing user.
pub proof fn lemma_push_entry(s1: Seq<UserBalance>, b: UserBalance)
    requires
        users_unique(s1),
        !has_user(s1, b.user_id),
    ensures
        users_unique(s1.push(b)),
        forall|u: u128|
            u != b.user_id ==> #[trigger] has_user(s1.push(b), u) == has_user(s1, u),
        forall|u: u128|
            u != b.user_id && has_user(s1, u) ==> #[trigger] balance_of(s1.push(b), u)
                == balance_of(s1, u),
        has_user(s1.push(b), b.user_id),
        balance_of(s1.push(b), b.user_id) == b,
{
    let s2 = s1.push(b);
    assert(s2[s1.len() as int] == b);
    assert forall|u: u128| u != b.user_id implies #[trigger] has_user(s2, u) == has_user(s1, u) by {
        if has_user(s1, u) {
            let w = choose|w: int| 0 <= w < s1.len() && s1[w].user_id == u;
            assert(s2[w].user_id == u);
        }
        if has_user(s2, u) {
            let w = choose|w: int| 0 <= w < s2.len() && s2[w].user_id == u;
            assert(w < s1.len());
            assert(s1[w].user_id == u);
        }
    }
    assert(users_unique(s2));
    assert forall|u: u128| u != b.user_id && has_user(s1, u) implies #[trigger] balance_of(s2, u)
        == balance_of(s1, u) by {
        let j1 = user_index(s1, u);
        assert(0 <= j1 < s1.len() && s1[j1].user_id == u);
        assert(s2[j1].user_id == u);
        let j2 = user_index(s2, u);
        assert(0 <= j2 < s2.len() && s2[j2].user_id == u);
        assert(j2 < s1.len());
        assert(j1 == j2);
    }
    lemma_user_index_agrees(s2, b.user_id, s1.len() as int);
}

/// When exactly one entry changes and keeps its user id, every other user's
/// entry, and the set of known users, are untouched.
pub proof fn lemma_single_entry_change(s1: Seq<UserBalance>, s2: Seq<UserBalance>, i: int)
    requires
        users_unique(s1),
        0 <= i < s1.len(),
        s2.len() == s1.len(),
        forall|k: int| 0 <= k < s1.len() && k != i ==> s2[k] == s1[k],
        s2[i].user_id == s1[i].user_id,
    ensures
        users_unique(s2),
        forall|u: u128| #[trigger] has_user(s2, u) == has_user(s1, u),
        forall|u: u128|
            u != s1[i].user_id && has_user(s1, u) ==> #[trigger] balance_of(s2, u) == balance_of(
                s1,
                u,
            ),
        balance_of(s2, s1[i].user_id) == s2[i],
        balance_of(s1, s1[i].user_id) == s1[i],
        has_user(s1, s1[i].user_id),
{
    assert(forall|k: int| 0 <= k < s2.len() ==> s2[k].user_id == s1[k].user_id);
    assert forall|u: u128| #[trigger] has_user(s2, u) == has_user(s1, u) by {
        if has_user(s1, u) {
            let w = choose|w: int| 0 <= w < s1.len() && s1[w].user_id == u;
            assert(s2[w].user_id == u);
        }
        if has_user(s2, u) {
            let w = choose|w: int| 0 <= w < s2.len() && s2[w].user_id == u;
            assert(s1[w].user_id == u);
        }
    }
    assert forall|u: u128|
        u != s1[i].user_id && has_user(s1, u) implies #[trigger] balance_of(s2, u) == balance_of(
        s1,
        u,
    ) by {
        let j1 = user_index(s1, u);
        assert(0 <= j1 < s1.len() && s1[j1].user_id == u);
        let j2 = user_index(s2, u);
        assert(0 <= j2 < s2.len() && s2[j2].user_id == u);
        assert(s1[j2].user_id == u);
        assert(j1 == j2);
        assert(j1 != i);
    }
    lemma_user_index_agrees(s1, s1[i].user_id, i);
    assert(s2[i].user_id == s1[i].user_id);
    assert(users_unique(s2));
    lemma_user_index_agrees(s2, s1[i].user_id, i);
}

/// The position of the level with this price, if the side has one.
fn find_level(levels: &Vec<PriceLevel>, price: Price) -> (r: Option<usize>)
    ensures
        match r {
            Some(i) => i < levels@.len() && levels@[i as int].price == price,
            None => forall|i: int| 0 <= i < levels@.len() ==> levels@[i].price != price,
        },
{
    let n: usize = levels.len();
    let mut i: usize = 0;
    while i < n
        invariant
            n == levels@.len(),
            0 <= i <= n,
            forall|j: int| 0 <= j < i ==> levels@[j].price != price,
        decreases n - i,
    {
        if levels[i].price.raw() == price.raw {
            return Some(i);
        }
        i = i + 1;
    }
    None
}

/// Where a new bid level at this price belongs: bids are strictly
/// descending, so before every strictly lower price.
fn find_bid_insert_pos(levels: &Vec<PriceLevel>, price: Price) -> (p: usize)
    requires
        bids_sorted(levels@),
        forall|i: int| 0 <= i < levels@.len() ==> levels@[i].price != price,
    ensures
        p <= levels@.len(),
        forall|i: int| 0 <= i < p ==> levels@[i].price.raw > price.raw,
        forall|i: int| p <= i < levels@.len() ==> levels@[i].price.raw < price.raw,
{
    let n: usize = levels.len();
    let mut i: usize = 0;
    while i < n
        invariant
            n == levels@.len(),
            0 <= i <= n,
            bids_sorted(levels@),
            forall|j: int| 0 <= j < levels@.len() ==> levels@[j].price != price,
            forall|j: int| 0 <= j < i ==> levels@[j].price.raw > price.raw,
        decreases n - i,
    {
        if levels[i].price.raw() < price.raw {
            return i;
        }
        i = i + 1;
    }
    n
}

/// Where a new ask level at this price belongs: asks are strictly
/// ascending, so before every strictly higher price.
fn find_ask_insert_pos(levels: &Vec<PriceLevel>, price: Price) -> (p: usize)
    requires
        asks_sorted(levels@),
        forall|i: int| 0 <= i < levels@.len() ==> levels@[i].price != price,
    ensures
        p <= levels@.len(),
        forall|i: int| 0 <= i < p ==> levels@[i].price.raw < price.raw,
        forall|i: int| p <= i < levels@.len() ==> levels@[i].price.raw > price.raw,
{
    let n: usize = levels.len();
    let mut i: usize = 0;
    while i < n
        invariant
            n == levels@.len(),
            0 <= i <= n,
            asks_sorted(levels@),
            forall|j: int| 0 <= j < levels@.len() ==> levels@[j].price != price,
            forall|j: int| 0 <= j < i ==> levels@[j].price.raw < price.raw,
        decreases n - i,
    {
        if levels[i].price.raw() > price.raw {
            return i;
        }
        i = i + 1;
    }
    n
}

/// The effect of enqueueing `order` into the side `a`, giving `b`: either
/// the existing level at its price took it at the tail, or a fresh
/// single-order level was inserted at its sort position, and nothing else
/// moved.
pub open spec fn side_after_add(a: Seq<PriceLevel>, b: Seq<PriceLevel>, order: Order) -> bool {
    let p = order.price.unwrap();
    if exists|i: int| 0 <= i < a.len() && (#[trigger] a[i]).price == p {
        exists|i: int|
            {
                &&& 0 <= i < a.len()
                &&& (#[trigger] a[i]).price == p
                &&& b.len() == a.len()
                &&& b[i].price == p
                &&& b[i].orders@ == a[i].orders@.push(order)
                &&& b[i].total_volume.raw == a[i].total_volume.raw + order.remaining_quantity.raw
                &&& forall|j: int| 0 <= j < a.len() && j != i ==> b[j] == a[j]
            }
    } else {
        exists|pos: int|
            {
                &&& 0 <= pos <= a.len()
                &&& b.len() == a.len() + 1
                &&& (#[trigger] b[pos]).price == p
                &&& b[pos].orders@ =~= seq![order]
                &&& b[pos].total_volume.raw == order.remaining_quantity.raw
                &&& forall|j: int| 0 <= j < pos ==> b[j] == a[j]
                &&& forall|j: int| pos <= j < a.len() ==> b[j + 1] == a[j]
            }
    }
}

/// Sortedness survives a price-preserving pointwise change of one level.
pub(crate) proof fn lemma_sorted_after_level_update(
    a: Seq<PriceLevel>,
    b: Seq<PriceLevel>,
    i: int,
    descending: bool,
)
    requires
        descending ==> bids_sorted(a),
        !descending ==> asks_sorted(a),
        0 <= i < a.len(),
        b.len() == a.len(),
        b[i].price == a[i].price,
        forall|j: int| 0 <= j < a.len() && j != i ==> b[j] == a[j],
    ensures
        descending ==> bids_sorted(b),
        !descending ==> asks_sorted(b),
{
    assert forall|x: int| 0 <= x < b.len() implies (#[trigger] b[x]).price == a[x].price by {
        if x != i {
            assert(b[x] == a[x]);
        }
    }
}

/// Sortedness survives inserting a level between its strict neighbours.
pub(crate) proof fn lemma_sorted_after_level_insert(
    a: Seq<PriceLevel>,
    b: Seq<PriceLevel>,
    pos: int,
    price: Price,
    descending: bool,
)
    requires
        descending ==> bids_sorted(a),
        !descending ==> asks_sorted(a),
        0 <= pos <= a.len(),
        b.len() == a.len() + 1,
        b[pos].price == price,
        forall|j: int| 0 <= j < pos ==> b[j] == a[j],
        forall|j: int| pos <= j < a.len() ==> b[j + 1] == a[j],
        descending ==> (forall|j: int| 0 <= j < pos ==> a[j].price.raw > price.raw) && (forall|
            j: int,
        | pos <= j < a.len() ==> a[j].price.raw < price.raw),
        !descending ==> (forall|j: int| 0 <= j < pos ==> a[j].price.raw < price.raw) && (forall|
            j: int,
        | pos <= j < a.len() ==> a[j].price.raw > price.raw),
    ensures
        descending ==> bids_sorted(b),
        !descending ==> asks_sorted(b),
{
    if descending {
        assert forall|i2: int, j2: int|
            0 <= i2 < j2 < b.len() implies b[i2].price.raw > b[j2].price.raw by {
            if i2 < pos && j2 < pos {
            } else if i2 < pos && j2 == pos {
            } else if i2 < pos {
                assert(b[j2] == a[j2 - 1]);
            } else if i2 == pos {
                assert(b[j2] == a[j2 - 1]);
            } else {
                assert(b[i2] == a[i2 - 1]);
                assert(b[j2] == a[j2 - 1]);
            }
        }
    } else {
        assert forall|i2: int, j2: int|
            0 <= i2 < j2 < b.len() implies b[i2].price.raw < b[j2].price.raw by {
            if i2 < pos && j2 < pos {
            } else if i2 < pos && j2 == pos {
            } else if i2 < pos {
                assert(b[j2] == a[j2 - 1]);
            } else if i2 == pos {
                assert(b[j2] == a[j2 - 1]);
            } else {
                assert(b[i2] == a[i2 - 1]);
                assert(b[j2] == a[j2 - 1]);
            }
        }
    }
}

/// An entry present in the index is still present after another entry is
/// appended.
pub proof fn lemma_index_has_push(
    entries: Seq<OrderRef>,
    e2: OrderRef,
    id: u128,
    side: OrderSide,
    price: Price,
)
    requires
        index_has(entries, id, side, price),
    ensures
        index_has(entries.push(e2), id, side, price),
{
    let k = choose|k: int| 0 <= k < entries.len() && entries[k] == (OrderRef { id, side, price });
    assert(entries.push(e2)[k] == entries[k]);
}

/// Every id in a well-formed index belongs to a resting order.
pub proof fn lemma_entry_ids_rest(a: OrderBook, k: int)
    requires
        a.index_wf(),
        0 <= k < a.orders@.len(),
    ensures
        a.resting(a.orders@[k].id),
{
    let e = a.orders@[k];
    assert(a.entry_ok(e));
    let i = choose|i: int|
        0 <= i < a.book_side(e.side).len() && (#[trigger] a.book_side(e.side)[i]).price == e.price
            && has_order_id(a.book_side(e.side)[i].orders@, e.id);
    match e.side {
        OrderSide::Buy => {
            assert(has_order_id(a.bids@[i].orders@, e.id));
            assert(side_has_order_id(a.bids@, e.id));
        },
        OrderSide::Sell => {
            assert(has_order_id(a.asks@[i].orders@, e.id));
            assert(side_has_order_id(a.asks@, e.id));
        },
    }
}

/// Adding one resting order (and its index entry) preserves the index and
/// level invariants, and extends the resting set by exactly that id.
/// Adding one resting order (and its index entry) preserves the index and
/// level invariants, and extends the resting set by exactly that id.
proof fn lemma_add_order_effect(a: OrderBook, b: OrderBook, order: Order)
    requires
        a.index_wf(),
        side_wf(a.book_side(OrderSide::Buy), OrderSide::Buy),
        side_wf(a.book_side(OrderSide::Sell), OrderSide::Sell),
        order.price is Some,
        order_wf_resting(order, order.side, order.price.unwrap()),
        !a.resting(order.id),
        side_after_add(a.book_side(order.side), b.book_side(order.side), order),
        b.book_side(order.side.spec_opposite()) == a.book_side(order.side.spec_opposite()),
        b.orders@ == a.orders@.push(
            OrderRef { id: order.id, side: order.side, price: order.price.unwrap() },
        ),
    ensures
        side_wf(b.book_side(OrderSide::Buy), OrderSide::Buy),
        side_wf(b.book_side(OrderSide::Sell), OrderSide::Sell),
        b.index_wf(),
        b.resting(order.id),
        forall|id: u128| id != order.id ==> b.resting(id) == a.resting(id),
{
    let s0 = order.side;
    let s1 = order.side.spec_opposite();
    let p = order.price.unwrap();
    let a_s = a.book_side(s0);
    let b_s = b.book_side(s0);
    let e_new = OrderRef { id: order.id, side: s0, price: p };

    if exists|i: int| 0 <= i < a_s.len() && (#[trigger] a_s[i]).price == p {
        let i = choose|i: int|
            {
                &&& 0 <= i < a_s.len()
                &&& (#[trigger] a_s[i]).price == p
                &&& b_s.len() == a_s.len()
                &&& b_s[i].price == p
                &&& b_s[i].orders@ == a_s[i].orders@.push(order)
                &&& b_s[i].total_volume.raw == a_s[i].total_volume.raw
                    + order.remaining_quantity.raw
                &&& forall|j: int| 0 <= j < a_s.len() && j != i ==> b_s[j] == a_s[j]
            };
        lemma_add_update_case(a, b, order, i);
    } else {
        let pos = choose|pos: int|
            {
                &&& 0 <= pos <= a_s.len()
                &&& b_s.len() == a_s.len() + 1
                &&& (#[trigger] b_s[pos]).price == p
                &&& b_s[pos].orders@ =~= seq![order]
                &&& b_s[pos].total_volume.raw == order.remaining_quantity.raw
                &&& forall|j: int| 0 <= j < pos ==> b_s[j] == a_s[j]
                &&& forall|j: int| pos <= j < a_s.len() ==> b_s[j + 1] == a_s[j]
            };
        lemma_add_insert_case(a, b, order, pos);
    }

    // Old entry ids all differ from the new one, so the index stays
    // duplicate-free.
    assert forall|k1: int, k2: int|
        0 <= k1 < b.orders@.len() && 0 <= k2 < b.orders@.len() && k1 != k2 implies (
    #[trigger] b.orders@[k1]).id != (#[trigger] b.orders@[k2]).id by {
        let n = a.orders@.len();
        if k1 < n && k2 < n {
            assert(b.orders@[k1] == a.orders@[k1]);
            assert(b.orders@[k2] == a.orders@[k2]);
        } else if k1 < n {
            lemma_entry_ids_rest(a, k1);
            assert(b.orders@[k2] == e_new);
            assert(b.orders@[k1] == a.orders@[k1]);
        } else {
            lemma_entry_ids_rest(a, k2);
            assert(b.orders@[k1] == e_new);
            assert(b.orders@[k2] == a.orders@[k2]);
        }
    }

    match s1 {
        OrderSide::Buy => {
            assert(b.bids@ == a.bids@);
        },
        OrderSide::Sell => {
            assert(b.asks@ == a.asks@);
        },
    }

    // Completeness on the untouched side.
    assert forall|i2: int, j2: int|
        0 <= i2 < b.book_side(s1).len() && 0 <= j2 < b.book_side(s1)[i2].orders@.len() implies
        index_has(
        b.orders@,
        (#[trigger] b.book_side(s1)[i2].orders@[j2]).id,
        s1,
        b.book_side(s1)[i2].price,
    ) by {
        assert(b.book_side(s1)[i2] == a.book_side(s1)[i2]);
        assert(index_has(a.orders@, a.book_side(s1)[i2].orders@[j2].id, s1, a.book_side(
            s1,
        )[i2].price));
        lemma_index_has_push(
            a.orders@,
            e_new,
            a.book_side(s1)[i2].orders@[j2].id,
            s1,
            a.book_side(s1)[i2].price,
        );
    }
}

/// An entry present in the index is still present after an entry with a
/// different id is removed.
pub proof fn lemma_index_has_remove(
    entries: Seq<OrderRef>,
    k: int,
    id: u128,
    side: OrderSide,
    price: Price,
)
    requires
        index_has(entries, id, side, price),
        0 <= k < entries.len(),
        entries[k].id != id,
    ensures
        index_has(entries.remove(k), id, side, price),
{
    let k2 = choose|k2: int| 0 <= k2 < entries.len() && entries[k2] == (OrderRef { id, side, price });
    if k2 < k {
        assert(entries.remove(k)[k2] == entries[k2]);
    } else {
        assert(entries.remove(k)[k2 - 1] == entries[k2]);
    }
}

/// Whether the level at this price on the side (if any) can absorb
/// `qty_raw` more volume without leaving the fixed-point range; a side
/// with no level at the price always can.
pub open spec fn side_can_absorb(levels: Seq<PriceLevel>, price: Price, qty_raw: int) -> bool {
    forall|i: int|
        0 <= i < levels.len() && (#[trigger] levels[i]).price == price ==> levels[i].total_volume.raw
            + qty_raw <= u64::MAX
}

/// The conditions under which `lemma_remove_order_effect` describes the new
/// side: either the level kept its other orders, or its only order left and
/// the level went with it.
pub open spec fn side_after_remove(
    a: Seq<PriceLevel>,
    b: Seq<PriceLevel>,
    i: int,
    j: int,
) -> bool {
    if a[i].orders@.len() > 1 {
        &&& b.len() == a.len()
        &&& b[i].price == a[i].price
        &&& b[i].orders@ == a[i].orders@.remove(j)
        &&& b[i].total_volume.raw == a[i].total_volume.raw
            - a[i].orders@[j].remaining_quantity.raw
        &&& forall|j2: int| 0 <= j2 < a.len() && j2 != i ==> b[j2] == a[j2]
    } else {
        &&& j == 0
        &&& b.len() == a.len() - 1
        &&& forall|j2: int| 0 <= j2 < i ==> b[j2] == a[j2]
        &&& forall|j2: int| i <= j2 < b.len() ==> b[j2] == a[j2 + 1]
    }
}

/// The entry at `k` carries the removed order's coordinates, and position
/// `(i, j)` is the only place on the book where its id rests.
#[verifier::rlimit(60)]
pub(crate) proof fn lemma_only_position(a: OrderBook, side: OrderSide, i: int, j: int, k: int)
    requires
        a.index_wf(),
        bids_sorted(a.bids@),
        asks_sorted(a.asks@),
        0 <= i < a.book_side(side).len(),
        0 <= j < a.book_side(side)[i].orders@.len(),
        0 <= k < a.orders@.len(),
        a.orders@[k].id == a.book_side(side)[i].orders@[j].id,
    ensures
        a.orders@[k] == (OrderRef {
            id: a.book_side(side)[i].orders@[j].id,
            side,
            price: a.book_side(side)[i].price,
        }),
        forall|i2: int, j2: int|
            #![trigger a.book_side(side)[i2].orders@[j2]]
            0 <= i2 < a.book_side(side).len() && 0 <= j2 < a.book_side(side)[i2].orders@.len()
                && !(i2 == i && j2 == j) ==> a.book_side(side)[i2].orders@[j2].id != a.book_side(
                side,
            )[i].orders@[j].id,
        forall|i2: int, j2: int|
            #![trigger a.book_side(side.spec_opposite())[i2].orders@[j2]]
            0 <= i2 < a.book_side(side.spec_opposite()).len() && 0 <= j2 < a.book_side(
                side.spec_opposite(),
            )[i2].orders@.len() ==> a.book_side(side.spec_opposite())[i2].orders@[j2].id
                != a.book_side(side)[i].orders@[j].id,
{
    let s0 = side;
    let s1 = side.spec_opposite();
    let a_s = a.book_side(s0);
    let o = a_s[i].orders@[j];
    let e = a.orders@[k];

    assert(a.entry_ok(e));
    assert(index_has(a.orders@, o.id, s0, a_s[i].price));
    let k2 = choose|k2: int|
        0 <= k2 < a.orders@.len() && a.orders@[k2] == (OrderRef {
            id: o.id,
            side: s0,
            price: a_s[i].price,
        });
    assert(a.orders@[k2].id == e.id);
    if k2 != k {
        assert(false);
    }
    assert(e == OrderRef { id: o.id, side: s0, price: a_s[i].price });

    assert forall|i2: int, j2: int|
        #![trigger a.book_side(s0)[i2].orders@[j2]]
        0 <= i2 < a_s.len() && 0 <= j2 < a_s[i2].orders@.len() && !(i2 == i && j2 == j) implies
        a_s[i2].orders@[j2].id != o.id by {
        if a_s[i2].orders@[j2].id == o.id {
            assert(index_has(a.orders@, o.id, s0, a_s[i2].price));
            let k3 = choose|k3: int|
                0 <= k3 < a.orders@.len() && a.orders@[k3] == (OrderRef {
                    id: o.id,
                    side: s0,
                    price: a_s[i2].price,
                });
            if k3 != k {
                assert(false);
            }
            assert(a_s[i2].price == a_s[i].price);
            if i2 != i {
                match s0 {
                    OrderSide::Buy => {
                        assert(a.bids@[i2].price.raw != a.bids@[i].price.raw);
                    },
                    OrderSide::Sell => {
                        assert(a.asks@[i2].price.raw != a.asks@[i].price.raw);
                    },
                }
            } else {
                assert(a_s[i].orders@[j2].id != a_s[i].orders@[j].id);
            }
        }
    }
    assert forall|i2: int, j2: int|
        #![trigger a.book_side(s1)[i2].orders@[j2]]
        0 <= i2 < a.book_side(s1).len() && 0 <= j2 < a.book_side(s1)[i2].orders@.len() implies
        a.book_side(s1)[i2].orders@[j2].id != o.id by {
        if a.book_side(s1)[i2].orders@[j2].id == o.id {
            assert(index_has(a.orders@, o.id, s1, a.book_side(s1)[i2].price));
            let k3 = choose|k3: int|
                0 <= k3 < a.orders@.len() && a.orders@[k3] == (OrderRef {
                    id: o.id,
                    side: s1,
                    price: a.book_side(s1)[i2].price,
                });
            if k3 != k {
                assert(false);
            }
            assert(s1 == s0);
            assert(false);
        }
    }
}

/// Removing one resting order, and its index entry, preserves the side and
/// index invariants and shrinks the resting set by exactly that id.
#[verifier::rlimit(60)]
pub(crate) proof fn lemma_remove_order_effect(
    a: OrderBook,
    b: OrderBook,
    side: OrderSide,
    i: int,
    j: int,
    k: int,
)
    requires
        a.index_wf(),
        side_wf(a.book_side(OrderSide::Buy), OrderSide::Buy),
        side_wf(a.book_side(OrderSide::Sell), OrderSide::Sell),
        bids_sorted(a.bids@),
        asks_sorted(a.asks@),
        0 <= i < a.book_side(side).len(),
        0 <= j < a.book_side(side)[i].orders@.len(),
        0 <= k < a.orders@.len(),
        a.orders@[k].id == a.book_side(side)[i].orders@[j].id,
        b.orders@ == a.orders@.remove(k),
        b.book_side(side.spec_opposite()) == a.book_side(side.spec_opposite()),
        side_after_remove(a.book_side(side), b.book_side(side), i, j),
    ensures
        side_wf(b.book_side(OrderSide::Buy), OrderSide::Buy),
        side_wf(b.book_side(OrderSide::Sell), OrderSide::Sell),
        b.index_wf(),
        !b.resting(a.book_side(side)[i].orders@[j].id),
        forall|id: u128|
            id != a.book_side(side)[i].orders@[j].id ==> b.resting(id) == a.resting(id),
{
    let s0 = side;
    let s1 = side.spec_opposite();
    let a_s = a.book_side(s0);
    let b_s = b.book_side(s0);
    let o = a_s[i].orders@[j];

    lemma_only_position(a, side, i, j, k);
    lemma_remove_levels(a, b, side, i, j, k);
    lemma_remove_index(a, b, side, i, j, k);
    lemma_remove_membership(a, b, side, i, j, k);
}

/// Side invariants after removing one order from a level (or the whole
/// level when it was alone).
#[verifier::rlimit(60)]
proof fn lemma_remove_levels(
    a: OrderBook,
    b: OrderBook,
    side: OrderSide,
    i: int,
    j: int,
    k: int,
)
    requires
        a.index_wf(),
        side_wf(a.book_side(OrderSide::Buy), OrderSide::Buy),
        side_wf(a.book_side(OrderSide::Sell), OrderSide::Sell),
        bids_sorted(a.bids@),
        asks_sorted(a.asks@),
        0 <= i < a.book_side(side).len(),
        0 <= j < a.book_side(side)[i].orders@.len(),
        0 <= k < a.orders@.len(),
        a.orders@[k].id == a.book_side(side)[i].orders@[j].id,
        b.book_side(side.spec_opposite()) == a.book_side(side.spec_opposite()),
        side_after_remove(a.book_side(side), b.book_side(side), i, j),
    ensures
        side_wf(b.book_side(OrderSide::Buy), OrderSide::Buy),
        side_wf(b.book_side(OrderSide::Sell), OrderSide::Sell),
{
    let s0 = side;
    let a_s = a.book_side(s0);
    let b_s = b.book_side(s0);
    let kept = a_s[i].orders@.len() > 1;

    assert forall|k2: int| 0 <= k2 < b_s.len() implies level_wf(#[trigger] b_s[k2], s0) by {
        if kept {
            if k2 == i {
                crate::price_level::lemma_sum_remaining_remove(a_s[i].orders@, j);
                assert forall|j2: int|
                    0 <= j2 < b_s[i].orders@.len() implies order_wf_resting(
                    #[trigger] b_s[i].orders@[j2],
                    s0,
                    b_s[i].price,
                ) by {
                    if j2 < j {
                        assert(b_s[i].orders@[j2] == a_s[i].orders@[j2]);
                    } else {
                        assert(b_s[i].orders@[j2] == a_s[i].orders@[j2 + 1]);
                    }
                }
            } else {
                assert(b_s[k2] == a_s[k2]);
            }
        } else {
            if k2 < i {
                assert(b_s[k2] == a_s[k2]);
            } else {
                assert(b_s[k2] == a_s[k2 + 1]);
            }
        }
    }
    match s0 {
        OrderSide::Buy => {
            assert(b.asks@ == a.asks@);
        },
        OrderSide::Sell => {
            assert(b.bids@ == a.bids@);
        },
    }
}

/// Index invariants after removing one order and its entry.
proof fn lemma_remove_index(
    a: OrderBook,
    b: OrderBook,
    side: OrderSide,
    i: int,
    j: int,
    k: int,
)
    requires
        a.index_wf(),
        side_wf(a.book_side(OrderSide::Buy), OrderSide::Buy),
        side_wf(a.book_side(OrderSide::Sell), OrderSide::Sell),
        bids_sorted(a.bids@),
        asks_sorted(a.asks@),
        0 <= i < a.book_side(side).len(),
        0 <= j < a.book_side(side)[i].orders@.len(),
        0 <= k < a.orders@.len(),
        a.orders@[k].id == a.book_side(side)[i].orders@[j].id,
        b.orders@ == a.orders@.remove(k),
        b.book_side(side.spec_opposite()) == a.book_side(side.spec_opposite()),
        side_after_remove(a.book_side(side), b.book_side(side), i, j),
    ensures
        b.index_wf(),
{
    lemma_remove_index_entries(a, b, side, i, j, k);
    lemma_remove_index_complete(a, b, side, i, j, k);
    lemma_remove_index_unique(a, b, side, i, j, k);
}

/// Part of the index argument: surviving entries still point at resting
/// orders.
#[verifier::rlimit(80)]
proof fn lemma_remove_index_entries(
    a: OrderBook,
    b: OrderBook,
    side: OrderSide,
    i: int,
    j: int,
    k: int,
)
    requires
        a.index_wf(),
        side_wf(a.book_side(OrderSide::Buy), OrderSide::Buy),
        side_wf(a.book_side(OrderSide::Sell), OrderSide::Sell),
        bids_sorted(a.bids@),
        asks_sorted(a.asks@),
        0 <= i < a.book_side(side).len(),
        0 <= j < a.book_side(side)[i].orders@.len(),
        0 <= k < a.orders@.len(),
        a.orders@[k].id == a.book_side(side)[i].orders@[j].id,
        b.orders@ == a.orders@.remove(k),
        b.book_side(side.spec_opposite()) == a.book_side(side.spec_opposite()),
        side_after_remove(a.book_side(side), b.book_side(side), i, j),
    ensures
        forall|k2: int| 0 <= k2 < b.orders@.len() ==> b.entry_ok(#[trigger] b.orders@[k2]),
{
    let s0 = side;
    let s1 = side.spec_opposite();
    let a_s = a.book_side(s0);
    let b_s = b.book_side(s0);
    let o = a_s[i].orders@[j];
    let kept = a_s[i].orders@.len() > 1;

    lemma_only_position(a, side, i, j, k);
    // Remaining entries still point at resting orders.
    assert forall|k2: int| 0 <= k2 < b.orders@.len() implies b.entry_ok(
        #[trigger] b.orders@[k2],
    ) by {
        let ka = if k2 < k {
            k2
        } else {
            k2 + 1
        };
        let e2 = a.orders@[ka];
        assert(b.orders@[k2] == e2);
        assert(a.entry_ok(e2));
        assert(e2.id != o.id);
        let ie2 = choose|ie2: int|
            0 <= ie2 < a.book_side(e2.side).len() && (#[trigger] a.book_side(e2.side)[ie2]).price
                == e2.price && has_order_id(a.book_side(e2.side)[ie2].orders@, e2.id);
        let j3 = choose|j3: int|
            0 <= j3 < a.book_side(e2.side)[ie2].orders@.len() && a.book_side(
                e2.side,
            )[ie2].orders@[j3].id == e2.id;
        if e2.side == s0 {
            if kept {
                if ie2 == i {
                    if j3 < j {
                        assert(b_s[i].orders@[j3] == a_s[i].orders@[j3]);
                        assert(has_order_id(b_s[i].orders@, e2.id));
                    } else {
                        assert(j3 != j);
                        assert(b_s[i].orders@[j3 - 1] == a_s[i].orders@[j3]);
                        assert(has_order_id(b_s[i].orders@, e2.id));
                    }
                } else {
                    assert(b_s[ie2] == a_s[ie2]);
                }
            } else {
                if ie2 == i {
                    assert(a_s[i].orders@.len() == 1);
                    assert(j3 == 0 && j == 0);
                    assert(false);
                } else if ie2 < i {
                    assert(b_s[ie2] == a_s[ie2]);
                } else {
                    assert(b_s[ie2 - 1] == a_s[ie2]);
                }
            }
        } else {
            assert(b.book_side(e2.side) == a.book_side(e2.side));
        }
    }

}

/// Part of the index argument: every surviving resting order keeps an
/// entry.
#[verifier::rlimit(80)]
proof fn lemma_remove_index_complete(
    a: OrderBook,
    b: OrderBook,
    side: OrderSide,
    i: int,
    j: int,
    k: int,
)
    requires
        a.index_wf(),
        side_wf(a.book_side(OrderSide::Buy), OrderSide::Buy),
        side_wf(a.book_side(OrderSide::Sell), OrderSide::Sell),
        bids_sorted(a.bids@),
        asks_sorted(a.asks@),
        0 <= i < a.book_side(side).len(),
        0 <= j < a.book_side(side)[i].orders@.len(),
        0 <= k < a.orders@.len(),
        a.orders@[k].id == a.book_side(side)[i].orders@[j].id,
        b.orders@ == a.orders@.remove(k),
        b.book_side(side.spec_opposite()) == a.book_side(side.spec_opposite()),
        side_after_remove(a.book_side(side), b.book_side(side), i, j),
    ensures
        b.index_complete_side(OrderSide::Buy),
        b.index_complete_side(OrderSide::Sell),
{
    let s0 = side;
    let s1 = side.spec_opposite();
    let a_s = a.book_side(s0);
    let b_s = b.book_side(s0);
    let o = a_s[i].orders@[j];
    let kept = a_s[i].orders@.len() > 1;

    lemma_only_position(a, side, i, j, k);
    // Completeness on the touched side.
    assert forall|i2: int, j2: int|
        0 <= i2 < b_s.len() && 0 <= j2 < b_s[i2].orders@.len() implies index_has(
        b.orders@,
        (#[trigger] b_s[i2].orders@[j2]).id,
        s0,
        b_s[i2].price,
    ) by {
        if kept {
            if i2 == i {
                let ja = if j2 < j {
                    j2
                } else {
                    j2 + 1
                };
                assert(b_s[i].orders@[j2] == a_s[i].orders@[ja]);
                assert(index_has(a.orders@, a_s[i].orders@[ja].id, s0, a_s[i].price));
                lemma_index_has_remove(a.orders@, k, a_s[i].orders@[ja].id, s0, a_s[i].price);
            } else {
                assert(b_s[i2] == a_s[i2]);
                assert(index_has(a.orders@, a_s[i2].orders@[j2].id, s0, a_s[i2].price));
                lemma_index_has_remove(a.orders@, k, a_s[i2].orders@[j2].id, s0, a_s[i2].price);
            }
        } else {
            let ia = if i2 < i {
                i2
            } else {
                i2 + 1
            };
            assert(b_s[i2] == a_s[ia]);
            assert(index_has(a.orders@, a_s[ia].orders@[j2].id, s0, a_s[ia].price));
            lemma_index_has_remove(a.orders@, k, a_s[ia].orders@[j2].id, s0, a_s[ia].price);
        }
    }

    // Completeness on the untouched side.
    assert forall|i2: int, j2: int|
        0 <= i2 < b.book_side(s1).len() && 0 <= j2 < b.book_side(s1)[i2].orders@.len() implies
        index_has(
        b.orders@,
        (#[trigger] b.book_side(s1)[i2].orders@[j2]).id,
        s1,
        b.book_side(s1)[i2].price,
    ) by {
        assert(b.book_side(s1)[i2] == a.book_side(s1)[i2]);
        assert(index_has(a.orders@, a.book_side(s1)[i2].orders@[j2].id, s1, a.book_side(
            s1,
        )[i2].price));
        assert(a.book_side(s1)[i2].orders@[j2].id != o.id);
        lemma_index_has_remove(
            a.orders@,
            k,
            a.book_side(s1)[i2].orders@[j2].id,
            s1,
            a.book_side(s1)[i2].price,
        );
    }

}

/// Part of the index argument: ids stay pairwise distinct in the index and
/// within each level.
#[verifier::rlimit(80)]
proof fn lemma_remove_index_unique(
    a: OrderBook,
    b: OrderBook,
    side: OrderSide,
    i: int,
    j: int,
    k: int,
)
    requires
        a.index_wf(),
        side_wf(a.book_side(OrderSide::Buy), OrderSide::Buy),
        side_wf(a.book_side(OrderSide::Sell), OrderSide::Sell),
        bids_sorted(a.bids@),
        asks_sorted(a.asks@),
        0 <= i < a.book_side(side).len(),
        0 <= j < a.book_side(side)[i].orders@.len(),
        0 <= k < a.orders@.len(),
        a.orders@[k].id == a.book_side(side)[i].orders@[j].id,
        b.orders@ == a.orders@.remove(k),
        b.book_side(side.spec_opposite()) == a.book_side(side.spec_opposite()),
        side_after_remove(a.book_side(side), b.book_side(side), i, j),
    ensures
        b.index_ids_unique(),
        b.level_ids_unique(OrderSide::Buy),
        b.level_ids_unique(OrderSide::Sell),
{
    let s0 = side;
    let s1 = side.spec_opposite();
    let a_s = a.book_side(s0);
    let b_s = b.book_side(s0);
    let o = a_s[i].orders@[j];
    let kept = a_s[i].orders@.len() > 1;

    lemma_only_position(a, side, i, j, k);
    // Uniqueness survives taking subsequences.
    assert forall|k1: int, k2: int|
        0 <= k1 < b.orders@.len() && 0 <= k2 < b.orders@.len() && k1 != k2 implies (
    #[trigger] b.orders@[k1]).id != (#[trigger] b.orders@[k2]).id by {
        let ka1 = if k1 < k {
            k1
        } else {
            k1 + 1
        };
        let ka2 = if k2 < k {
            k2
        } else {
            k2 + 1
        };
        assert(b.orders@[k1] == a.orders@[ka1]);
        assert(b.orders@[k2] == a.orders@[ka2]);
    }
    assert forall|i2: int, j1: int, j2: int|
        #![trigger b.book_side(s0)[i2].orders@[j1], b.book_side(s0)[i2].orders@[j2]]
        0 <= i2 < b_s.len() && 0 <= j1 < b_s[i2].orders@.len() && 0 <= j2 < b_s[i2].orders@.len()
            && j1 != j2 implies b_s[i2].orders@[j1].id != b_s[i2].orders@[j2].id by {
        if kept {
            if i2 == i {
                let ja1 = if j1 < j {
                    j1
                } else {
                    j1 + 1
                };
                let ja2 = if j2 < j {
                    j2
                } else {
                    j2 + 1
                };
                assert(b_s[i].orders@[j1] == a_s[i].orders@[ja1]);
                assert(b_s[i].orders@[j2] == a_s[i].orders@[ja2]);
            } else {
                assert(b_s[i2] == a_s[i2]);
            }
        } else {
            let ia = if i2 < i {
                i2
            } else {
                i2 + 1
            };
            assert(b_s[i2] == a_s[ia]);
        }
    }

    match s0 {
        OrderSide::Buy => {
            assert(b.asks@ == a.asks@);
        },
        OrderSide::Sell => {
            assert(b.bids@ == a.bids@);
        },
    }
}

/// Membership after the removal: the removed id is gone, all others stay.
#[verifier::rlimit(60)]
proof fn lemma_remove_membership(
    a: OrderBook,
    b: OrderBook,
    side: OrderSide,
    i: int,
    j: int,
    k: int,
)
    requires
        a.index_wf(),
        side_wf(a.book_side(OrderSide::Buy), OrderSide::Buy),
        side_wf(a.book_side(OrderSide::Sell), OrderSide::Sell),
        bids_sorted(a.bids@),
        asks_sorted(a.asks@),
        0 <= i < a.book_side(side).len(),
        0 <= j < a.book_side(side)[i].orders@.len(),
        0 <= k < a.orders@.len(),
        a.orders@[k].id == a.book_side(side)[i].orders@[j].id,
        b.book_side(side.spec_opposite()) == a.book_side(side.spec_opposite()),
        side_after_remove(a.book_side(side), b.book_side(side), i, j),
    ensures
        !b.resting(a.book_side(side)[i].orders@[j].id),
        forall|id: u128|
            id != a.book_side(side)[i].orders@[j].id ==> b.resting(id) == a.resting(id),
{
    let s0 = side;
    let s1 = side.spec_opposite();
    let a_s = a.book_side(s0);
    let b_s = b.book_side(s0);
    let o = a_s[i].orders@[j];
    let kept = a_s[i].orders@.len() > 1;

    lemma_only_position(a, side, i, j, k);

    assert(!side_has_order_id(b_s, o.id)) by {
        if side_has_order_id(b_s, o.id) {
            let w = choose|w: int| 0 <= w < b_s.len() && has_order_id(#[trigger] b_s[w].orders@, o.id);
            let jw = choose|jw: int| 0 <= jw < b_s[w].orders@.len() && b_s[w].orders@[jw].id == o.id;
            if kept {
                if w == i {
                    let ja = if jw < j {
                        jw
                    } else {
                        jw + 1
                    };
                    assert(b_s[i].orders@[jw] == a_s[i].orders@[ja]);
                    assert(false);
                } else {
                    assert(b_s[w] == a_s[w]);
                    assert(a_s[w].orders@[jw].id != o.id);
                    assert(false);
                }
            } else {
                let ia = if w < i {
                    w
                } else {
                    w + 1
                };
                assert(b_s[w] == a_s[ia]);
                assert(a_s[ia].orders@[jw].id != o.id);
                assert(false);
            }
        }
    }
    assert(!side_has_order_id(b.book_side(s1), o.id)) by {
        if side_has_order_id(b.book_side(s1), o.id) {
            let w = choose|w: int|
                0 <= w < b.book_side(s1).len() && has_order_id(
                    #[trigger] b.book_side(s1)[w].orders@,
                    o.id,
                );
            let jw = choose|jw: int|
                0 <= jw < b.book_side(s1)[w].orders@.len() && b.book_side(s1)[w].orders@[jw].id
                    == o.id;
            assert(b.book_side(s1)[w] == a.book_side(s1)[w]);
            assert(a.book_side(s1)[w].orders@[jw].id != o.id);
            assert(false);
        }
    }
    match s0 {
        OrderSide::Buy => {
            assert(!side_has_order_id(b.bids@, o.id) && !side_has_order_id(b.asks@, o.id));
        },
        OrderSide::Sell => {
            assert(!side_has_order_id(b.asks@, o.id) && !side_has_order_id(b.bids@, o.id));
        },
    }

    assert forall|id: u128| id != o.id implies b.resting(id) == a.resting(id) by {
        assert(side_has_order_id(b_s, id) == side_has_order_id(a_s, id)) by {
            if side_has_order_id(a_s, id) {
                let w = choose|w: int|
                    0 <= w < a_s.len() && has_order_id(#[trigger] a_s[w].orders@, id);
                let jw = choose|jw: int|
                    0 <= jw < a_s[w].orders@.len() && a_s[w].orders@[jw].id == id;
                assert(!(w == i && jw == j));
                if kept {
                    if w == i {
                        if jw < j {
                            assert(b_s[i].orders@[jw] == a_s[i].orders@[jw]);
                            assert(has_order_id(b_s[i].orders@, id));
                        } else {
                            assert(b_s[i].orders@[jw - 1] == a_s[i].orders@[jw]);
                            assert(has_order_id(b_s[i].orders@, id));
                        }
                    } else {
                        assert(b_s[w] == a_s[w]);
                    }
                    assert(side_has_order_id(b_s, id));
                } else {
                    if w == i {
                        assert(jw == 0 && j == 0);
                        assert(false);
                    } else if w < i {
                        assert(b_s[w] == a_s[w]);
                        assert(side_has_order_id(b_s, id));
                    } else {
                        assert(b_s[w - 1] == a_s[w]);
                        assert(has_order_id(b_s[w - 1].orders@, id));
                        assert(side_has_order_id(b_s, id));
                    }
                }
            }
            if side_has_order_id(b_s, id) {
                let w = choose|w: int|
                    0 <= w < b_s.len() && has_order_id(#[trigger] b_s[w].orders@, id);
                let jw = choose|jw: int|
                    0 <= jw < b_s[w].orders@.len() && b_s[w].orders@[jw].id == id;
                if kept {
                    if w == i {
                        let ja = if jw < j {
                            jw
                        } else {
                            jw + 1
                        };
                        assert(b_s[i].orders@[jw] == a_s[i].orders@[ja]);
                        assert(has_order_id(a_s[i].orders@, id));
                    } else {
                        assert(b_s[w] == a_s[w]);
                        assert(has_order_id(a_s[w].orders@, id));
                    }
                    assert(side_has_order_id(a_s, id));
                } else {
                    let ia = if w < i {
                        w
                    } else {
                        w + 1
                    };
                    assert(b_s[w] == a_s[ia]);
                    assert(has_order_id(a_s[ia].orders@, id));
                    assert(side_has_order_id(a_s, id));
                }
            }
        }
        match s0 {
            OrderSide::Buy => {
                assert(b.asks@ == a.asks@);
            },
            OrderSide::Sell => {
                assert(b.bids@ == a.bids@);
            },
        }
    }
}

/// No order carrying `id` rests anywhere on the side it is absent from.
proof fn lemma_not_resting_side(a: OrderBook, side: OrderSide, id: u128)
    requires
        !a.resting(id),
    ensures
        forall|i: int, j: int|
            #![trigger a.book_side(side)[i].orders@[j]]
            0 <= i < a.book_side(side).len() && 0 <= j < a.book_side(side)[i].orders@.len()
                ==> a.book_side(side)[i].orders@[j].id != id,
{
    let a_s = a.book_side(side);
    assert forall|i: int, j: int|
        #![trigger a_s[i].orders@[j]]
        0 <= i < a_s.len() && 0 <= j < a_s[i].orders@.len() implies a_s[i].orders@[j].id != id by {
        if a_s[i].orders@[j].id == id {
            assert(has_order_id(a_s[i].orders@, id));
            match side {
                OrderSide::Buy => {
                    assert(side_has_order_id(a.bids@, id));
                },
                OrderSide::Sell => {
                    assert(side_has_order_id(a.asks@, id));
                },
            }
        }
    }
}

/// The update case of `lemma_add_order_effect`: the order joined the tail
/// of the existing level at its price.
#[verifier::rlimit(60)]
proof fn lemma_add_update_case(a: OrderBook, b: OrderBook, order: Order, i: int)
    requires
        a.index_wf(),
        side_wf(a.book_side(OrderSide::Buy), OrderSide::Buy),
        side_wf(a.book_side(OrderSide::Sell), OrderSide::Sell),
        order.price is Some,
        order_wf_resting(order, order.side, order.price.unwrap()),
        !a.resting(order.id),
        b.book_side(order.side.spec_opposite()) == a.book_side(order.side.spec_opposite()),
        b.orders@ == a.orders@.push(
            OrderRef { id: order.id, side: order.side, price: order.price.unwrap() },
        ),
        0 <= i < a.book_side(order.side).len(),
        a.book_side(order.side)[i].price == order.price.unwrap(),
        b.book_side(order.side).len() == a.book_side(order.side).len(),
        b.book_side(order.side)[i].price == order.price.unwrap(),
        b.book_side(order.side)[i].orders@ == a.book_side(order.side)[i].orders@.push(order),
        b.book_side(order.side)[i].total_volume.raw == a.book_side(order.side)[i].total_volume.raw
            + order.remaining_quantity.raw,
        forall|j: int|
            0 <= j < a.book_side(order.side).len() && j != i ==> b.book_side(order.side)[j]
                == a.book_side(order.side)[j],
    ensures
        side_wf(b.book_side(order.side), order.side),
        forall|k: int| 0 <= k < b.orders@.len() ==> b.entry_ok(#[trigger] b.orders@[k]),
        b.index_complete_side(order.side),
        b.level_ids_unique(order.side),
        b.resting(order.id),
        forall|id: u128| id != order.id ==> b.resting(id) == a.resting(id),
{
    let s0 = order.side;
    let p = order.price.unwrap();
    let a_s = a.book_side(s0);
    let b_s = b.book_side(s0);
    let e_new = OrderRef { id: order.id, side: s0, price: p };
    lemma_not_resting_side(a, s0, order.id);

    // Level invariants on the touched side.
    assert forall|k: int| 0 <= k < b_s.len() implies level_wf(#[trigger] b_s[k], s0) by {
        assert(level_wf(a_s[k], s0));
        if k == i {
            crate::price_level::lemma_sum_remaining_push(a_s[i].orders@, order);
            assert forall|j: int|
                0 <= j < b_s[i].orders@.len() implies order_wf_resting(
                #[trigger] b_s[i].orders@[j],
                s0,
                b_s[i].price,
            ) by {
                if j < a_s[i].orders@.len() {
                    assert(b_s[i].orders@[j] == a_s[i].orders@[j]);
                } else {
                    assert(b_s[i].orders@[j] == order);
                }
            }
        }
    }

    // Old index entries still point at resting orders.
    assert forall|k: int| 0 <= k < b.orders@.len() implies b.entry_ok(#[trigger] b.orders@[k]) by {
        if k < a.orders@.len() {
            let e = a.orders@[k];
            assert(a.entry_ok(e));
            assert(b.orders@[k] == e);
            let ie = choose|ie: int|
                0 <= ie < a.book_side(e.side).len() && (#[trigger] a.book_side(e.side)[ie]).price
                    == e.price && has_order_id(a.book_side(e.side)[ie].orders@, e.id);
            if e.side == s0 {
                if ie == i {
                    let j = choose|j: int|
                        0 <= j < a_s[i].orders@.len() && a_s[i].orders@[j].id == e.id;
                    assert(b_s[i].orders@[j] == a_s[i].orders@[j]);
                    assert(has_order_id(b_s[i].orders@, e.id));
                    assert(b.book_side(e.side)[i].price == e.price);
                } else {
                    assert(b_s[ie] == a_s[ie]);
                }
            } else {
                assert(b.book_side(e.side) == a.book_side(e.side));
            }
        } else {
            assert(b.orders@[k] == e_new);
            let j = a_s[i].orders@.len() as int;
            assert(b_s[i].orders@[j] == order);
            assert(has_order_id(b_s[i].orders@, order.id));
            assert(b.book_side(s0)[i].price == p);
        }
    }

    // Completeness on the touched side.
    assert forall|i2: int, j2: int|
        0 <= i2 < b_s.len() && 0 <= j2 < b_s[i2].orders@.len() implies index_has(
        b.orders@,
        (#[trigger] b_s[i2].orders@[j2]).id,
        s0,
        b_s[i2].price,
    ) by {
        if i2 != i {
            assert(b_s[i2] == a_s[i2]);
            assert(index_has(a.orders@, a_s[i2].orders@[j2].id, s0, a_s[i2].price));
            lemma_index_has_push(a.orders@, e_new, a_s[i2].orders@[j2].id, s0, a_s[i2].price);
        } else if j2 < a_s[i].orders@.len() {
            assert(b_s[i].orders@[j2] == a_s[i].orders@[j2]);
            assert(index_has(a.orders@, a_s[i].orders@[j2].id, s0, a_s[i].price));
            lemma_index_has_push(a.orders@, e_new, a_s[i].orders@[j2].id, s0, a_s[i].price);
        } else {
            assert(b_s[i].orders@[j2] == order);
            let k = a.orders@.len() as int;
            assert(b.orders@[k] == e_new);
            assert(index_has(b.orders@, order.id, s0, p));
        }
    }

    // Level ids stay pairwise distinct on the touched side.
    assert forall|i2: int, j1: int, j2: int|
        0 <= i2 < b_s.len() && 0 <= j1 < b_s[i2].orders@.len() && 0 <= j2 < b_s[i2].orders@.len()
            && j1 != j2 implies (#[trigger] b_s[i2].orders@[j1]).id != (
    #[trigger] b_s[i2].orders@[j2]).id by {
        if i2 == i {
            let n = a_s[i].orders@.len();
            if j1 < n && j2 < n {
                assert(b_s[i].orders@[j1] == a_s[i].orders@[j1]);
                assert(b_s[i].orders@[j2] == a_s[i].orders@[j2]);
            } else if j1 < n {
                assert(b_s[i].orders@[j2] == order);
                assert(b_s[i].orders@[j1] == a_s[i].orders@[j1]);
            } else {
                assert(b_s[i].orders@[j1] == order);
                assert(b_s[i].orders@[j2] == a_s[i].orders@[j2]);
            }
        } else {
            assert(b_s[i2] == a_s[i2]);
        }
    }

    // The new id rests, and no other membership changed.
    let jn = a_s[i].orders@.len() as int;
    assert(b_s[i].orders@[jn] == order);
    assert(has_order_id(b_s[i].orders@, order.id));
    match s0 {
        OrderSide::Buy => {
            assert(side_has_order_id(b.bids@, order.id));
        },
        OrderSide::Sell => {
            assert(side_has_order_id(b.asks@, order.id));
        },
    }
    assert forall|id: u128| id != order.id implies b.resting(id) == a.resting(id) by {
        lemma_same_resting_after_add_update(a, b, order, i, id);
    }
}

/// The insert case of `lemma_add_order_effect`: a fresh one-order level
/// entered at its sort position.
#[verifier::rlimit(60)]
proof fn lemma_add_insert_case(a: OrderBook, b: OrderBook, order: Order, pos: int)
    requires
        a.index_wf(),
        side_wf(a.book_side(OrderSide::Buy), OrderSide::Buy),
        side_wf(a.book_side(OrderSide::Sell), OrderSide::Sell),
        order.price is Some,
        order_wf_resting(order, order.side, order.price.unwrap()),
        !a.resting(order.id),
        b.book_side(order.side.spec_opposite()) == a.book_side(order.side.spec_opposite()),
        b.orders@ == a.orders@.push(
            OrderRef { id: order.id, side: order.side, price: order.price.unwrap() },
        ),
        0 <= pos <= a.book_side(order.side).len(),
        b.book_side(order.side).len() == a.book_side(order.side).len() + 1,
        b.book_side(order.side)[pos].price == order.price.unwrap(),
        b.book_side(order.side)[pos].orders@ == seq![order],
        b.book_side(order.side)[pos].total_volume.raw == order.remaining_quantity.raw,
        forall|j: int|
            0 <= j < pos ==> b.book_side(order.side)[j] == a.book_side(order.side)[j],
        forall|j: int|
            pos <= j < a.book_side(order.side).len() ==> b.book_side(order.side)[j + 1]
                == a.book_side(order.side)[j],
    ensures
        side_wf(b.book_side(order.side), order.side),
        forall|k: int| 0 <= k < b.orders@.len() ==> b.entry_ok(#[trigger] b.orders@[k]),
        b.index_complete_side(order.side),
        b.level_ids_unique(order.side),
        b.resting(order.id),
        forall|id: u128| id != order.id ==> b.resting(id) == a.resting(id),
{
    let s0 = order.side;
    let p = order.price.unwrap();
    let a_s = a.book_side(s0);
    let b_s = b.book_side(s0);
    let e_new = OrderRef { id: order.id, side: s0, price: p };

    assert forall|k: int| 0 <= k < b_s.len() implies level_wf(#[trigger] b_s[k], s0) by {
        if k < pos {
            assert(b_s[k] == a_s[k]);
            assert(level_wf(a_s[k], s0));
        } else if k == pos {
            assert(b_s[pos].orders@ == seq![order]);
            assert(b_s[pos].orders@.len() == 1);
            assert(b_s[pos].orders@[0] == order);
            assert(b_s[pos].orders@.skip(1) =~= Seq::<Order>::empty());
            assert(crate::price_level::sum_remaining(b_s[pos].orders@.skip(1)) == 0);
            assert(crate::price_level::sum_remaining(b_s[pos].orders@)
                == order.remaining_quantity.raw + crate::price_level::sum_remaining(
                b_s[pos].orders@.skip(1),
            ));
        } else {
            assert(b_s[k] == a_s[k - 1]);
            assert(level_wf(a_s[k - 1], s0));
        }
    }

    assert forall|k: int| 0 <= k < b.orders@.len() implies b.entry_ok(#[trigger] b.orders@[k]) by {
        if k < a.orders@.len() {
            let e = a.orders@[k];
            assert(a.entry_ok(e));
            assert(b.orders@[k] == e);
            let ie = choose|ie: int|
                0 <= ie < a.book_side(e.side).len() && (#[trigger] a.book_side(e.side)[ie]).price
                    == e.price && has_order_id(a.book_side(e.side)[ie].orders@, e.id);
            if e.side == s0 {
                if ie < pos {
                    assert(b_s[ie] == a_s[ie]);
                } else {
                    assert(b_s[ie + 1] == a_s[ie]);
                }
            } else {
                assert(b.book_side(e.side) == a.book_side(e.side));
            }
        } else {
            assert(b.orders@[k] == e_new);
            assert(b_s[pos].orders@[0] == order);
            assert(has_order_id(b_s[pos].orders@, order.id));
        }
    }

    assert forall|i2: int, j2: int|
        0 <= i2 < b_s.len() && 0 <= j2 < b_s[i2].orders@.len() implies index_has(
        b.orders@,
        (#[trigger] b_s[i2].orders@[j2]).id,
        s0,
        b_s[i2].price,
    ) by {
        if i2 < pos {
            assert(b_s[i2] == a_s[i2]);
            assert(index_has(a.orders@, a_s[i2].orders@[j2].id, s0, a_s[i2].price));
            lemma_index_has_push(a.orders@, e_new, a_s[i2].orders@[j2].id, s0, a_s[i2].price);
        } else if i2 == pos {
            assert(b_s[pos].orders@[j2] == order);
            let k = a.orders@.len() as int;
            assert(b.orders@[k] == e_new);
            assert(index_has(b.orders@, order.id, s0, p));
        } else {
            assert(b_s[i2] == a_s[i2 - 1]);
            assert(index_has(a.orders@, a_s[i2 - 1].orders@[j2].id, s0, a_s[i2 - 1].price));
            lemma_index_has_push(
                a.orders@,
                e_new,
                a_s[i2 - 1].orders@[j2].id,
                s0,
                a_s[i2 - 1].price,
            );
        }
    }

    assert forall|i2: int, j1: int, j2: int|
        0 <= i2 < b_s.len() && 0 <= j1 < b_s[i2].orders@.len() && 0 <= j2 < b_s[i2].orders@.len()
            && j1 != j2 implies (#[trigger] b_s[i2].orders@[j1]).id != (
    #[trigger] b_s[i2].orders@[j2]).id by {
        if i2 < pos {
            assert(b_s[i2] == a_s[i2]);
        } else if i2 > pos {
            assert(b_s[i2] == a_s[i2 - 1]);
        }
    }

    assert(b_s[pos].orders@[0] == order);
    assert(has_order_id(b_s[pos].orders@, order.id));
    match s0 {
        OrderSide::Buy => {
            assert(side_has_order_id(b.bids@, order.id));
        },
        OrderSide::Sell => {
            assert(side_has_order_id(b.asks@, order.id));
        },
    }
    assert forall|id: u128| id != order.id implies b.resting(id) == a.resting(id) by {
        lemma_same_resting_after_add_insert(a, b, order, pos, id);
    }
}

/// Membership of every other id is untouched when a level takes one more
/// order at its tail.
proof fn lemma_same_resting_after_add_update(a: OrderBook, b: OrderBook, order: Order, i: int, id: u128)
    requires
        order.price is Some,
        0 <= i < a.book_side(order.side).len(),
        b.book_side(order.side).len() == a.book_side(order.side).len(),
        b.book_side(order.side)[i].orders@ == a.book_side(order.side)[i].orders@.push(order),
        forall|j: int|
            0 <= j < a.book_side(order.side).len() && j != i ==> b.book_side(order.side)[j]
                == a.book_side(order.side)[j],
        b.book_side(order.side.spec_opposite()) == a.book_side(order.side.spec_opposite()),
        id != order.id,
    ensures
        b.resting(id) == a.resting(id),
{
    let s0 = order.side;
    let a_s = a.book_side(s0);
    let b_s = b.book_side(s0);
    assert(side_has_order_id(a_s, id) == side_has_order_id(b_s, id)) by {
        if side_has_order_id(a_s, id) {
            let w = choose|w: int| 0 <= w < a_s.len() && has_order_id(#[trigger] a_s[w].orders@, id);
            let j = choose|j: int| 0 <= j < a_s[w].orders@.len() && a_s[w].orders@[j].id == id;
            if w == i {
                assert(b_s[i].orders@[j] == a_s[w].orders@[j]);
                assert(has_order_id(b_s[w].orders@, id));
            } else {
                assert(b_s[w] == a_s[w]);
            }
            assert(side_has_order_id(b_s, id));
        }
        if side_has_order_id(b_s, id) {
            let w = choose|w: int| 0 <= w < b_s.len() && has_order_id(#[trigger] b_s[w].orders@, id);
            let j = choose|j: int| 0 <= j < b_s[w].orders@.len() && b_s[w].orders@[j].id == id;
            if w == i {
                if j < a_s[i].orders@.len() {
                    assert(a_s[i].orders@[j].id == id);
                    assert(has_order_id(a_s[i].orders@, id));
                } else {
                    assert(b_s[i].orders@[j] == order);
                    assert(false);
                }
            } else {
                assert(b_s[w] == a_s[w]);
            }
            assert(side_has_order_id(a_s, id));
        }
    }
    match s0 {
        OrderSide::Buy => {
            assert(b.asks@ == a.asks@);
        },
        OrderSide::Sell => {
            assert(b.bids@ == a.bids@);
        },
    }
}

/// Membership of every other id is untouched when a fresh one-order level
/// is inserted.
proof fn lemma_same_resting_after_add_insert(a: OrderBook, b: OrderBook, order: Order, pos: int, id: u128)
    requires
        order.price is Some,
        0 <= pos <= a.book_side(order.side).len(),
        b.book_side(order.side).len() == a.book_side(order.side).len() + 1,
        b.book_side(order.side)[pos].orders@ == seq![order],
        forall|j: int|
            0 <= j < pos ==> b.book_side(order.side)[j] == a.book_side(order.side)[j],
        forall|j: int|
            pos <= j < a.book_side(order.side).len() ==> b.book_side(order.side)[j + 1]
                == a.book_side(order.side)[j],
        b.book_side(order.side.spec_opposite()) == a.book_side(order.side.spec_opposite()),
        id != order.id,
    ensures
        b.resting(id) == a.resting(id),
{
    let s0 = order.side;
    let a_s = a.book_side(s0);
    let b_s = b.book_side(s0);
    assert(side_has_order_id(a_s, id) == side_has_order_id(b_s, id)) by {
        if side_has_order_id(a_s, id) {
            let w = choose|w: int| 0 <= w < a_s.len() && has_order_id(#[trigger] a_s[w].orders@, id);
            if w < pos {
                assert(b_s[w] == a_s[w]);
                assert(has_order_id(b_s[w].orders@, id));
            } else {
                assert(b_s[w + 1] == a_s[w]);
                assert(has_order_id(b_s[w + 1].orders@, id));
            }
            assert(side_has_order_id(b_s, id));
        }
        if side_has_order_id(b_s, id) {
            let w = choose|w: int| 0 <= w < b_s.len() && has_order_id(#[trigger] b_s[w].orders@, id);
            if w == pos {
                let j = choose|j: int| 0 <= j < b_s[w].orders@.len() && b_s[w].orders@[j].id == id;
                assert(b_s[pos].orders@[j] == order);
                assert(false);
            } else if w < pos {
                assert(b_s[w] == a_s[w]);
                assert(has_order_id(a_s[w].orders@, id));
            } else {
                assert(b_s[w] == a_s[w - 1]);
                assert(has_order_id(a_s[w - 1].orders@, id));
            }
            assert(side_has_order_id(a_s, id));
        }
    }
    match s0 {
        OrderSide::Buy => {
            assert(b.asks@ == a.asks@);
        },
        OrderSide::Sell => {
            assert(b.bids@ == a.bids@);
        },
    }
}

/// Under unique users, any position holding `user_id` is the `user_index`.
pub proof fn lemma_user_index_agrees(s: Seq<UserBalance>, user_id: u128, i: int)
    requires
        users_unique(s),
        0 <= i < s.len(),
        s[i].user_id == user_id,
    ensures
        user_index(s, user_id) == i,
        balance_of(s, user_id) == s[i],
        has_user(s, user_id),
{
    assert(has_user(s, user_id));
    let j = user_index(s, user_id);
    assert(0 <= j < s.len() && s[j].user_id == user_id);
}

/// Removing a resting order moves best prices only away from the spread,
/// and keeps both sides sorted.
pub(crate) proof fn lemma_cancel_spread(a: OrderBook, b: OrderBook, side: OrderSide, i: int, j: int)
    requires
        bids_sorted(a.bids@),
        asks_sorted(a.asks@),
        a.spread_ok(),
        0 <= i < a.book_side(side).len(),
        0 <= j < a.book_side(side)[i].orders@.len(),
        b.book_side(side.spec_opposite()) == a.book_side(side.spec_opposite()),
        side_after_remove(a.book_side(side), b.book_side(side), i, j),
    ensures
        bids_sorted(b.bids@),
        asks_sorted(b.asks@),
        b.spread_ok(),
{
    let a_s = a.book_side(side);
    let b_s = b.book_side(side);
    let kept = a_s[i].orders@.len() > 1;
    if kept {
        assert forall|x: int| 0 <= x < b_s.len() implies (#[trigger] b_s[x]).price
            == a_s[x].price by {
            if x != i {
                assert(b_s[x] == a_s[x]);
            }
        }
    }
    match side {
        OrderSide::Buy => {
            assert(b.asks@ == a.asks@);
            assert forall|i2: int, j2: int|
                0 <= i2 < j2 < b.bids@.len() implies b.bids@[i2].price.raw
                > b.bids@[j2].price.raw by {
                if kept {
                    assert(b_s[i2].price == a_s[i2].price);
                    assert(b_s[j2].price == a_s[j2].price);
                } else {
                    let m1 = if i2 < i { i2 } else { i2 + 1 };
                    let m2 = if j2 < i { j2 } else { j2 + 1 };
                    assert(b_s[i2] == a_s[m1]);
                    assert(b_s[j2] == a_s[m2]);
                }
            }
            if b.bids@.len() > 0 && b.asks@.len() > 0 {
                if kept {
                    assert(b.bids@[0].price == a.bids@[0].price);
                } else if i == 0 {
                    assert(b.bids@[0] == a.bids@[1]);
                    assert(a.bids@[1].price.raw < a.bids@[0].price.raw);
                } else {
                    assert(b.bids@[0] == a.bids@[0]);
                }
            }
        },
        OrderSide::Sell => {
            assert(b.bids@ == a.bids@);
            assert forall|i2: int, j2: int|
                0 <= i2 < j2 < b.asks@.len() implies b.asks@[i2].price.raw
                < b.asks@[j2].price.raw by {
                if kept {
                    assert(b_s[i2].price == a_s[i2].price);
                    assert(b_s[j2].price == a_s[j2].price);
                } else {
                    let m1 = if i2 < i { i2 } else { i2 + 1 };
                    let m2 = if j2 < i { j2 } else { j2 + 1 };
                    assert(b_s[i2] == a_s[m1]);
                    assert(b_s[j2] == a_s[m2]);
                }
            }
            if b.bids@.len() > 0 && b.asks@.len() > 0 {
                if kept {
                    assert(b.asks@[0].price == a.asks@[0].price);
                } else if i == 0 {
                    assert(b.asks@[0] == a.asks@[1]);
                    assert(a.asks@[1].price.raw > a.asks@[0].price.raw);
                } else {
                    assert(b.asks@[0] == a.asks@[0]);
                }
            }
        },
    }
}

/// A resting id always has an index entry carrying it.
pub(crate) proof fn lemma_resting_has_entry(a: OrderBook, id: u128)
    requires
        a.index_complete_side(OrderSide::Buy),
        a.index_complete_side(OrderSide::Sell),
        a.resting(id),
    ensures
        exists|k: int| 0 <= k < a.orders@.len() && (#[trigger] a.orders@[k]).id == id,
{
    if side_has_order_id(a.bids@, id) {
        let i = choose|i: int|
            0 <= i < a.bids@.len() && has_order_id(#[trigger] a.bids@[i].orders@, id);
        let j = choose|j: int| 0 <= j < a.bids@[i].orders@.len() && a.bids@[i].orders@[j].id == id;
        assert(index_has(a.orders@, a.bids@[i].orders@[j].id, OrderSide::Buy, a.bids@[i].price));
        let k = choose|k: int|
            0 <= k < a.orders@.len() && a.orders@[k] == (OrderRef {
                id,
                side: OrderSide::Buy,
                price: a.bids@[i].price,
            });
        assert(a.orders@[k].id == id);
    } else {
        let i = choose|i: int|
            0 <= i < a.asks@.len() && has_order_id(#[trigger] a.asks@[i].orders@, id);
        let j = choose|j: int| 0 <= j < a.asks@[i].orders@.len() && a.asks@[i].orders@[j].id == id;
        assert(index_has(a.orders@, a.asks@[i].orders@[j].id, OrderSide::Sell, a.asks@[i].price));
        let k = choose|k: int|
            0 <= k < a.orders@.len() && a.orders@[k] == (OrderRef {
                id,
                side: OrderSide::Sell,
                price: a.asks@[i].price,
            });
        assert(a.orders@[k].id == id);
    }
}

/// The side and index invariants, and the resting set, depend only on the
/// levels and the index: they carry over to any state that differs in
/// balances alone.
pub(crate) proof fn lemma_wf_transfer(a: OrderBook, b: OrderBook)
    requires
        a.wf(),
        b.bids@ == a.bids@,
        b.asks@ == a.asks@,
        b.orders@ == a.orders@,
        b.balances_wf(),
    ensures
        b.wf(),
        forall|id: u128| #[trigger] b.resting(id) == a.resting(id),
{
    assert(b.book_side(OrderSide::Buy) == a.book_side(OrderSide::Buy));
    assert(b.book_side(OrderSide::Sell) == a.book_side(OrderSide::Sell));
    assert forall|k: int| 0 <= k < b.orders@.len() implies b.entry_ok(#[trigger] b.orders@[k]) by {
        let e = a.orders@[k];
        assert(a.entry_ok(e));
        let ie = choose|ie: int|
            0 <= ie < a.book_side(e.side).len() && (#[trigger] a.book_side(e.side)[ie]).price
                == e.price && has_order_id(a.book_side(e.side)[ie].orders@, e.id);
        assert(0 <= ie < b.book_side(e.side).len() && b.book_side(e.side)[ie].price == e.price
            && has_order_id(b.book_side(e.side)[ie].orders@, e.id));
    }
    assert forall|i: int, j: int|
        0 <= i < b.book_side(OrderSide::Buy).len() && 0 <= j < b.book_side(
            OrderSide::Buy,
        )[i].orders@.len() implies index_has(
        b.orders@,
        (#[trigger] b.book_side(OrderSide::Buy)[i].orders@[j]).id,
        OrderSide::Buy,
        b.book_side(OrderSide::Buy)[i].price,
    ) by {
        assert(index_has(
            a.orders@,
            a.book_side(OrderSide::Buy)[i].orders@[j].id,
            OrderSide::Buy,
            a.book_side(OrderSide::Buy)[i].price,
        ));
    }
    assert forall|i: int, j: int|
        0 <= i < b.book_side(OrderSide::Sell).len() && 0 <= j < b.book_side(
            OrderSide::Sell,
        )[i].orders@.len() implies index_has(
        b.orders@,
        (#[trigger] b.book_side(OrderSide::Sell)[i].orders@[j]).id,
        OrderSide::Sell,
        b.book_side(OrderSide::Sell)[i].price,
    ) by {
        assert(index_has(
            a.orders@,
            a.book_side(OrderSide::Sell)[i].orders@[j].id,
            OrderSide::Sell,
            a.book_side(OrderSide::Sell)[i].price,
        ));
    }
    assert(b.level_ids_unique(OrderSide::Buy)) by {
        assert forall|i: int, j1: int, j2: int|
            #![trigger b.book_side(OrderSide::Buy)[i].orders@[j1], b.book_side(OrderSide::Buy)[i].orders@[j2]]
            0 <= i < b.book_side(OrderSide::Buy).len() && 0 <= j1 < b.book_side(
                OrderSide::Buy,
            )[i].orders@.len() && 0 <= j2 < b.book_side(OrderSide::Buy)[i].orders@.len() && j1
                != j2 implies b.book_side(OrderSide::Buy)[i].orders@[j1].id != b.book_side(
            OrderSide::Buy,
        )[i].orders@[j2].id by {
            assert(a.book_side(OrderSide::Buy)[i].orders@[j1].id != a.book_side(
                OrderSide::Buy,
            )[i].orders@[j2].id);
        }
    }
    assert(b.level_ids_unique(OrderSide::Sell)) by {
        assert forall|i: int, j1: int, j2: int|
            #![trigger b.book_side(OrderSide::Sell)[i].orders@[j1], b.book_side(OrderSide::Sell)[i].orders@[j2]]
            0 <= i < b.book_side(OrderSide::Sell).len() && 0 <= j1 < b.book_side(
                OrderSide::Sell,
            )[i].orders@.len() && 0 <= j2 < b.book_side(OrderSide::Sell)[i].orders@.len() && j1
                != j2 implies b.book_side(OrderSide::Sell)[i].orders@[j1].id != b.book_side(
            OrderSide::Sell,
        )[i].orders@[j2].id by {
            assert(a.book_side(OrderSide::Sell)[i].orders@[j1].id != a.book_side(
                OrderSide::Sell,
            )[i].orders@[j2].id);
        }
    }
    assert(side_wf(b.bids@, OrderSide::Buy));
    assert(side_wf(b.asks@, OrderSide::Sell));
}

/// A well-formed book's by-id index lists exactly the ids of the orders
/// resting in some price level: every entry points at a resting order,
/// every resting order has an entry, and no id repeats.
pub proof fn lemma_index_lists_exactly_resting(book: OrderBook)
    requires
        book.wf(),
    ensures
        forall|k: int|
            0 <= k < book.orders@.len() ==> book.resting((#[trigger] book.orders@[k]).id),
        forall|id: u128|
            #[trigger] book.resting(id) ==> exists|k: int|
                0 <= k < book.orders@.len() && (#[trigger] book.orders@[k]).id == id,
        book.index_ids_unique(),
{
    assert forall|k: int|
        0 <= k < book.orders@.len() implies book.resting((#[trigger] book.orders@[k]).id) by {
        lemma_entry_ids_rest(book, k);
    }
    assert forall|id: u128| #[trigger] book.resting(id) implies exists|k: int|
        0 <= k < book.orders@.len() && (#[trigger] book.orders@[k]).id == id by {
        lemma_resting_has_entry(book, id);
    }
}

/// In a well-formed book every level's cached volume equals the sum of its
/// orders' remainders, and every resting order is a partly unfilled limit
/// order whose status reflects whether any of it has traded.
pub proof fn lemma_levels_track_volume(book: OrderBook, side: OrderSide, i: int)
    requires
        book.wf(),
        0 <= i < book.book_side(side).len(),
    ensures
        book.book_side(side)[i].total_volume.raw == crate::price_level::sum_remaining(
            book.book_side(side)[i].orders@,
        ),
        book.book_side(side)[i].orders@.len() > 0,
        forall|j: int|
            0 <= j < book.book_side(side)[i].orders@.len() ==> order_wf_resting(
                #[trigger] book.book_side(side)[i].orders@[j],
                side,
                book.book_side(side)[i].price,
            ),
{
    assert(level_wf(book.book_side(side)[i], side));
}

/// In a well-formed book the best bid is strictly below the best ask
/// whenever both sides are non-empty.
pub proof fn lemma_spread_open(book: OrderBook)
    requires
        book.wf(),
        book.bids@.len() > 0,
        book.asks@.len() > 0,
    ensures
        book.bids@[0].price.raw < book.asks@[0].price.raw,
{
}

/// No balance is ever negative: every user's available and locked amounts
/// of each currency are non-negative unsigned fixed-point values.
pub proof fn lemma_balances_nonnegative(book: OrderBook, user_id: u128, c: Currency)
    ensures
        avail_of(book, user_id, c) >= 0,
        locked_of(book, user_id, c) >= 0,
{
}

/// Under the book invariant at most one resting order carries a given id:
/// both occurrences have index entries, entries are unique, a side's
/// prices are strict, and a level's ids are distinct.
pub proof fn lemma_resting_order_unique(book: OrderBook, o1: Order, o2: Order)
    requires
        book.wf(),
        is_resting_order(book, o1),
        is_resting_order(book, o2),
        o1.id == o2.id,
    ensures
        o1 == o2,
{
    let (s1, i1, j1) = choose|s1: OrderSide, i1: int, j1: int|
        0 <= i1 < book.book_side(s1).len() && 0 <= j1 < book.book_side(s1)[i1].orders@.len() && (
        #[trigger] book.book_side(s1)[i1].orders@[j1]) == o1;
    let (s2, i2, j2) = choose|s2: OrderSide, i2: int, j2: int|
        0 <= i2 < book.book_side(s2).len() && 0 <= j2 < book.book_side(s2)[i2].orders@.len() && (
        #[trigger] book.book_side(s2)[i2].orders@[j2]) == o2;
    assert(index_has(book.orders@, o1.id, s1, book.book_side(s1)[i1].price));
    assert(index_has(book.orders@, o2.id, s2, book.book_side(s2)[i2].price));
    let k1 = choose|k: int|
        0 <= k < book.orders@.len() && book.orders@[k] == (OrderRef {
            id: o1.id,
            side: s1,
            price: book.book_side(s1)[i1].price,
        });
    let k2 = choose|k: int|
        0 <= k < book.orders@.len() && book.orders@[k] == (OrderRef {
            id: o2.id,
            side: s2,
            price: book.book_side(s2)[i2].price,
        });
    if k1 != k2 {
        assert(book.orders@[k1].id != book.orders@[k2].id);
        assert(false);
    }
    assert(s1 == s2);
    assert(book.book_side(s1)[i1].price == book.book_side(s2)[i2].price);
    if i1 != i2 {
        match s1 {
            OrderSide::Buy => {
                assert(book.bids@[i1].price.raw != book.bids@[i2].price.raw);
            },
            OrderSide::Sell => {
                assert(book.asks@[i1].price.raw != book.asks@[i2].price.raw);
            },
        }
        assert(false);
    }
    if j1 != j2 {
        assert(book.book_side(s1)[i1].orders@[j1].id != book.book_side(s1)[i1].orders@[j2].id);
        assert(false);
    }
}

/// A resting id is witnessed by a whole resting order value.
pub proof fn lemma_resting_to_order(book: OrderBook, id: u128)
    requires
        book.resting(id),
    ensures
        exists|o: Order| #[trigger] is_resting_order(book, o) && o.id == id,
        is_resting_order(book, book.resting_order(id)),
        book.resting_order(id).id == id,
{
    if side_has_order_id(book.bids@, id) {
        let i = choose|i: int|
            0 <= i < book.bids@.len() && has_order_id(#[trigger] book.bids@[i].orders@, id);
        let j = choose|j: int|
            0 <= j < book.bids@[i].orders@.len() && book.bids@[i].orders@[j].id == id;
        let o = book.bids@[i].orders@[j];
        assert(book.book_side(OrderSide::Buy)[i].orders@[j] == o);
        assert(is_resting_order(book, o));
    } else {
        let i = choose|i: int|
            0 <= i < book.asks@.len() && has_order_id(#[trigger] book.asks@[i].orders@, id);
        let j = choose|j: int|
            0 <= j < book.asks@[i].orders@.len() && book.asks@[i].orders@[j].id == id;
        let o = book.asks@[i].orders@[j];
        assert(book.book_side(OrderSide::Sell)[i].orders@[j] == o);
        assert(is_resting_order(book, o));
    }
}

} // verus!
