use vstd::prelude::*;

use crate::balance::Currency;
use crate::errors::BookError;
use crate::order::OrderSide;
use crate::orderbook::{
    avail_of, has_user, locked_of, same_balances, self_unchanged_but_balances, OrderBook,
};
use crate::price::Price;
use crate::quantity::{Quantity, QTY_SCALE};
use crate::trade::Trade;

verus! {

/// The quote-currency value of `qty_raw` units at `price_raw`, in USD
/// fixed-point units: the product rescaled by the quantity scale, rounded
/// down.
pub open spec fn spec_usd_value(price_raw: u64, qty_raw: u64) -> int {
    (price_raw * qty_raw) / (QTY_SCALE as int)
}

/// Computes `spec_usd_value` exactly; the 128-bit product cannot overflow.
pub fn usd_value(price: Price, qty: Quantity) -> (r: u128)
    ensures
        r == spec_usd_value(price.raw, qty.raw),
{
    proof {
        assert((price.raw as int) * (qty.raw as int) <= (u64::MAX as int) * (u64::MAX as int))
            by (nonlinear_arith)
            requires
                price.raw <= u64::MAX,
                qty.raw <= u64::MAX,
        ;
    }
    (price.raw as u128) * (qty.raw as u128) / (QTY_SCALE as u128)
}

/// Rounding never lets a released reservation fall short of the payment it
/// funds: what a buy reservation at `p_hi` frees when `f` of `r` remaining
/// units fill covers the amount owed at any price `p_lo <= p_hi`.
pub proof fn lemma_release_covers_payment(p_hi: u64, p_lo: u64, r: u64, f: u64)
    requires
        p_lo <= p_hi,
        f <= r,
    ensures
        spec_usd_value(p_hi, r) - spec_usd_value(p_hi, (r - f) as u64) >= spec_usd_value(p_lo, f),
        spec_usd_value(p_hi, r) - spec_usd_value(p_hi, (r - f) as u64) >= 0,
{
    let s = QTY_SCALE as int;
    let a = (p_hi as int) * ((r - f) as int);
    let b = (p_hi as int) * (f as int);
    let c = (p_lo as int) * (f as int);
    assert(a >= 0 && b >= 0 && c <= b && a + b == (p_hi as int) * (r as int))
        by (nonlinear_arith)
        requires
            p_lo <= p_hi,
            f <= r,
            a == (p_hi as int) * ((r - f) as int),
            b == (p_hi as int) * (f as int),
            c == (p_lo as int) * (f as int),
    ;
    vstd::arithmetic::div_mod::lemma_fundamental_div_mod(a, s);
    vstd::arithmetic::div_mod::lemma_fundamental_div_mod(b, s);
    vstd::arithmetic::div_mod::lemma_mod_bound(a, s);
    vstd::arithmetic::div_mod::lemma_mod_bound(b, s);
    let qa = a / s;
    let qb = b / s;
    assert(s * (qa + qb) <= a + b) by (nonlinear_arith)
        requires
            a == s * qa + a % s,
            b == s * qb + b % s,
            a % s >= 0,
            b % s >= 0,
    ;
    vstd::arithmetic::div_mod::lemma_div_is_ordered(s * (qa + qb), a + b, s);
    vstd::arithmetic::div_mod::lemma_div_multiples_vanish(qa + qb, s);
    vstd::arithmetic::div_mod::lemma_div_is_ordered(c, b, s);
    vstd::arithmetic::div_mod::lemma_div_pos_is_pos(c, s);
}

/// How the incoming order's side of a trade is funded: a limit taker has a
/// reservation held at its limit price with this much quantity still
/// unfilled; a market taker pays from its free balance.
pub enum TakerFunding {
    Reserved { limit: Price, rem_before: Quantity },
    Unreserved,
}

/// What the taker's funding releases toward a fill of `f`: a reservation
/// frees the difference of its value before and after the fill at the
/// reserved limit price; unreserved funding pays the trade value directly.
pub open spec fn spec_release(funding: TakerFunding, price: Price, f: Quantity) -> int {
    match funding {
        TakerFunding::Reserved { limit, rem_before } => spec_usd_value(limit.raw, rem_before.raw)
            - spec_usd_value(limit.raw, (rem_before.raw - f.raw) as u64),
        TakerFunding::Unreserved => spec_usd_value(price.raw, f.raw),
    }
}

/// What a resting buy maker's reservation at its own price releases toward
/// a fill of `f` out of `maker_rem` remaining units.
pub open spec fn spec_maker_release(price: Price, f: Quantity, maker_rem: Quantity) -> int {
    spec_usd_value(price.raw, maker_rem.raw) - spec_usd_value(
        price.raw,
        (maker_rem.raw - f.raw) as u64,
    )
}

/// The exact funding checks a settlement makes: both parties exist, and
/// each debited bucket covers the amount its leg draws. A settlement
/// succeeds if and only if this holds of the balances it starts from.
pub open spec fn spec_settle_feasible(
    book: OrderBook,
    taker: u128,
    maker: u128,
    price: Price,
    f: Quantity,
    taker_side: OrderSide,
    funding: TakerFunding,
    maker_rem: Quantity,
) -> bool {
    match taker_side {
        OrderSide::Buy => {
            &&& has_user(book.user_balances@, taker)
            &&& match funding {
                TakerFunding::Reserved { .. } => spec_release(funding, price, f) <= locked_of(
                    book,
                    taker,
                    Currency::Usd,
                ),
                TakerFunding::Unreserved => spec_release(funding, price, f) <= avail_of(
                    book,
                    taker,
                    Currency::Usd,
                ),
            }
            &&& has_user(book.user_balances@, maker)
            &&& f.raw <= locked_of(book, maker, Currency::Btc)
        },
        OrderSide::Sell => {
            &&& has_user(book.user_balances@, maker)
            &&& spec_maker_release(price, f, maker_rem) <= locked_of(book, maker, Currency::Usd)
            &&& has_user(book.user_balances@, taker)
            &&& match funding {
                TakerFunding::Reserved { .. } => f.raw <= locked_of(book, taker, Currency::Btc),
                TakerFunding::Unreserved => f.raw <= avail_of(book, taker, Currency::Btc),
            }
        },
    }
}

impl OrderBook {
    /// Settle one trade atomically: four balance legs between taker and
    /// maker, funded from the locked buckets their reservations hold (or
    /// the taker's free balance for a market order). On any shortfall the
    /// trade settles not at all: balances are exactly as before and an
    /// error reports the failing leg. A successful settlement moves value
    /// between users only: both venue totals are unchanged.
    pub fn execute_trade_settlement(
        &mut self,
        trade: &Trade,
        taker_side: OrderSide,
        taker_funding: &TakerFunding,
        maker_rem_before: Quantity,
    ) -> (r: Result<(), BookError>)
        requires
            old(self).balances_wf(),
            trade.quantity.raw > 0,
            trade.quantity.raw <= maker_rem_before.raw,
            match *taker_funding {
                TakerFunding::Reserved { limit, rem_before } => trade.quantity.raw
                    <= rem_before.raw && (taker_side == OrderSide::Buy ==> trade.price.raw
                    <= limit.raw),
                TakerFunding::Unreserved => true,
            },
        ensures
            self_unchanged_but_balances(*old(self), *final(self)),
            final(self).balances_wf(),
            r is Err ==> same_balances(*old(self), *final(self)),
            r is Ok ==> final(self).total_usd == old(self).total_usd && final(self).total_btc
                == old(self).total_btc,
            r is Ok <==> spec_settle_feasible(
                *old(self),
                trade.taker_user_id,
                trade.maker_user_id,
                trade.price,
                trade.quantity,
                taker_side,
                *taker_funding,
                maker_rem_before,
            ),
            taker_side == OrderSide::Buy && r is Ok ==> ({
                let payment = spec_usd_value(trade.price.raw, trade.quantity.raw);
                let release = spec_release(*taker_funding, trade.price, trade.quantity);
                forall|u: u128|
                    #[trigger] has_user(old(self).user_balances@, u) ==> {
                        &&& locked_of(*final(self), u, Currency::Usd) == locked_of(
                            *old(self),
                            u,
                            Currency::Usd,
                        ) - (if u == trade.taker_user_id && ((*taker_funding) matches
                            TakerFunding::Reserved { .. }) {
                            release
                        } else {
                            0
                        })
                        &&& avail_of(*final(self), u, Currency::Usd) == avail_of(
                            *old(self),
                            u,
                            Currency::Usd,
                        ) - (if u == trade.taker_user_id && ((*taker_funding) matches
                            TakerFunding::Unreserved) {
                            release
                        } else {
                            0
                        }) + (if u == trade.maker_user_id {
                            payment
                        } else {
                            0
                        }) + (if u == trade.taker_user_id {
                            release - payment
                        } else {
                            0
                        })
                        &&& locked_of(*final(self), u, Currency::Btc) == locked_of(
                            *old(self),
                            u,
                            Currency::Btc,
                        ) - (if u == trade.maker_user_id {
                            trade.quantity.raw as int
                        } else {
                            0
                        })
                        &&& avail_of(*final(self), u, Currency::Btc) == avail_of(
                            *old(self),
                            u,
                            Currency::Btc,
                        ) + (if u == trade.taker_user_id {
                            trade.quantity.raw as int
                        } else {
                            0
                        })
                    }
            }),
            taker_side == OrderSide::Sell && r is Ok ==> ({
                let payment = spec_usd_value(trade.price.raw, trade.quantity.raw);
                let m_release = spec_maker_release(trade.price, trade.quantity, maker_rem_before);
                forall|u: u128|
                    #[trigger] has_user(old(self).user_balances@, u) ==> {
                        &&& locked_of(*final(self), u, Currency::Usd) == locked_of(
                            *old(self),
                            u,
                            Currency::Usd,
                        ) - (if u == trade.maker_user_id {
                            m_release
                        } else {
                            0
                        })
                        &&& avail_of(*final(self), u, Currency::Usd) == avail_of(
                            *old(self),
                            u,
                            Currency::Usd,
                        ) + (if u == trade.taker_user_id {
                            payment
                        } else {
                            0
                        }) + (if u == trade.maker_user_id {
                            m_release - payment
                        } else {
                            0
                        })
                        &&& locked_of(*final(self), u, Currency::Btc) == locked_of(
                            *old(self),
                            u,
                            Currency::Btc,
                        ) - (if u == trade.taker_user_id && ((*taker_funding) matches
                            TakerFunding::Reserved { .. }) {
                            trade.quantity.raw as int
                        } else {
                            0
                        })
                        &&& avail_of(*final(self), u, Currency::Btc) == avail_of(
                            *old(self),
                            u,
                            Currency::Btc,
                        ) - (if u == trade.taker_user_id && ((*taker_funding) matches
                            TakerFunding::Unreserved) {
                            trade.quantity.raw as int
                        } else {
                            0
                        }) + (if u == trade.maker_user_id {
                            trade.quantity.raw as int
                        } else {
                            0
                        })
                    }
            }),
            forall|u: u128|
                u != trade.taker_user_id && u != trade.maker_user_id && has_user(
                    old(self).user_balances@,
                    u,
                ) ==> crate::orderbook::balance_of(final(self).user_balances@, u)
                    == crate::orderbook::balance_of(old(self).user_balances@, u),
            forall|u: u128|
                #[trigger] has_user(final(self).user_balances@, u) == has_user(
                    old(self).user_balances@,
                    u,
                ),
    {
        let f = trade.quantity;
        let price = trade.price;
        let taker = trade.taker_user_id;
        let maker = trade.maker_user_id;
        let payment: u128 = usd_value(price, f);

        match taker_side {
            OrderSide::Buy => {
                // The taker pays USD; work out what its funding releases.
                let release: u128 = match taker_funding {
                    TakerFunding::Reserved { limit, rem_before } => {
                        proof {
                            lemma_release_covers_payment(
                                limit.raw,
                                price.raw,
                                rem_before.raw,
                                f.raw,
                            );
                        }
                        usd_value(*limit, *rem_before) - usd_value(*limit, rem_before.sub(f))
                    },
                    TakerFunding::Unreserved => payment,
                };
                // Feasibility checks before any leg moves.
                let taker_bal: crate::balance::UserBalance = match self.get_user_balance(taker) {
                    Some(b) => *b,
                    None => {
                        return Err(BookError::InsufficientBalance);
                    },
                };
                proof {
                    let i = choose|i: int|
                        0 <= i < self.user_balances@.len() && self.user_balances@[i] == taker_bal;
                    crate::orderbook::lemma_user_index_agrees(self.user_balances@, taker, i);
                }
                let taker_funds: u128 = match taker_funding {
                    TakerFunding::Reserved { .. } => taker_bal.get_locked(Currency::Usd) as u128,
                    TakerFunding::Unreserved => taker_bal.get_balance(Currency::Usd) as u128,
                };
                if release > taker_funds {
                    return Err(BookError::InsufficientBalance);
                }
                let maker_bal: crate::balance::UserBalance = match self.get_user_balance(maker) {
                    Some(b) => *b,
                    None => {
                        return Err(BookError::InsufficientBalance);
                    },
                };
                proof {
                    let i = choose|i: int|
                        0 <= i < self.user_balances@.len() && self.user_balances@[i] == maker_bal;
                    crate::orderbook::lemma_user_index_agrees(self.user_balances@, maker, i);
                }
                if f.raw() > maker_bal.get_locked(Currency::Btc) {
                    return Err(BookError::InsufficientBalance);
                }
                let release64: u64 = release as u64;
                let payment64: u64 = payment as u64;
                let refund64: u64 = release64 - payment64;
                let ghost s0: OrderBook = *self;

                // USD legs: the released funds pay the maker, the rounding
                // difference returns to the taker.
                match taker_funding {
                    TakerFunding::Reserved { .. } => {
                        let d1 = self.debit_locked(taker, Currency::Usd, release64);
                        proof {
                            assert(d1 is Ok);
                        }
                    },
                    TakerFunding::Unreserved => {
                        let d1 = self.deduct_balance(taker, Currency::Usd, release64);
                        proof {
                            assert(d1 is Ok);
                        }
                    },
                }
                let ghost s1: OrderBook = *self;
                let c1 = self.credit_balance(maker, Currency::Usd, payment64);
                proof {
                    assert(c1 is Ok);
                }
                let ghost s2: OrderBook = *self;
                let c2 = self.credit_balance(taker, Currency::Usd, refund64);
                proof {
                    assert(c2 is Ok);
                }
                let ghost s3: OrderBook = *self;
                // BTC leg: the maker's reservation delivers the coins.
                let d2 = self.debit_locked(maker, Currency::Btc, f.raw());
                proof {
                    assert(d2 is Ok);
                }
                let ghost s4: OrderBook = *self;
                let c3 = self.credit_balance(taker, Currency::Btc, f.raw());
                proof {
                    assert(c3 is Ok);
                }
                proof {
                    let taker_reserved = (*taker_funding) matches TakerFunding::Reserved { .. };
                    assert forall|u: u128| #[trigger] has_user(s0.user_balances@, u) implies {
                        &&& locked_of(*self, u, Currency::Usd) == locked_of(s0, u, Currency::Usd)
                            - (if u == taker && taker_reserved {
                                release64 as int
                            } else {
                                0
                            })
                        &&& avail_of(*self, u, Currency::Usd) == avail_of(s0, u, Currency::Usd) - (
                        if u == taker && !taker_reserved {
                            release64 as int
                        } else {
                            0
                        }) + (if u == maker {
                            payment64 as int
                        } else {
                            0
                        }) + (if u == taker {
                            refund64 as int
                        } else {
                            0
                        })
                        &&& locked_of(*self, u, Currency::Btc) == locked_of(s0, u, Currency::Btc)
                            - (if u == maker {
                                f.raw as int
                            } else {
                                0
                            })
                        &&& avail_of(*self, u, Currency::Btc) == avail_of(s0, u, Currency::Btc) + (
                        if u == taker {
                            f.raw as int
                        } else {
                            0
                        })
                    } by {
                        if u == taker {
                            assert(has_user(s1.user_balances@, u));
                            assert(has_user(s2.user_balances@, u));
                            assert(has_user(s3.user_balances@, u));
                            assert(has_user(s4.user_balances@, u));
                        } else if u == maker {
                            assert(has_user(s1.user_balances@, u));
                            assert(has_user(s2.user_balances@, u));
                            assert(has_user(s3.user_balances@, u));
                            assert(has_user(s4.user_balances@, u));
                        } else {
                            assert(crate::orderbook::balance_of(s1.user_balances@, u)
                                == crate::orderbook::balance_of(s0.user_balances@, u));
                            assert(crate::orderbook::balance_of(s2.user_balances@, u)
                                == crate::orderbook::balance_of(s1.user_balances@, u));
                            assert(crate::orderbook::balance_of(s3.user_balances@, u)
                                == crate::orderbook::balance_of(s2.user_balances@, u));
                            assert(crate::orderbook::balance_of(s4.user_balances@, u)
                                == crate::orderbook::balance_of(s3.user_balances@, u));
                            assert(crate::orderbook::balance_of(self.user_balances@, u)
                                == crate::orderbook::balance_of(s4.user_balances@, u));
                            assert(has_user(s1.user_balances@, u));
                            assert(has_user(s2.user_balances@, u));
                            assert(has_user(s3.user_balances@, u));
                            assert(has_user(s4.user_balances@, u));
                        }
                    }
                }
                Ok(())
            },
            OrderSide::Sell => {
                // The maker is a resting buy: its reservation at its own
                // price funds the USD side.
                proof {
                    lemma_release_covers_payment(price.raw, price.raw, maker_rem_before.raw, f.raw);
                }
                let release: u128 = usd_value(price, maker_rem_before) - usd_value(
                    price,
                    maker_rem_before.sub(f),
                );
                let maker_bal: crate::balance::UserBalance = match self.get_user_balance(maker) {
                    Some(b) => *b,
                    None => {
                        return Err(BookError::InsufficientBalance);
                    },
                };
                proof {
                    let i = choose|i: int|
                        0 <= i < self.user_balances@.len() && self.user_balances@[i] == maker_bal;
                    crate::orderbook::lemma_user_index_agrees(self.user_balances@, maker, i);
                }
                if release > maker_bal.get_locked(Currency::Usd) as u128 {
                    return Err(BookError::InsufficientBalance);
                }
                let taker_bal: crate::balance::UserBalance = match self.get_user_balance(taker) {
                    Some(b) => *b,
                    None => {
                        return Err(BookError::InsufficientBalance);
                    },
                };
                proof {
                    let i = choose|i: int|
                        0 <= i < self.user_balances@.len() && self.user_balances@[i] == taker_bal;
                    crate::orderbook::lemma_user_index_agrees(self.user_balances@, taker, i);
                }
                let taker_btc: u64 = match taker_funding {
                    TakerFunding::Reserved { .. } => taker_bal.get_locked(Currency::Btc),
                    TakerFunding::Unreserved => taker_bal.get_balance(Currency::Btc),
                };
                if f.raw() > taker_btc {
                    return Err(BookError::InsufficientBalance);
                }
                let release64: u64 = release as u64;
                let payment64: u64 = payment as u64;
                let refund64: u64 = release64 - payment64;
                let ghost s0: OrderBook = *self;

                // BTC leg: the taker delivers the coins to the maker.
                match taker_funding {
                    TakerFunding::Reserved { .. } => {
                        let d1 = self.debit_locked(taker, Currency::Btc, f.raw());
                        proof {
                            assert(d1 is Ok);
                        }
                    },
                    TakerFunding::Unreserved => {
                        let d1 = self.deduct_balance(taker, Currency::Btc, f.raw());
                        proof {
                            assert(d1 is Ok);
                        }
                    },
                }
                let ghost s1: OrderBook = *self;
                let c1 = self.credit_balance(maker, Currency::Btc, f.raw());
                proof {
                    assert(c1 is Ok);
                }
                let ghost s2: OrderBook = *self;
                // USD legs: the maker's released reservation pays the
                // taker; the rounding difference returns to the maker.
                let d2 = self.debit_locked(maker, Currency::Usd, release64);
                proof {
                    assert(d2 is Ok);
                }
                let ghost s3: OrderBook = *self;
                let c2 = self.credit_balance(taker, Currency::Usd, payment64);
                proof {
                    assert(c2 is Ok);
                }
                let ghost s4: OrderBook = *self;
                let c3 = self.credit_balance(maker, Currency::Usd, refund64);
                proof {
                    assert(c3 is Ok);
                }
                proof {
                    let taker_reserved = (*taker_funding) matches TakerFunding::Reserved { .. };
                    assert forall|u: u128| #[trigger] has_user(s0.user_balances@, u) implies {
                        &&& locked_of(*self, u, Currency::Usd) == locked_of(s0, u, Currency::Usd)
                            - (if u == maker {
                                release64 as int
                            } else {
                                0
                            })
                        &&& avail_of(*self, u, Currency::Usd) == avail_of(s0, u, Currency::Usd) + (
                        if u == taker {
                            payment64 as int
                        } else {
                            0
                        }) + (if u == maker {
                            refund64 as int
                        } else {
                            0
                        })
                        &&& locked_of(*self, u, Currency::Btc) == locked_of(s0, u, Currency::Btc)
                            - (if u == taker && taker_reserved {
                                f.raw as int
                            } else {
                                0
                            })
                        &&& avail_of(*self, u, Currency::Btc) == avail_of(s0, u, Currency::Btc) - (
                        if u == taker && !taker_reserved {
                            f.raw as int
                        } else {
                            0
                        }) + (if u == maker {
                            f.raw as int
                        } else {
                            0
                        })
                    } by {
                        if u == taker {
                            assert(has_user(s1.user_balances@, u));
                            assert(has_user(s2.user_balances@, u));
                            assert(has_user(s3.user_balances@, u));
                            assert(has_user(s4.user_balances@, u));
                        } else if u == maker {
                            assert(has_user(s1.user_balances@, u));
                            assert(has_user(s2.user_balances@, u));
                            assert(has_user(s3.user_balances@, u));
                            assert(has_user(s4.user_balances@, u));
                        } else {
                            assert(crate::orderbook::balance_of(s1.user_balances@, u)
                                == crate::orderbook::balance_of(s0.user_balances@, u));
                            assert(crate::orderbook::balance_of(s2.user_balances@, u)
                                == crate::orderbook::balance_of(s1.user_balances@, u));
                            assert(crate::orderbook::balance_of(s3.user_balances@, u)
                                == crate::orderbook::balance_of(s2.user_balances@, u));
                            assert(crate::orderbook::balance_of(s4.user_balances@, u)
                                == crate::orderbook::balance_of(s3.user_balances@, u));
                            assert(crate::orderbook::balance_of(self.user_balances@, u)
                                == crate::orderbook::balance_of(s4.user_balances@, u));
                            assert(has_user(s1.user_balances@, u));
                            assert(has_user(s2.user_balances@, u));
                            assert(has_user(s3.user_balances@, u));
                            assert(has_user(s4.user_balances@, u));
                        }
                    }
                }
                Ok(())
            },
        }
    }
}

} // verus!
