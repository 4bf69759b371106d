use vstd::prelude::*;

use crate::balance::Currency;
use crate::errors::BookError;
use crate::order::{Order, OrderSide, OrderStatus, OrderType};
use crate::orderbook::{
    lemma_cancel_spread, lemma_remove_order_effect, lemma_resting_has_entry, side_after_remove,
    OrderBook,
};
use crate::orderbook::has_user;
use crate::price_level::has_order_id;
use crate::price_level::PriceLevel;
use crate::price_level::{level_wf, lemma_sum_remaining_nonneg, lemma_sum_remaining_update};
use crate::price::Price;
use crate::quantity::Quantity;
use crate::settlement::{usd_value, TakerFunding};
use crate::trade::Trade;

verus! {

/// Sum of the quantities of a sequence of trades.
pub open spec fn sum_trade_qty(s: Seq<Trade>) -> int
    decreases s.len(),
{
    if s.len() == 0 {
        0
    } else {
        s[0].quantity.raw + sum_trade_qty(s.skip(1))
    }
}

pub proof fn lemma_sum_trade_qty_push(s: Seq<Trade>, t: Trade)
    ensures
        sum_trade_qty(s.push(t)) == sum_trade_qty(s) + t.quantity.raw,
    decreases s.len(),
{
    if s.len() == 0 {
        assert(s.push(t)[0] == t);
        assert(s.push(t).skip(1) =~= Seq::<Trade>::empty());
        assert(sum_trade_qty(s.push(t).skip(1)) == 0);
    } else {
        assert(s.push(t)[0] == s[0]);
        assert(s.push(t).skip(1) =~= s.skip(1).push(t));
        lemma_sum_trade_qty_push(s.skip(1), t);
        assert(sum_trade_qty(s.push(t)) == s[0].quantity.raw + sum_trade_qty(s.skip(1).push(t)));
    }
}

/// Whether a taker crosses the best opposite price: a buy lifts any ask at
/// or below its limit, a sell hits any bid at or above; a market taker
/// (no limit) always crosses.
pub open spec fn spec_crosses(taker_side: OrderSide, limit: Option<Price>, best: Price) -> bool {
    match limit {
        None => true,
        Some(l) => match taker_side {
            OrderSide::Buy => best.raw <= l.raw,
            OrderSide::Sell => best.raw >= l.raw,
        },
    }
}

/// One side of the book as a value: each level reduced to its price and
/// its order queue.
pub open spec fn side_model(levels: Seq<PriceLevel>) -> Seq<(Price, Seq<Order>)> {
    Seq::new(levels.len(), |i: int| (levels[i].price, levels[i].orders@))
}

/// The trades of a matching run as values: maker order id, maker user id,
/// execution price, and quantity — everything except the random trade id
/// and timestamp.
pub open spec fn trade_models(trades: Seq<Trade>) -> Seq<(u128, u128, Price, Quantity)> {
    Seq::new(trades.len(), |i: int| (trades[i].maker_order_id, trades[i].maker_user_id, trades[i].price, trades[i].quantity))
}

/// Helper for termination: the length of the best level's queue.
pub open spec fn head_len(levels: Seq<(Price, Seq<Order>)>) -> int {
    if levels.len() > 0 {
        levels[0].1.len() as int
    } else {
        0
    }
}

/// What price-time priority dictates, as a value: walk the opposite side
/// best level first, fill its oldest order first at the level's own price,
/// and stop when the taker is done, the side is empty, or the best level
/// no longer crosses. Returns the fills in order, the side as it remains,
/// and the taker's unfilled remainder.
pub open spec fn spec_match(
    levels: Seq<(Price, Seq<Order>)>,
    rem: int,
    taker_side: OrderSide,
    limit: Option<Price>,
) -> (Seq<(u128, u128, Price, Quantity, Quantity)>, Seq<(Price, Seq<Order>)>, int)
    decreases levels.len(), head_len(levels),
{
    if rem <= 0 || levels.len() == 0 || !spec_crosses(taker_side, limit, levels[0].0)
        || levels[0].1.len() == 0 {
        (Seq::empty(), levels, rem)
    } else {
        let head = levels[0].1[0];
        let mrem = head.remaining_quantity.raw as int;
        if rem < mrem {
            let head2 = Order {
                remaining_quantity: Quantity { raw: (mrem - rem) as u64 },
                status: OrderStatus::PartiallyFilled,
                ..head
            };
            (
                seq![
                    (
                        head.id,
                        head.user_id,
                        levels[0].0,
                        Quantity { raw: rem as u64 },
                        head.remaining_quantity,
                    ),
                ],
                levels.update(0, (levels[0].0, levels[0].1.update(0, head2))),
                0,
            )
        } else {
            let rest = if levels[0].1.len() == 1 {
                levels.subrange(1, levels.len() as int)
            } else {
                levels.update(
                    0,
                    (levels[0].0, levels[0].1.subrange(1, levels[0].1.len() as int)),
                )
            };
            let fill = (
                head.id,
                head.user_id,
                levels[0].0,
                head.remaining_quantity,
                head.remaining_quantity,
            );
            let tail = spec_match(rest, rem - mrem, taker_side, limit);
            (seq![fill] + tail.0, tail.1, tail.2)
        }
    }
}

/// A fill list reduced to the data a trade record carries: the maker's
/// pre-fill remainder dropped.
pub open spec fn fill_trades(
    fills: Seq<(u128, u128, Price, Quantity, Quantity)>,
) -> Seq<(u128, u128, Price, Quantity)> {
    Seq::new(fills.len(), |i: int| (fills[i].0, fills[i].1, fills[i].2, fills[i].3))
}

/// Sum of the quantities of a fill list.
pub open spec fn sum_fill_qty(fills: Seq<(u128, u128, Price, Quantity, Quantity)>) -> int
    decreases fills.len(),
{
    if fills.len() == 0 {
        0
    } else {
        fills[0].3.raw + sum_fill_qty(fills.skip(1))
    }
}

/// Sum of the trade values (maker price times quantity) of a fill list.
pub open spec fn sum_payments(fills: Seq<(u128, u128, Price, Quantity, Quantity)>) -> int
    decreases fills.len(),
{
    if fills.len() == 0 {
        0
    } else {
        crate::settlement::spec_usd_value(fills[0].2.raw, fills[0].3.raw) + sum_payments(
            fills.skip(1),
        )
    }
}

/// Sum of the quantities this maker user supplied across a fill list.
pub open spec fn sum_qty_to(fills: Seq<(u128, u128, Price, Quantity, Quantity)>, u: u128) -> int
    decreases fills.len(),
{
    if fills.len() == 0 {
        0
    } else {
        (if fills[0].1 == u {
            fills[0].3.raw as int
        } else {
            0
        }) + sum_qty_to(fills.skip(1), u)
    }
}

/// Sum of the trade values this maker user was owed across a fill list.
pub open spec fn sum_payments_to(
    fills: Seq<(u128, u128, Price, Quantity, Quantity)>,
    u: u128,
) -> int
    decreases fills.len(),
{
    if fills.len() == 0 {
        0
    } else {
        (if fills[0].1 == u {
            crate::settlement::spec_usd_value(fills[0].2.raw, fills[0].3.raw)
        } else {
            0
        }) + sum_payments_to(fills.skip(1), u)
    }
}

/// Sum of what this maker user's buy reservations released across a fill
/// list: per fill, the reservation value before the fill minus after.
pub open spec fn sum_releases_to(
    fills: Seq<(u128, u128, Price, Quantity, Quantity)>,
    u: u128,
) -> int
    decreases fills.len(),
{
    if fills.len() == 0 {
        0
    } else {
        (if fills[0].1 == u {
            crate::settlement::spec_usd_value(fills[0].2.raw, fills[0].4.raw)
                - crate::settlement::spec_usd_value(
                fills[0].2.raw,
                (fills[0].4.raw - fills[0].3.raw) as u64,
            )
        } else {
            0
        }) + sum_releases_to(fills.skip(1), u)
    }
}

/// Push lemmas for the fill sums: appending one fill adds its own terms.
pub proof fn lemma_fill_sums_push(
    fills: Seq<(u128, u128, Price, Quantity, Quantity)>,
    f: (u128, u128, Price, Quantity, Quantity),
    u: u128,
)
    ensures
        sum_fill_qty(fills.push(f)) == sum_fill_qty(fills) + f.3.raw,
        sum_payments(fills.push(f)) == sum_payments(fills) + crate::settlement::spec_usd_value(
            f.2.raw,
            f.3.raw,
        ),
        sum_qty_to(fills.push(f), u) == sum_qty_to(fills, u) + (if f.1 == u {
            f.3.raw as int
        } else {
            0
        }),
        sum_payments_to(fills.push(f), u) == sum_payments_to(fills, u) + (if f.1 == u {
            crate::settlement::spec_usd_value(f.2.raw, f.3.raw)
        } else {
            0
        }),
        sum_releases_to(fills.push(f), u) == sum_releases_to(fills, u) + (if f.1 == u {
            crate::settlement::spec_usd_value(f.2.raw, f.4.raw)
                - crate::settlement::spec_usd_value(f.2.raw, (f.4.raw - f.3.raw) as u64)
        } else {
            0
        }),
    decreases fills.len(),
{
    let fp = fills.push(f);
    if fills.len() == 0 {
        assert(fp[0] == f);
        assert(fp.skip(1) =~= Seq::<(u128, u128, Price, Quantity, Quantity)>::empty());
        assert(sum_fill_qty(fp) == fp[0].3.raw + sum_fill_qty(fp.skip(1)));
        assert(sum_fill_qty(fp.skip(1)) == 0);
        assert(sum_payments(fp) == crate::settlement::spec_usd_value(fp[0].2.raw, fp[0].3.raw)
            + sum_payments(fp.skip(1)));
        assert(sum_payments(fp.skip(1)) == 0);
        assert(sum_qty_to(fp.skip(1), u) == 0);
        assert(sum_payments_to(fp.skip(1), u) == 0);
        assert(sum_releases_to(fp.skip(1), u) == 0);
    } else {
        assert(fp[0] == fills[0]);
        assert(fp.skip(1) =~= fills.skip(1).push(f));
        lemma_fill_sums_push(fills.skip(1), f, u);
        assert(sum_fill_qty(fp) == fp[0].3.raw + sum_fill_qty(fills.skip(1).push(f)));
        assert(sum_payments(fp) == crate::settlement::spec_usd_value(fp[0].2.raw, fp[0].3.raw)
            + sum_payments(fills.skip(1).push(f)));
        assert(sum_qty_to(fp, u) == (if fp[0].1 == u {
            fp[0].3.raw as int
        } else {
            0
        }) + sum_qty_to(fills.skip(1).push(f), u));
        assert(sum_payments_to(fp, u) == (if fp[0].1 == u {
            crate::settlement::spec_usd_value(fp[0].2.raw, fp[0].3.raw)
        } else {
            0
        }) + sum_payments_to(fills.skip(1).push(f), u));
        assert(sum_releases_to(fp, u) == (if fp[0].1 == u {
            crate::settlement::spec_usd_value(fp[0].2.raw, fp[0].4.raw)
                - crate::settlement::spec_usd_value(fp[0].2.raw, (fp[0].4.raw - fp[0].3.raw) as u64)
        } else {
            0
        }) + sum_releases_to(fills.skip(1).push(f), u));
    }
}

/// How a matching run moves every user's balances, as a function of the
/// fills it made: the taker's funding bucket pays out fill by fill (a
/// reservation telescopes to its value at the original remainder minus its
/// value at the final one), each maker's reservation releases its own
/// fills' value, payments and coins cross, and rounding differences return
/// to whoever reserved.
pub open spec fn spec_fills_deltas(
    a: OrderBook,
    b: OrderBook,
    t: u128,
    taker_side: OrderSide,
    limit: Option<Price>,
    r0: Quantity,
    r1: Quantity,
    fills: Seq<(u128, u128, Price, Quantity, Quantity)>,
) -> bool {
    forall|u: u128|
        #[trigger] has_user(a.user_balances@, u) ==> {
            let filled = r0.raw - r1.raw;
            match taker_side {
                OrderSide::Buy => {
                    let t_lock_rel = match limit {
                        Some(l) => crate::settlement::spec_usd_value(l.raw, r0.raw)
                            - crate::settlement::spec_usd_value(l.raw, r1.raw),
                        None => 0,
                    };
                    let t_avail_pay = match limit {
                        Some(_) => 0int,
                        None => sum_payments(fills),
                    };
                    let t_refund = match limit {
                        Some(_) => t_lock_rel - sum_payments(fills),
                        None => 0int,
                    };
                    &&& crate::orderbook::locked_of(b, u, Currency::Usd)
                        == crate::orderbook::locked_of(a, u, Currency::Usd) - (if u == t {
                        t_lock_rel
                    } else {
                        0
                    })
                    &&& crate::orderbook::avail_of(b, u, Currency::Usd)
                        == crate::orderbook::avail_of(a, u, Currency::Usd) - (if u == t {
                        t_avail_pay
                    } else {
                        0
                    }) + sum_payments_to(fills, u) + (if u == t {
                        t_refund
                    } else {
                        0
                    })
                    &&& crate::orderbook::locked_of(b, u, Currency::Btc)
                        == crate::orderbook::locked_of(a, u, Currency::Btc) - sum_qty_to(fills, u)
                    &&& crate::orderbook::avail_of(b, u, Currency::Btc)
                        == crate::orderbook::avail_of(a, u, Currency::Btc) + (if u == t {
                        filled as int
                    } else {
                        0
                    })
                },
                OrderSide::Sell => {
                    &&& crate::orderbook::locked_of(b, u, Currency::Btc)
                        == crate::orderbook::locked_of(a, u, Currency::Btc) - (if u == t
                        && limit is Some {
                        filled as int
                    } else {
                        0
                    })
                    &&& crate::orderbook::avail_of(b, u, Currency::Btc)
                        == crate::orderbook::avail_of(a, u, Currency::Btc) - (if u == t
                        && limit is None {
                        filled as int
                    } else {
                        0
                    }) + sum_qty_to(fills, u)
                    &&& crate::orderbook::locked_of(b, u, Currency::Usd)
                        == crate::orderbook::locked_of(a, u, Currency::Usd) - sum_releases_to(
                        fills,
                        u,
                    )
                    &&& crate::orderbook::avail_of(b, u, Currency::Usd)
                        == crate::orderbook::avail_of(a, u, Currency::Usd) + (if u == t {
                        sum_payments(fills)
                    } else {
                        0
                    }) + sum_releases_to(fills, u) - sum_payments_to(fills, u)
                },
            }
        }
}

/// The smaller of two quantities: what one fill consumes.
pub open spec fn spec_min_qty(a: Quantity, b: Quantity) -> Quantity {
    if a.raw <= b.raw {
        a
    } else {
        b
    }
}

/// The currency a limit order's reservation is held in.
pub open spec fn refund_currency(side: OrderSide) -> Currency {
    match side {
        OrderSide::Buy => Currency::Usd,
        OrderSide::Sell => Currency::Btc,
    }
}

/// The value a limit order's reservation holds for `rem` unfilled units:
/// their value at the order's own limit price for a buy, the units
/// themselves for a sell. This is what placing reserves and what a
/// cancelled or unrestable remainder is owed back.
pub open spec fn spec_refund_owed(side: OrderSide, price: Price, rem: Quantity) -> int {
    match side {
        OrderSide::Buy => crate::settlement::spec_usd_value(price.raw, rem.raw),
        OrderSide::Sell => rem.raw as int,
    }
}


/// Partially filling the head of the best level of one side changes no
/// id anywhere: every invariant and the whole resting set carry over.
#[verifier::rlimit(60)]
proof fn lemma_update_head_effect(a: OrderBook, b: OrderBook, side: OrderSide, fill: Quantity)
    requires
        a.wf(),
        a.book_side(side).len() > 0,
        a.book_side(side)[0].orders@.len() > 0,
        0 < fill.raw < a.book_side(side)[0].orders@[0].remaining_quantity.raw,
        b.orders@ == a.orders@,
        b.user_balances@ == a.user_balances@,
        b.total_usd == a.total_usd,
        b.total_btc == a.total_btc,
        b.book_side(side.spec_opposite()) == a.book_side(side.spec_opposite()),
        b.book_side(side).len() == a.book_side(side).len(),
        forall|x: int| 0 < x < a.book_side(side).len() ==> b.book_side(side)[x] == a.book_side(side)[x],
        b.book_side(side)[0].price == a.book_side(side)[0].price,
        b.book_side(side)[0].total_volume.raw == a.book_side(side)[0].total_volume.raw - fill.raw,
        b.book_side(side)[0].orders@ == a.book_side(side)[0].orders@.update(
            0,
            Order {
                remaining_quantity: Quantity {
                    raw: (a.book_side(side)[0].orders@[0].remaining_quantity.raw - fill.raw) as u64,
                },
                status: OrderStatus::PartiallyFilled,
                ..a.book_side(side)[0].orders@[0]
            },
        ),
    ensures
        b.wf(),
        forall|id: u128| #[trigger] b.resting(id) == a.resting(id),
{
    let a_s = a.book_side(side);
    let b_s = b.book_side(side);
    let head = a_s[0].orders@[0];
    let head2 = b_s[0].orders@[0];
    assert(head2.id == head.id);

    // Level invariants: the head still has quantity left, and the cached
    // volume tracks the reduced sum.
    assert forall|k: int| 0 <= k < b_s.len() implies level_wf(#[trigger] b_s[k], side) by {
        assert(level_wf(a_s[k], side));
        if k == 0 {
            lemma_sum_remaining_update(a_s[0].orders@, 0, head2);
            assert forall|j: int|
                0 <= j < b_s[0].orders@.len() implies crate::order::order_wf_resting(
                #[trigger] b_s[0].orders@[j],
                side,
                b_s[0].price,
            ) by {
                if j > 0 {
                    assert(b_s[0].orders@[j] == a_s[0].orders@[j]);
                }
            }
        }
    }

    // Ids are untouched position by position, so the index and the
    // resting set carry over unchanged.
    assert forall|i2: int, j2: int|
        #![trigger b.book_side(side)[i2].orders@[j2]]
        0 <= i2 < b_s.len() && 0 <= j2 < b_s[i2].orders@.len() implies b_s[i2].orders@[j2].id
        == a_s[i2].orders@[j2].id && a_s[i2].orders@.len() == b_s[i2].orders@.len() by {
        if i2 == 0 {
            if j2 > 0 {
                assert(b_s[0].orders@[j2] == a_s[0].orders@[j2]);
            }
        } else {
            assert(b_s[i2] == a_s[i2]);
        }
    }
    assert forall|i2: int|
        0 <= i2 < b_s.len() implies (#[trigger] b_s[i2]).price == a_s[i2].price
            && b_s[i2].orders@.len() == a_s[i2].orders@.len() by {
        if i2 > 0 {
            assert(b_s[i2] == a_s[i2]);
        }
    }

    assert forall|k: int| 0 <= k < b.orders@.len() implies b.entry_ok(#[trigger] b.orders@[k]) by {
        let e = a.orders@[k];
        assert(a.entry_ok(e));
        let ie = choose|ie: int|
            0 <= ie < a.book_side(e.side).len() && (#[trigger] a.book_side(e.side)[ie]).price
                == e.price && has_order_id(a.book_side(e.side)[ie].orders@, e.id);
        if e.side == side {
            let j3 = choose|j3: int|
                0 <= j3 < a_s[ie].orders@.len() && a_s[ie].orders@[j3].id == e.id;
            assert(b_s[ie].orders@[j3].id == e.id);
            assert(has_order_id(b_s[ie].orders@, e.id));
        } else {
            assert(b.book_side(e.side) == a.book_side(e.side));
        }
    }
    assert forall|i2: int, j2: int|
        0 <= i2 < b_s.len() && 0 <= j2 < b_s[i2].orders@.len() implies crate::orderbook::index_has(
        b.orders@,
        (#[trigger] b_s[i2].orders@[j2]).id,
        side,
        b_s[i2].price,
    ) by {
        assert(b_s[i2].orders@[j2].id == a_s[i2].orders@[j2].id);
    }
    assert forall|id: u128| #[trigger] b.resting(id) == a.resting(id) by {
        assert(crate::orderbook::side_has_order_id(b_s, id) == crate::orderbook::side_has_order_id(
            a_s,
            id,
        )) by {
            if crate::orderbook::side_has_order_id(a_s, id) {
                let w = choose|w: int|
                    0 <= w < a_s.len() && has_order_id(#[trigger] a_s[w].orders@, id);
                let jw = choose|jw: int|
                    0 <= jw < a_s[w].orders@.len() && a_s[w].orders@[jw].id == id;
                assert(b_s[w].orders@[jw].id == id);
                assert(has_order_id(b_s[w].orders@, id));
            }
            if crate::orderbook::side_has_order_id(b_s, id) {
                let w = choose|w: int|
                    0 <= w < b_s.len() && has_order_id(#[trigger] b_s[w].orders@, id);
                let jw = choose|jw: int|
                    0 <= jw < b_s[w].orders@.len() && b_s[w].orders@[jw].id == id;
                assert(a_s[w].orders@[jw].id == id);
                assert(has_order_id(a_s[w].orders@, id));
            }
        }
        match side {
            OrderSide::Buy => {
                assert(b.asks@ == a.asks@);
            },
            OrderSide::Sell => {
                assert(b.bids@ == a.bids@);
            },
        }
    }
}

/// How an accepted limit placement moves every user's balances: the
/// reservation moves from available to locked, the fills settle out of it,
/// and what they did not consume stays locked behind the resting
/// remainder. `q0` is the order's quantity, `r1` the unfilled remainder.
pub open spec fn spec_place_deltas(
    a: OrderBook,
    b: OrderBook,
    t: u128,
    taker_side: OrderSide,
    price: Price,
    q0: Quantity,
    r1: Quantity,
    fills: Seq<(u128, u128, Price, Quantity, Quantity)>,
) -> bool {
    forall|u: u128|
        #[trigger] has_user(a.user_balances@, u) ==> {
            let filled = q0.raw - r1.raw;
            match taker_side {
                OrderSide::Buy => {
                    &&& crate::orderbook::locked_of(b, u, Currency::Usd)
                        == crate::orderbook::locked_of(a, u, Currency::Usd) + (if u == t {
                        crate::settlement::spec_usd_value(price.raw, r1.raw)
                    } else {
                        0
                    })
                    &&& crate::orderbook::avail_of(b, u, Currency::Usd)
                        == crate::orderbook::avail_of(a, u, Currency::Usd) - (if u == t {
                        crate::settlement::spec_usd_value(price.raw, r1.raw) + sum_payments(fills)
                    } else {
                        0
                    }) + sum_payments_to(fills, u)
                    &&& crate::orderbook::locked_of(b, u, Currency::Btc)
                        == crate::orderbook::locked_of(a, u, Currency::Btc) - sum_qty_to(fills, u)
                    &&& crate::orderbook::avail_of(b, u, Currency::Btc)
                        == crate::orderbook::avail_of(a, u, Currency::Btc) + (if u == t {
                        filled as int
                    } else {
                        0
                    })
                },
                OrderSide::Sell => {
                    &&& crate::orderbook::locked_of(b, u, Currency::Btc)
                        == crate::orderbook::locked_of(a, u, Currency::Btc) + (if u == t {
                        r1.raw as int
                    } else {
                        0
                    })
                    &&& crate::orderbook::avail_of(b, u, Currency::Btc)
                        == crate::orderbook::avail_of(a, u, Currency::Btc) - (if u == t {
                        q0.raw as int
                    } else {
                        0
                    }) + sum_qty_to(fills, u)
                    &&& crate::orderbook::locked_of(b, u, Currency::Usd)
                        == crate::orderbook::locked_of(a, u, Currency::Usd) - sum_releases_to(
                        fills,
                        u,
                    )
                    &&& crate::orderbook::avail_of(b, u, Currency::Usd)
                        == crate::orderbook::avail_of(a, u, Currency::Usd) + (if u == t {
                        sum_payments(fills)
                    } else {
                        0
                    }) + sum_releases_to(fills, u) - sum_payments_to(fills, u)
                },
            }
        }
}

/// Composing the reservation lock with the fills' settlements yields the
/// placement deltas.
#[verifier::rlimit(100)]
pub proof fn lemma_place_deltas(
    a: OrderBook,
    mid: OrderBook,
    b: OrderBook,
    t: u128,
    taker_side: OrderSide,
    price: Price,
    q0: Quantity,
    r1: Quantity,
    fills: Seq<(u128, u128, Price, Quantity, Quantity)>,
)
    requires
        has_user(a.user_balances@, t),
        r1.raw <= q0.raw,
        forall|u: u128|
            #[trigger] has_user(mid.user_balances@, u) == has_user(a.user_balances@, u),
        crate::orderbook::avail_of(mid, t, refund_currency(taker_side))
            == crate::orderbook::avail_of(a, t, refund_currency(taker_side)) - spec_refund_owed(
            taker_side,
            price,
            q0,
        ),
        crate::orderbook::locked_of(mid, t, refund_currency(taker_side))
            == crate::orderbook::locked_of(a, t, refund_currency(taker_side)) + spec_refund_owed(
            taker_side,
            price,
            q0,
        ),
        crate::orderbook::avail_of(mid, t, refund_currency(taker_side).spec_other())
            == crate::orderbook::avail_of(a, t, refund_currency(taker_side).spec_other()),
        crate::orderbook::locked_of(mid, t, refund_currency(taker_side).spec_other())
            == crate::orderbook::locked_of(a, t, refund_currency(taker_side).spec_other()),
        forall|u: u128|
            u != t && has_user(a.user_balances@, u) ==> crate::orderbook::balance_of(
                mid.user_balances@,
                u,
            ) == crate::orderbook::balance_of(a.user_balances@, u),
        spec_fills_deltas(mid, b, t, taker_side, Some(price), q0, r1, fills),
    ensures
        spec_place_deltas(a, b, t, taker_side, price, q0, r1, fills),
{
    assert forall|u: u128| #[trigger] has_user(a.user_balances@, u) implies {
        let filled = q0.raw - r1.raw;
        match taker_side {
            OrderSide::Buy => {
                &&& crate::orderbook::locked_of(b, u, Currency::Usd)
                    == crate::orderbook::locked_of(a, u, Currency::Usd) + (if u == t {
                    crate::settlement::spec_usd_value(price.raw, r1.raw)
                } else {
                    0
                })
                &&& crate::orderbook::avail_of(b, u, Currency::Usd)
                    == crate::orderbook::avail_of(a, u, Currency::Usd) - (if u == t {
                    crate::settlement::spec_usd_value(price.raw, r1.raw) + sum_payments(fills)
                } else {
                    0
                }) + sum_payments_to(fills, u)
                &&& crate::orderbook::locked_of(b, u, Currency::Btc)
                    == crate::orderbook::locked_of(a, u, Currency::Btc) - sum_qty_to(fills, u)
                &&& crate::orderbook::avail_of(b, u, Currency::Btc)
                    == crate::orderbook::avail_of(a, u, Currency::Btc) + (if u == t {
                    filled as int
                } else {
                    0
                })
            },
            OrderSide::Sell => {
                &&& crate::orderbook::locked_of(b, u, Currency::Btc)
                    == crate::orderbook::locked_of(a, u, Currency::Btc) + (if u == t {
                    r1.raw as int
                } else {
                    0
                })
                &&& crate::orderbook::avail_of(b, u, Currency::Btc)
                    == crate::orderbook::avail_of(a, u, Currency::Btc) - (if u == t {
                    q0.raw as int
                } else {
                    0
                }) + sum_qty_to(fills, u)
                &&& crate::orderbook::locked_of(b, u, Currency::Usd)
                    == crate::orderbook::locked_of(a, u, Currency::Usd) - sum_releases_to(fills, u)
                &&& crate::orderbook::avail_of(b, u, Currency::Usd)
                    == crate::orderbook::avail_of(a, u, Currency::Usd) + (if u == t {
                    sum_payments(fills)
                } else {
                    0
                }) + sum_releases_to(fills, u) - sum_payments_to(fills, u)
            },
        }
    } by {
        assert(has_user(mid.user_balances@, u));
    }
}

/// The specification's unfilled remainder stays within the taker's
/// original quantity.
pub proof fn lemma_spec_match_rem_bounds(
    levels: Seq<(Price, Seq<Order>)>,
    rem: int,
    taker_side: OrderSide,
    limit: Option<Price>,
)
    requires
        rem >= 0,
    ensures
        0 <= spec_match(levels, rem, taker_side, limit).2 <= rem,
    decreases levels.len(), head_len(levels),
{
    if rem <= 0 || levels.len() == 0 || !spec_crosses(taker_side, limit, levels[0].0)
        || levels[0].1.len() == 0 {
    } else {
        let head = levels[0].1[0];
        let mrem = head.remaining_quantity.raw as int;
        if rem < mrem {
        } else {
            let rest = if levels[0].1.len() == 1 {
                levels.subrange(1, levels.len() as int)
            } else {
                levels.update(
                    0,
                    (levels[0].0, levels[0].1.subrange(1, levels[0].1.len() as int)),
                )
            };
            lemma_spec_match_rem_bounds(rest, rem - mrem, taker_side, limit);
        }
    }
}

/// A run that has made no fills has moved nothing.
pub proof fn lemma_fills_deltas_empty(
    a: OrderBook,
    t: u128,
    taker_side: OrderSide,
    limit: Option<Price>,
    r0: Quantity,
)
    ensures
        spec_fills_deltas(
            a,
            a,
            t,
            taker_side,
            limit,
            r0,
            r0,
            Seq::<(u128, u128, Price, Quantity, Quantity)>::empty(),
        ),
{
    let fills = Seq::<(u128, u128, Price, Quantity, Quantity)>::empty();
    assert(sum_payments(fills) == 0);
    assert forall|u: u128| #[trigger] has_user(a.user_balances@, u) implies sum_qty_to(fills, u)
        == 0 && sum_payments_to(fills, u) == 0 && sum_releases_to(fills, u) == 0 by {}
}

/// The balance movement of a run depends only on the balance tables, so it
/// carries over to any state with the same table.
pub proof fn lemma_fills_deltas_same_balances(
    a: OrderBook,
    b1: OrderBook,
    b2: OrderBook,
    t: u128,
    taker_side: OrderSide,
    limit: Option<Price>,
    r0: Quantity,
    r1: Quantity,
    fills: Seq<(u128, u128, Price, Quantity, Quantity)>,
)
    requires
        spec_fills_deltas(a, b1, t, taker_side, limit, r0, r1, fills),
        b2.user_balances@ == b1.user_balances@,
    ensures
        spec_fills_deltas(a, b2, t, taker_side, limit, r0, r1, fills),
{
    assert forall|u: u128| #[trigger] has_user(a.user_balances@, u) implies crate::orderbook::locked_of(
        b2,
        u,
        Currency::Usd,
    ) == crate::orderbook::locked_of(b1, u, Currency::Usd) && crate::orderbook::avail_of(
        b2,
        u,
        Currency::Usd,
    ) == crate::orderbook::avail_of(b1, u, Currency::Usd) && crate::orderbook::locked_of(
        b2,
        u,
        Currency::Btc,
    ) == crate::orderbook::locked_of(b1, u, Currency::Btc) && crate::orderbook::avail_of(
        b2,
        u,
        Currency::Btc,
    ) == crate::orderbook::avail_of(b1, u, Currency::Btc) by {}
}

/// One settled fill extends the run's balance movement by its own legs.
#[verifier::rlimit(100)]
pub proof fn lemma_fills_deltas_step(
    a: OrderBook,
    cur: OrderBook,
    post: OrderBook,
    t: u128,
    taker_side: OrderSide,
    limit: Option<Price>,
    r0: Quantity,
    rem_pre: Quantity,
    rem_post: Quantity,
    fills_n: Seq<(u128, u128, Price, Quantity, Quantity)>,
    f: (u128, u128, Price, Quantity, Quantity),
    funding: TakerFunding,
)
    requires
        spec_fills_deltas(a, cur, t, taker_side, limit, r0, rem_pre, fills_n),
        forall|u: u128|
            #[trigger] has_user(cur.user_balances@, u) == has_user(a.user_balances@, u),
        forall|u: u128|
            #[trigger] has_user(post.user_balances@, u) == has_user(cur.user_balances@, u),
        f.3.raw > 0,
        f.3.raw <= f.4.raw,
        f.3.raw <= rem_pre.raw,
        rem_pre.raw <= r0.raw,
        rem_post.raw == rem_pre.raw - f.3.raw,
        match limit {
            Some(l) => funding == TakerFunding::Reserved { limit: l, rem_before: rem_pre },
            None => funding == TakerFunding::Unreserved,
        },
        taker_side == OrderSide::Buy ==> ({
            let payment = crate::settlement::spec_usd_value(f.2.raw, f.3.raw);
            let release = crate::settlement::spec_release(funding, f.2, f.3);
            forall|u: u128|
                #[trigger] has_user(cur.user_balances@, u) ==> {
                    &&& crate::orderbook::locked_of(post, u, Currency::Usd)
                        == crate::orderbook::locked_of(cur, u, Currency::Usd) - (if u == t && (
                        funding matches TakerFunding::Reserved { .. }) {
                        release
                    } else {
                        0
                    })
                    &&& crate::orderbook::avail_of(post, u, Currency::Usd)
                        == crate::orderbook::avail_of(cur, u, Currency::Usd) - (if u == t && (
                        funding matches TakerFunding::Unreserved) {
                        release
                    } else {
                        0
                    }) + (if u == f.1 {
                        payment
                    } else {
                        0
                    }) + (if u == t {
                        release - payment
                    } else {
                        0
                    })
                    &&& crate::orderbook::locked_of(post, u, Currency::Btc)
                        == crate::orderbook::locked_of(cur, u, Currency::Btc) - (if u == f.1 {
                        f.3.raw as int
                    } else {
                        0
                    })
                    &&& crate::orderbook::avail_of(post, u, Currency::Btc)
                        == crate::orderbook::avail_of(cur, u, Currency::Btc) + (if u == t {
                        f.3.raw as int
                    } else {
                        0
                    })
                }
        }),
        taker_side == OrderSide::Sell ==> ({
            let payment = crate::settlement::spec_usd_value(f.2.raw, f.3.raw);
            let m_release = crate::settlement::spec_maker_release(f.2, f.3, f.4);
            forall|u: u128|
                #[trigger] has_user(cur.user_balances@, u) ==> {
                    &&& crate::orderbook::locked_of(post, u, Currency::Usd)
                        == crate::orderbook::locked_of(cur, u, Currency::Usd) - (if u == f.1 {
                        m_release
                    } else {
                        0
                    })
                    &&& crate::orderbook::avail_of(post, u, Currency::Usd)
                        == crate::orderbook::avail_of(cur, u, Currency::Usd) + (if u == t {
                        payment
                    } else {
                        0
                    }) + (if u == f.1 {
                        m_release - payment
                    } else {
                        0
                    })
                    &&& crate::orderbook::locked_of(post, u, Currency::Btc)
                        == crate::orderbook::locked_of(cur, u, Currency::Btc) - (if u == t && (
                        funding matches TakerFunding::Reserved { .. }) {
                        f.3.raw as int
                    } else {
                        0
                    })
                    &&& crate::orderbook::avail_of(post, u, Currency::Btc)
                        == crate::orderbook::avail_of(cur, u, Currency::Btc) - (if u == t && (
                        funding matches TakerFunding::Unreserved) {
                        f.3.raw as int
                    } else {
                        0
                    }) + (if u == f.1 {
                        f.3.raw as int
                    } else {
                        0
                    })
                }
        }),
    ensures
        spec_fills_deltas(a, post, t, taker_side, limit, r0, rem_post, fills_n.push(f)),
{
    assert forall|u: u128| #[trigger] has_user(a.user_balances@, u) implies {
        let filled = r0.raw - rem_post.raw;
        match taker_side {
            OrderSide::Buy => {
                let t_lock_rel = match limit {
                    Some(l) => crate::settlement::spec_usd_value(l.raw, r0.raw)
                        - crate::settlement::spec_usd_value(l.raw, rem_post.raw),
                    None => 0,
                };
                let t_avail_pay = match limit {
                    Some(_) => 0int,
                    None => sum_payments(fills_n.push(f)),
                };
                let t_refund = match limit {
                    Some(_) => t_lock_rel - sum_payments(fills_n.push(f)),
                    None => 0int,
                };
                &&& crate::orderbook::locked_of(post, u, Currency::Usd)
                    == crate::orderbook::locked_of(a, u, Currency::Usd) - (if u == t {
                    t_lock_rel
                } else {
                    0
                })
                &&& crate::orderbook::avail_of(post, u, Currency::Usd)
                    == crate::orderbook::avail_of(a, u, Currency::Usd) - (if u == t {
                    t_avail_pay
                } else {
                    0
                }) + sum_payments_to(fills_n.push(f), u) + (if u == t {
                    t_refund
                } else {
                    0
                })
                &&& crate::orderbook::locked_of(post, u, Currency::Btc)
                    == crate::orderbook::locked_of(a, u, Currency::Btc) - sum_qty_to(
                    fills_n.push(f),
                    u,
                )
                &&& crate::orderbook::avail_of(post, u, Currency::Btc)
                    == crate::orderbook::avail_of(a, u, Currency::Btc) + (if u == t {
                    filled as int
                } else {
                    0
                })
            },
            OrderSide::Sell => {
                &&& crate::orderbook::locked_of(post, u, Currency::Btc)
                    == crate::orderbook::locked_of(a, u, Currency::Btc) - (if u == t
                    && limit is Some {
                    filled as int
                } else {
                    0
                })
                &&& crate::orderbook::avail_of(post, u, Currency::Btc)
                    == crate::orderbook::avail_of(a, u, Currency::Btc) - (if u == t
                    && limit is None {
                    filled as int
                } else {
                    0
                }) + sum_qty_to(fills_n.push(f), u)
                &&& crate::orderbook::locked_of(post, u, Currency::Usd)
                    == crate::orderbook::locked_of(a, u, Currency::Usd) - sum_releases_to(
                    fills_n.push(f),
                    u,
                )
                &&& crate::orderbook::avail_of(post, u, Currency::Usd)
                    == crate::orderbook::avail_of(a, u, Currency::Usd) + (if u == t {
                    sum_payments(fills_n.push(f))
                } else {
                    0
                }) + sum_releases_to(fills_n.push(f), u) - sum_payments_to(fills_n.push(f), u)
            },
        }
    } by {
        lemma_fill_sums_push(fills_n, f, u);
    }
}

/// One matching iteration advances the specification by exactly one step:
/// the fill taken is the specification's next fill, and the side left
/// behind is the specification's remaining side.
#[verifier::rlimit(100)]
pub(crate) proof fn lemma_match_step(
    a: OrderBook,
    b: OrderBook,
    rem_pre: Quantity,
    rem_post: Quantity,
    maker_side: OrderSide,
    taker_side: OrderSide,
    limit: Option<Price>,
    trade: Trade,
)
    requires
        maker_side == taker_side.spec_opposite(),
        a.wf(),
        rem_pre.raw > 0,
        a.book_side(maker_side).len() > 0,
        a.book_side(maker_side)[0].orders@.len() > 0,
        spec_crosses(taker_side, limit, a.book_side(maker_side)[0].price),
        trade.price == a.book_side(maker_side)[0].price,
        trade.maker_order_id == a.book_side(maker_side)[0].orders@[0].id,
        trade.maker_user_id == a.book_side(maker_side)[0].orders@[0].user_id,
        trade.quantity == spec_min_qty(
            rem_pre,
            a.book_side(maker_side)[0].orders@[0].remaining_quantity,
        ),
        rem_post.raw == rem_pre.raw - trade.quantity.raw,
        ({
            let a_s = a.book_side(maker_side);
            let b_s = b.book_side(maker_side);
            let head = a_s[0].orders@[0];
            if trade.quantity.raw < head.remaining_quantity.raw {
                &&& b_s.len() == a_s.len()
                &&& b_s[0].price == a_s[0].price
                &&& b_s[0].orders@ == a_s[0].orders@.update(
                    0,
                    (Order {
                        remaining_quantity: Quantity {
                            raw: (head.remaining_quantity.raw - trade.quantity.raw) as u64,
                        },
                        status: OrderStatus::PartiallyFilled,
                        ..head
                    }),
                )
                &&& forall|x: int| 0 < x < a_s.len() ==> b_s[x] == a_s[x]
            } else {
                side_after_remove(a_s, b_s, 0, 0)
            }
        }),
    ensures
        ({
            let ma = side_model(a.book_side(maker_side));
            let mb = side_model(b.book_side(maker_side));
            let m_here = spec_match(ma, rem_pre.raw as int, taker_side, limit);
            let m_next = spec_match(mb, rem_post.raw as int, taker_side, limit);
            &&& m_here.0 == seq![
                (
                    trade.maker_order_id,
                    trade.maker_user_id,
                    trade.price,
                    trade.quantity,
                    a.book_side(maker_side)[0].orders@[0].remaining_quantity,
                ),
            ] + m_next.0
            &&& m_here.1 == m_next.1
            &&& m_here.2 == m_next.2
        }),
{
    let a_s = a.book_side(maker_side);
    let b_s = b.book_side(maker_side);
    let ma = side_model(a_s);
    let mb = side_model(b_s);
    let head = a_s[0].orders@[0];
    let mrem = head.remaining_quantity.raw as int;
    let ra = rem_pre.raw as int;
    assert(ma.len() == a_s.len());
    assert(ma[0] == (a_s[0].price, a_s[0].orders@));
    assert(level_wf(a_s[0], maker_side));
    assert(mrem > 0);
    let m_here = spec_match(ma, ra, taker_side, limit);

    if ra < mrem {
        // Partial fill: the head stays, reduced; the taker is done.
        let head2 = Order {
            remaining_quantity: Quantity { raw: (mrem - ra) as u64 },
            status: OrderStatus::PartiallyFilled,
            ..head
        };
        assert(trade.quantity == rem_pre);
        assert(rem_post.raw == 0);
        let updated = ma.update(0, (ma[0].0, ma[0].1.update(0, head2)));
        assert(m_here == (
            seq![(head.id, head.user_id, ma[0].0, Quantity { raw: ra as u64 }, head.remaining_quantity)],
            updated,
            0int,
        ));
        assert forall|i: int| 0 <= i < mb.len() implies mb[i] == updated[i] by {
            if i == 0 {
                assert(b_s[0].orders@ == a_s[0].orders@.update(0, head2));
                assert(mb[0] == (b_s[0].price, b_s[0].orders@));
            } else {
                assert(b_s[i] == a_s[i]);
                assert(mb[i] == (a_s[i].price, a_s[i].orders@));
                assert(updated[i] == ma[i]);
            }
        }
        assert(mb =~= updated);
        let m_next = spec_match(mb, 0, taker_side, limit);
        assert(m_next == (Seq::<(u128, u128, Price, Quantity, Quantity)>::empty(), mb, 0int));
        assert(Quantity { raw: ra as u64 } == trade.quantity);
        assert(seq![
            (
                trade.maker_order_id,
                trade.maker_user_id,
                trade.price,
                trade.quantity,
                head.remaining_quantity,
            ),
        ] + m_next.0 =~= seq![
            (
                trade.maker_order_id,
                trade.maker_user_id,
                trade.price,
                trade.quantity,
                head.remaining_quantity,
            ),
        ]);
        assert(m_here.0 =~= seq![
            (
                trade.maker_order_id,
                trade.maker_user_id,
                trade.price,
                trade.quantity,
                head.remaining_quantity,
            ),
        ]);
    } else {
        // Full fill: the head leaves; the walk may continue.
        assert(trade.quantity == head.remaining_quantity);
        let rest = if a_s[0].orders@.len() == 1 {
            ma.subrange(1, ma.len() as int)
        } else {
            ma.update(0, (ma[0].0, ma[0].1.subrange(1, ma[0].1.len() as int)))
        };
        assert(m_here == (
            seq![(head.id, head.user_id, ma[0].0, head.remaining_quantity, head.remaining_quantity)]
                + spec_match(rest, ra - mrem, taker_side, limit).0,
            spec_match(rest, ra - mrem, taker_side, limit).1,
            spec_match(rest, ra - mrem, taker_side, limit).2,
        ));
        if a_s[0].orders@.len() == 1 {
            assert(b_s.len() == a_s.len() - 1);
            assert forall|i: int| 0 <= i < mb.len() implies mb[i] == rest[i] by {
                assert(b_s[i] == a_s[i + 1]);
                assert(mb[i] == (a_s[i + 1].price, a_s[i + 1].orders@));
                assert(rest[i] == ma[i + 1]);
            }
            assert(mb =~= rest);
        } else {
            assert(b_s[0].orders@ == a_s[0].orders@.remove(0));
            assert(a_s[0].orders@.remove(0) =~= a_s[0].orders@.subrange(
                1,
                a_s[0].orders@.len() as int,
            ));
            assert forall|i: int| 0 <= i < mb.len() implies mb[i] == rest[i] by {
                if i == 0 {
                    assert(mb[0] == (b_s[0].price, b_s[0].orders@));
                } else {
                    assert(b_s[i] == a_s[i]);
                    assert(mb[i] == (a_s[i].price, a_s[i].orders@));
                    assert(rest[i] == ma[i]);
                }
            }
            assert(mb =~= rest);
        }
        assert(rem_post.raw as int == ra - mrem);
    }
}


impl OrderBook {
    /// Consume `fill` units from the head order of the best level on
    /// `maker_side`: the oldest order at the best price. A fully consumed
    /// head leaves the level and the by-id index; an emptied level leaves
    /// the book. Balances are untouched, no id starts resting, and the
    /// best price of `maker_side` moves only away from the spread.
    #[verifier::rlimit(60)]
    pub fn fill_best(&mut self, maker_side: OrderSide, fill: Quantity)
        requires
            old(self).wf(),
            old(self).book_side(maker_side).len() > 0,
            0 < fill.raw <= old(self).book_side(maker_side)[0].orders@[0].remaining_quantity.raw,
        ensures
            final(self).wf(),
            final(self).user_balances@ == old(self).user_balances@,
            final(self).total_usd == old(self).total_usd,
            final(self).total_btc == old(self).total_btc,
            final(self).book_side(maker_side.spec_opposite()) == old(self).book_side(
                maker_side.spec_opposite(),
            ),
            forall|id: u128| #[trigger] final(self).resting(id) ==> old(self).resting(id),
            final(self).book_side(maker_side).len() > 0 ==> match maker_side {
                OrderSide::Sell => final(self).book_side(maker_side)[0].price.raw >= old(
                    self,
                ).book_side(maker_side)[0].price.raw,
                OrderSide::Buy => final(self).book_side(maker_side)[0].price.raw <= old(
                    self,
                ).book_side(maker_side)[0].price.raw,
            },
            ({
                let a_s = old(self).book_side(maker_side);
                let b_s = final(self).book_side(maker_side);
                let head = a_s[0].orders@[0];
                if fill.raw < head.remaining_quantity.raw {
                    &&& b_s.len() == a_s.len()
                    &&& b_s[0].price == a_s[0].price
                    &&& b_s[0].orders@ == a_s[0].orders@.update(
                        0,
                        (Order {
                            remaining_quantity: Quantity {
                                raw: (head.remaining_quantity.raw - fill.raw) as u64,
                            },
                            status: OrderStatus::PartiallyFilled,
                            ..head
                        }),
                    )
                    &&& forall|x: int| 0 < x < a_s.len() ==> b_s[x] == a_s[x]
                } else {
                    side_after_remove(a_s, b_s, 0, 0)
                }
            }),
    {
        let ghost a = *self;
        proof {
            assert(level_wf(a.book_side(maker_side)[0], maker_side));
        }
        let head_rem: Quantity = match maker_side {
            OrderSide::Buy => self.bids[0].orders[0].remaining_quantity,
            OrderSide::Sell => self.asks[0].orders[0].remaining_quantity,
        };
        let head_id: u128 = match maker_side {
            OrderSide::Buy => self.bids[0].orders[0].id,
            OrderSide::Sell => self.asks[0].orders[0].id,
        };
        if fill.raw() < head_rem.raw() {
            // Partial fill: reduce the head in place and the cached volume.
            proof {
                lemma_sum_remaining_nonneg(a.book_side(maker_side)[0].orders@.skip(1));
            }
            match maker_side {
                OrderSide::Buy => {
                    let lvl = &mut self.bids[0];
                    let m = lvl.front_mut();
                    m.fill(fill);
                    lvl.update_volume(fill);
                },
                OrderSide::Sell => {
                    let lvl = &mut self.asks[0];
                    let m = lvl.front_mut();
                    m.fill(fill);
                    lvl.update_volume(fill);
                },
            }
            proof {
                lemma_update_head_effect(a, *self, maker_side, fill);
            }
        } else {
            // Full fill: the head leaves its level and the index.
            let k = match self.find_order_entry(head_id) {
                Some(k) => k,
                None => {
                    proof {
                        assert(has_order_id(a.book_side(maker_side)[0].orders@, head_id));
                        match maker_side {
                            OrderSide::Buy => {
                                assert(crate::orderbook::side_has_order_id(a.bids@, head_id));
                            },
                            OrderSide::Sell => {
                                assert(crate::orderbook::side_has_order_id(a.asks@, head_id));
                            },
                        }
                        lemma_resting_has_entry(a, head_id);
                        assert(false);
                    }
                    return ;
                },
            };
            self.orders.remove(k);
            match maker_side {
                OrderSide::Buy => {
                    let lvl = &mut self.bids[0];
                    let popped = lvl.dequeue_order_by_id(head_id);
                    proof {
                        let j = choose|j: int|
                            0 <= j < a.bids@[0].orders@.len() && a.bids@[0].orders@[j].id == head_id
                                && popped == Some(a.bids@[0].orders@[j]) && self.bids@[0].orders@
                                == a.bids@[0].orders@.remove(j);
                        assert(j == 0);
                    }
                    if self.bids[0].is_empty() {
                        self.bids.remove(0);
                        proof {
                            assert(a.bids@[0].orders@.len() == 1) by {
                                if a.bids@[0].orders@.len() > 1 {
                                    assert(self.bids@[0].orders@.len() > 0);
                                }
                            }
                            assert(side_after_remove(a.bids@, self.bids@, 0, 0));
                        }
                    } else {
                        proof {
                            assert(a.bids@[0].orders@.len() > 1) by {
                                if a.bids@[0].orders@.len() == 1 {
                                    assert(self.bids@[0].orders@.len() == 0);
                                }
                            }
                            assert(side_after_remove(a.bids@, self.bids@, 0, 0));
                        }
                    }
                },
                OrderSide::Sell => {
                    let lvl = &mut self.asks[0];
                    let popped = lvl.dequeue_order_by_id(head_id);
                    proof {
                        let j = choose|j: int|
                            0 <= j < a.asks@[0].orders@.len() && a.asks@[0].orders@[j].id == head_id
                                && popped == Some(a.asks@[0].orders@[j]) && self.asks@[0].orders@
                                == a.asks@[0].orders@.remove(j);
                        assert(j == 0);
                    }
                    if self.asks[0].is_empty() {
                        self.asks.remove(0);
                        proof {
                            assert(a.asks@[0].orders@.len() == 1) by {
                                if a.asks@[0].orders@.len() > 1 {
                                    assert(self.asks@[0].orders@.len() > 0);
                                }
                            }
                            assert(side_after_remove(a.asks@, self.asks@, 0, 0));
                        }
                    } else {
                        proof {
                            assert(a.asks@[0].orders@.len() > 1) by {
                                if a.asks@[0].orders@.len() == 1 {
                                    assert(self.asks@[0].orders@.len() == 0);
                                }
                            }
                            assert(side_after_remove(a.asks@, self.asks@, 0, 0));
                        }
                    }
                },
            }
            proof {
                lemma_remove_order_effect(a, *self, maker_side, 0, 0, k as int);
                lemma_cancel_spread(a, *self, maker_side, 0, 0);
                if self.book_side(maker_side).len() > 0 {
                    if a.book_side(maker_side)[0].orders@.len() > 1 {
                        assert(self.book_side(maker_side)[0].price == a.book_side(
                            maker_side,
                        )[0].price);
                    } else {
                        assert(self.book_side(maker_side)[0] == a.book_side(maker_side)[1]);
                    }
                }
            }
        }
    }
}

impl OrderBook {
    /// Release whatever reservation still backs the unfilled remainder of
    /// a limit order: the order's value at its own limit price for a buy,
    /// its remaining quantity for a sell. The release is clamped to what
    /// is actually locked, so venue totals never change; exactly the
    /// smaller of the owed and locked amounts moves from locked back to
    /// available.
    pub(crate) fn refund_remainder(&mut self, user_id: u128, side: OrderSide, price: Price, rem: Quantity)
        requires
            old(self).balances_wf(),
        ensures
            crate::orderbook::balances_delta_ok(*old(self), *final(self), user_id),
            final(self).total_usd == old(self).total_usd,
            final(self).total_btc == old(self).total_btc,
            forall|u: u128|
                #[trigger] has_user(final(self).user_balances@, u) == has_user(
                    old(self).user_balances@,
                    u,
                ),
            !crate::orderbook::has_user(old(self).user_balances@, user_id)
                ==> crate::orderbook::same_balances(*old(self), *final(self)),
            crate::orderbook::has_user(old(self).user_balances@, user_id) ==> ({
                let ccy = refund_currency(side);
                let owed = spec_refund_owed(side, price, rem);
                let held = crate::orderbook::locked_of(*old(self), user_id, ccy);
                let moved = if owed <= held {
                    owed
                } else {
                    held
                };
                &&& crate::orderbook::locked_of(*final(self), user_id, ccy) == held - moved
                &&& crate::orderbook::avail_of(*final(self), user_id, ccy)
                    == crate::orderbook::avail_of(*old(self), user_id, ccy) + moved
                &&& crate::orderbook::avail_of(*final(self), user_id, ccy.spec_other())
                    == crate::orderbook::avail_of(*old(self), user_id, ccy.spec_other())
                &&& crate::orderbook::locked_of(*final(self), user_id, ccy.spec_other())
                    == crate::orderbook::locked_of(*old(self), user_id, ccy.spec_other())
            }),
    {
        let currency = match side {
            OrderSide::Buy => Currency::Usd,
            OrderSide::Sell => Currency::Btc,
        };
        let owed: u128 = match side {
            OrderSide::Buy => usd_value(price, rem),
            OrderSide::Sell => rem.raw() as u128,
        };
        let locked: u64 = match self.get_user_balance(user_id) {
            Some(b) => b.get_locked(currency),
            None => {
                return ;
            },
        };
        let amount: u64 = if owed > locked as u128 {
            locked
        } else {
            owed as u64
        };
        let r = self.unlock_funds(user_id, currency, amount);
        proof {
            if r is Err {
                assert(crate::orderbook::same_balances(*old(self), *final(self)));
            }
            assert forall|u: u128|
                #[trigger] has_user(self.user_balances@, u) == has_user(
                old(self).user_balances@,
                u,
            ) by {
                if u != user_id {
                } else {
                    if r is Err {
                        assert(self.user_balances@ == old(self).user_balances@);
                    }
                }
            }
        }
    }

    /// Walk the opposite side of the book while the taker's limit price
    /// crosses the best resting price, filling oldest orders at the best
    /// price first and settling each trade from the two reservations. The
    /// result is exactly what `spec_match` dictates; the flag reports an
    /// abort: a settlement leg proved infeasible, the remaining loop was
    /// abandoned, and the trades already made stand.
    #[verifier::rlimit(100)]
    fn match_limit_order(&mut self, taker_order: &mut Order) -> (r: (Vec<Trade>, bool))
        requires
            old(self).wf(),
            old(taker_order).order_type == OrderType::Limit,
            old(taker_order).price is Some,
            old(taker_order).remaining_quantity.raw > 0,
            old(taker_order).remaining_quantity == old(taker_order).original_quantity,
            old(taker_order).status == OrderStatus::Open,
        ensures
            final(self).wf(),
            final(self).total_usd == old(self).total_usd,
            final(self).total_btc == old(self).total_btc,
            final(self).book_side(old(taker_order).side) == old(self).book_side(
                old(taker_order).side,
            ),
            forall|id: u128| #[trigger] final(self).resting(id) ==> old(self).resting(id),
            final(taker_order).id == old(taker_order).id,
            final(taker_order).user_id == old(taker_order).user_id,
            final(taker_order).side == old(taker_order).side,
            final(taker_order).order_type == old(taker_order).order_type,
            final(taker_order).price == old(taker_order).price,
            final(taker_order).original_quantity == old(taker_order).original_quantity,
            final(taker_order).timestamp == old(taker_order).timestamp,
            final(taker_order).remaining_quantity.raw <= old(taker_order).original_quantity.raw,
            final(taker_order).remaining_quantity.raw > 0 ==> ((final(taker_order).status
                == OrderStatus::Open <==> final(taker_order).remaining_quantity.raw
                == final(taker_order).original_quantity.raw) && (final(taker_order).status
                == OrderStatus::Open || final(taker_order).status == OrderStatus::PartiallyFilled)),
            sum_trade_qty(r.0@) + final(taker_order).remaining_quantity.raw
                == old(taker_order).original_quantity.raw,
            r.0@.len() == 0 ==> final(self).user_balances@ == old(self).user_balances@,
            forall|t: int|
                0 <= t < r.0@.len() ==> (#[trigger] r.0@[t]).taker_order_id == old(taker_order).id
                    && r.0@[t].taker_user_id == old(taker_order).user_id && r.0@[t].quantity.raw
                    > 0 && (old(taker_order).side == OrderSide::Buy ==> r.0@[t].price.raw
                    <= old(taker_order).price.unwrap().raw) && (old(taker_order).side
                    == OrderSide::Sell ==> r.0@[t].price.raw >= old(taker_order).price.unwrap().raw),
            !r.1 && final(taker_order).remaining_quantity.raw > 0 ==> match old(taker_order).side {
                OrderSide::Buy => final(self).asks@.len() == 0 || final(self).asks@[0].price.raw
                    > old(taker_order).price.unwrap().raw,
                OrderSide::Sell => final(self).bids@.len() == 0 || final(self).bids@[0].price.raw
                    < old(taker_order).price.unwrap().raw,
            },
            ({
                let m = spec_match(
                    side_model(old(self).book_side(old(taker_order).side.spec_opposite())),
                    old(taker_order).remaining_quantity.raw as int,
                    old(taker_order).side,
                    old(taker_order).price,
                );
                &&& !r.1 ==> trade_models(r.0@) == fill_trades(m.0) && side_model(
                    final(self).book_side(old(taker_order).side.spec_opposite()),
                ) == m.1 && final(taker_order).remaining_quantity.raw == m.2
                    && spec_fills_deltas(
                    *old(self),
                    *final(self),
                    old(taker_order).user_id,
                    old(taker_order).side,
                    old(taker_order).price,
                    old(taker_order).remaining_quantity,
                    final(taker_order).remaining_quantity,
                    m.0,
                )
                &&& r.1 ==> r.0@.len() < m.0.len() && trade_models(r.0@) == fill_trades(
                    m.0.take(r.0@.len() as int),
                ) && spec_fills_deltas(
                    *old(self),
                    *final(self),
                    old(taker_order).user_id,
                    old(taker_order).side,
                    old(taker_order).price,
                    old(taker_order).remaining_quantity,
                    final(taker_order).remaining_quantity,
                    m.0.take(r.0@.len() as int),
                )
            }),
            r.1 ==> ({
                let opp = final(self).book_side(old(taker_order).side.spec_opposite());
                &&& final(taker_order).remaining_quantity.raw > 0
                &&& opp.len() > 0
                &&& opp[0].orders@.len() > 0
                &&& spec_crosses(old(taker_order).side, old(taker_order).price, opp[0].price)
                &&& !crate::settlement::spec_settle_feasible(
                    *final(self),
                    old(taker_order).user_id,
                    opp[0].orders@[0].user_id,
                    opp[0].price,
                    spec_min_qty(
                        final(taker_order).remaining_quantity,
                        opp[0].orders@[0].remaining_quantity,
                    ),
                    old(taker_order).side,
                    TakerFunding::Reserved {
                        limit: old(taker_order).price.unwrap(),
                        rem_before: final(taker_order).remaining_quantity,
                    },
                    opp[0].orders@[0].remaining_quantity,
                )
            }),
    {
        let mut trades: Vec<Trade> = Vec::new();
        let mut aborted: bool = false;
        let taker_price: Price = match taker_order.price {
            Some(p) => p,
            None => {
                proof {
                    assert(false);
                }
                Price::new(0)
            },
        };
        let taker_side = taker_order.side;
        let maker_side = taker_side.opposite();
        proof {
            let m0 = spec_match(
                side_model(old(self).book_side(maker_side)),
                old(taker_order).remaining_quantity.raw as int,
                taker_side,
                Some(taker_price),
            );
            assert(m0.0.take(0) =~= Seq::<(u128, u128, Price, Quantity, Quantity)>::empty());
            assert(m0.0.take(0) + m0.0 =~= m0.0);
            assert(trade_models(trades@) =~= fill_trades(m0.0.take(0)));
            lemma_fills_deltas_empty(
                *old(self),
                old(taker_order).user_id,
                taker_side,
                Some(taker_price),
                old(taker_order).remaining_quantity,
            );
        }

        while !taker_order.is_fully_filled()
            invariant_except_break
                !aborted,
            invariant
                self.wf(),
                self.total_usd == old(self).total_usd,
                self.total_btc == old(self).total_btc,
                self.book_side(old(taker_order).side) == old(self).book_side(
                    old(taker_order).side,
                ),
                forall|id: u128| #[trigger] self.resting(id) ==> old(self).resting(id),
                taker_side == old(taker_order).side,
                maker_side == taker_side.spec_opposite(),
                Some(taker_price) == old(taker_order).price,
                taker_order.id == old(taker_order).id,
                taker_order.user_id == old(taker_order).user_id,
                taker_order.side == old(taker_order).side,
                taker_order.order_type == old(taker_order).order_type,
                taker_order.price == old(taker_order).price,
                taker_order.original_quantity == old(taker_order).original_quantity,
                taker_order.timestamp == old(taker_order).timestamp,
                taker_order.remaining_quantity.raw <= old(taker_order).original_quantity.raw,
                taker_order.remaining_quantity.raw <= old(taker_order).remaining_quantity.raw,
                taker_order.remaining_quantity.raw > 0 ==> (taker_order.status == OrderStatus::Open
                    <==> taker_order.remaining_quantity.raw
                    == taker_order.original_quantity.raw) && (taker_order.status
                    == OrderStatus::Open || taker_order.status == OrderStatus::PartiallyFilled),
                sum_trade_qty(trades@) + taker_order.remaining_quantity.raw == old(
                    taker_order,
                ).original_quantity.raw,
                trades@.len() == 0 ==> self.user_balances@ == old(self).user_balances@,
                forall|t: int|
                    0 <= t < trades@.len() ==> (#[trigger] trades@[t]).taker_order_id == old(
                        taker_order,
                    ).id && trades@[t].taker_user_id == old(taker_order).user_id
                        && trades@[t].quantity.raw > 0 && (old(taker_order).side == OrderSide::Buy
                        ==> trades@[t].price.raw <= taker_price.raw) && (old(taker_order).side
                        == OrderSide::Sell ==> trades@[t].price.raw >= taker_price.raw),
                forall|u: u128|
                    #[trigger] crate::orderbook::has_user(self.user_balances@, u)
                        == crate::orderbook::has_user(old(self).user_balances@, u),
                ({
                    let m0 = spec_match(
                        side_model(old(self).book_side(maker_side)),
                        old(taker_order).remaining_quantity.raw as int,
                        taker_side,
                        Some(taker_price),
                    );
                    let mc = spec_match(
                        side_model(self.book_side(maker_side)),
                        taker_order.remaining_quantity.raw as int,
                        taker_side,
                        Some(taker_price),
                    );
                    &&& m0.0.len() >= trades@.len()
                    &&& m0.0 == m0.0.take(trades@.len() as int) + mc.0
                    &&& trade_models(trades@) == fill_trades(m0.0.take(trades@.len() as int))
                    &&& m0.1 == mc.1
                    &&& m0.2 == mc.2
                    &&& spec_fills_deltas(
                        *old(self),
                        *self,
                        old(taker_order).user_id,
                        taker_side,
                        Some(taker_price),
                        old(taker_order).remaining_quantity,
                        taker_order.remaining_quantity,
                        m0.0.take(trades@.len() as int),
                    )
                }),
            ensures
                self.wf(),
                taker_order.remaining_quantity.raw == 0 || aborted || match taker_side {
                    OrderSide::Buy => self.asks@.len() == 0 || self.asks@[0].price.raw
                        > taker_price.raw,
                    OrderSide::Sell => self.bids@.len() == 0 || self.bids@[0].price.raw
                        < taker_price.raw,
                },
                aborted ==> ({
                    let opp = self.book_side(maker_side);
                    &&& taker_order.remaining_quantity.raw > 0
                    &&& opp.len() > 0
                    &&& opp[0].orders@.len() > 0
                    &&& spec_crosses(taker_side, Some(taker_price), opp[0].price)
                    &&& !crate::settlement::spec_settle_feasible(
                        *self,
                        taker_order.user_id,
                        opp[0].orders@[0].user_id,
                        opp[0].price,
                        spec_min_qty(
                            taker_order.remaining_quantity,
                            opp[0].orders@[0].remaining_quantity,
                        ),
                        taker_side,
                        TakerFunding::Reserved {
                            limit: taker_price,
                            rem_before: taker_order.remaining_quantity,
                        },
                        opp[0].orders@[0].remaining_quantity,
                    )
                }),
            decreases taker_order.remaining_quantity.raw,
        {
            let ghost loop_pre: OrderBook = *self;
            let ghost rem_pre: Quantity = taker_order.remaining_quantity;
            let best_price: Price = match maker_side {
                OrderSide::Sell => {
                    if self.asks.len() == 0 {
                        break ;
                    }
                    self.asks[0].price
                },
                OrderSide::Buy => {
                    if self.bids.len() == 0 {
                        break ;
                    }
                    self.bids[0].price
                },
            };
            match taker_side {
                OrderSide::Buy => {
                    if best_price.raw() > taker_price.raw() {
                        break ;
                    }
                },
                OrderSide::Sell => {
                    if best_price.raw() < taker_price.raw() {
                        break ;
                    }
                },
            }
            proof {
                assert(level_wf(self.book_side(maker_side)[0], maker_side));
            }
            let (maker_id, maker_user_id, maker_rem): (u128, u128, Quantity) = match maker_side {
                OrderSide::Sell => (
                    self.asks[0].orders[0].id,
                    self.asks[0].orders[0].user_id,
                    self.asks[0].orders[0].remaining_quantity,
                ),
                OrderSide::Buy => (
                    self.bids[0].orders[0].id,
                    self.bids[0].orders[0].user_id,
                    self.bids[0].orders[0].remaining_quantity,
                ),
            };
            let fill: Quantity = if taker_order.remaining_quantity.raw()
                <= maker_rem.raw() {
                taker_order.remaining_quantity
            } else {
                maker_rem
            };
            let trade = Trade::new(
                maker_id,
                taker_order.id,
                maker_user_id,
                taker_order.user_id,
                best_price,
                fill,
            );
            let funding = TakerFunding::Reserved {
                limit: taker_price,
                rem_before: taker_order.remaining_quantity,
            };
            let ghost pre_settle: OrderBook = *self;
            let settled = self.execute_trade_settlement(
                &trade,
                taker_side,
                &funding,
                maker_rem,
            );
            match settled {
                Ok(()) => {
                    proof {
                        crate::orderbook::lemma_wf_transfer(pre_settle, *self);
                    }
                },
                Err(_) => {
                    proof {
                        crate::orderbook::lemma_wf_transfer(pre_settle, *self);
                        assert(self.book_side(maker_side) == loop_pre.book_side(maker_side));
                        let m0 = spec_match(
                            side_model(old(self).book_side(maker_side)),
                            old(taker_order).remaining_quantity.raw as int,
                            taker_side,
                            Some(taker_price),
                        );
                        lemma_fills_deltas_same_balances(
                            *old(self),
                            pre_settle,
                            *self,
                            old(taker_order).user_id,
                            taker_side,
                            Some(taker_price),
                            old(taker_order).remaining_quantity,
                            taker_order.remaining_quantity,
                            m0.0.take(trades@.len() as int),
                        );
                        assert(!crate::settlement::spec_settle_feasible(
                            pre_settle,
                            trade.taker_user_id,
                            trade.maker_user_id,
                            trade.price,
                            trade.quantity,
                            taker_side,
                            funding,
                            maker_rem,
                        ));
                        assert(self.user_balances@ == pre_settle.user_balances@);
                    }
                    aborted = true;
                    break ;
                },
            }
            let ghost post_settle: OrderBook = *self;
            taker_order.fill(fill);
            self.fill_best(maker_side, fill);
            proof {
                lemma_sum_trade_qty_push(trades@, trade);
            }
            trades.push(trade);
            proof {
                lemma_match_step(
                    loop_pre,
                    *self,
                    rem_pre,
                    taker_order.remaining_quantity,
                    maker_side,
                    taker_side,
                    Some(taker_price),
                    trade,
                );
                let ghost maker_rem0 = loop_pre.book_side(maker_side)[0].orders@[0].remaining_quantity;
                let ghost f5 = (
                    trade.maker_order_id,
                    trade.maker_user_id,
                    trade.price,
                    trade.quantity,
                    maker_rem0,
                );
                let ma = side_model(loop_pre.book_side(maker_side));
                let m0 = spec_match(
                    side_model(old(self).book_side(maker_side)),
                    old(taker_order).remaining_quantity.raw as int,
                    taker_side,
                    Some(taker_price),
                );
                let m_here = spec_match(ma, rem_pre.raw as int, taker_side, Some(taker_price));
                let mc = spec_match(
                    side_model(self.book_side(maker_side)),
                    taker_order.remaining_quantity.raw as int,
                    taker_side,
                    Some(taker_price),
                );
                let n = (trades@.len() - 1) as int;
                assert(m_here.0 == seq![f5] + mc.0);
                // One more fill of the specification's list is done.
                assert(m0.0 == m0.0.take(n) + m_here.0);
                assert(m_here.0.len() >= 1);
                assert(m0.0.take(n).len() == n);
                assert(m0.0.len() >= n + 1);
                assert(m0.0 == m0.0.take(n) + (seq![f5] + mc.0));
                assert(m0.0[n] == (m0.0.take(n) + (seq![f5] + mc.0))[n]);
                assert((m0.0.take(n) + (seq![f5] + mc.0))[n] == (seq![f5] + mc.0)[0]);
                assert((seq![f5] + mc.0)[0] == f5);
                assert(m0.0[n] == f5);
                assert(m0.0.take(n + 1) =~= m0.0.take(n).push(f5));
                assert(m0.0.take(n).push(f5) + mc.0 =~= (m0.0.take(n) + (seq![f5] + mc.0)));
                assert(fill_trades(m0.0.take(n + 1)) =~= fill_trades(m0.0.take(n)).push(
                    (f5.0, f5.1, f5.2, f5.3),
                ));
                assert(trade_models(trades@) =~= trade_models(trades@.drop_last()).push(
                    (trade.maker_order_id, trade.maker_user_id, trade.price, trade.quantity),
                ));
                // The balances moved by exactly this fill's settlement legs.
                lemma_fills_deltas_step(
                    *old(self),
                    pre_settle,
                    post_settle,
                    old(taker_order).user_id,
                    taker_side,
                    Some(taker_price),
                    old(taker_order).remaining_quantity,
                    rem_pre,
                    taker_order.remaining_quantity,
                    m0.0.take(n),
                    f5,
                    funding,
                );
                lemma_fills_deltas_same_balances(
                    *old(self),
                    post_settle,
                    *self,
                    old(taker_order).user_id,
                    taker_side,
                    Some(taker_price),
                    old(taker_order).remaining_quantity,
                    taker_order.remaining_quantity,
                    m0.0.take(n).push(f5),
                );
            }
        }
        proof {
            let m0 = spec_match(
                side_model(old(self).book_side(maker_side)),
                old(taker_order).remaining_quantity.raw as int,
                taker_side,
                Some(taker_price),
            );
            let mc = spec_match(
                side_model(self.book_side(maker_side)),
                taker_order.remaining_quantity.raw as int,
                taker_side,
                Some(taker_price),
            );
            if !aborted {
                assert(mc.0 =~= Seq::<(u128, u128, Price, Quantity, Quantity)>::empty());
                assert(m0.0.take(trades@.len() as int) + mc.0 =~= m0.0.take(
                    trades@.len() as int,
                ));
                assert(m0.0 =~= m0.0.take(trades@.len() as int));
            } else {
                assert(mc.0.len() >= 1);
            }
        }
        (trades, aborted)
    }

    /// Match an incoming order under price-time priority; what trades, at
    /// which prices, and what the book holds afterwards is exactly what
    /// `spec_match` dictates. A limit order trades while it crosses, then
    /// rests with any remainder (unless the run was cut short, or the
    /// remainder's level cannot absorb it, in which case the reservation
    /// is refunded instead). A market order trades until filled or the
    /// opposite side is exhausted, which fails with
    /// `InsufficientLiquidity`; fills already made stand. Settlement moves
    /// value between users only, so both venue totals are unchanged.
    #[verifier::rlimit(100)]
    pub fn match_order(&mut self, order: Order) -> (r: Result<Vec<Trade>, BookError>)
        requires
            old(self).wf(),
            order.remaining_quantity.raw > 0,
            order.remaining_quantity == order.original_quantity,
            order.status == OrderStatus::Open,
            order.order_type == OrderType::Limit ==> order.price is Some && !old(self).resting(
                order.id,
            ),
            order.order_type == OrderType::Market ==> order.price is None,
        ensures
            final(self).wf(),
            final(self).total_usd == old(self).total_usd,
            final(self).total_btc == old(self).total_btc,
            order.order_type == OrderType::Limit ==> r is Ok,
            order.order_type == OrderType::Limit ==> (r matches Ok(trades) ==> (trades@.len() == 0
                && final(self).resting(order.id) ==> final(self).user_balances@ == old(
                self,
            ).user_balances@)),
            r matches Ok(trades) ==> forall|t: int|
                0 <= t < trades@.len() ==> (#[trigger] trades@[t]).taker_order_id == order.id
                    && trades@[t].taker_user_id == order.user_id && trades@[t].quantity.raw > 0 && (
                order.order_type == OrderType::Limit && order.side == OrderSide::Buy
                    ==> trades@[t].price.raw <= order.price.unwrap().raw) && (order.order_type
                    == OrderType::Limit && order.side == OrderSide::Sell ==> trades@[t].price.raw
                    >= order.price.unwrap().raw),
            r matches Err(e) ==> (e == BookError::InsufficientLiquidity
                || e == BookError::InsufficientBalance) && order.order_type == OrderType::Market,
            order.order_type == OrderType::Limit ==> (r matches Ok(trades) ==> ({
                let m = spec_match(
                    side_model(old(self).book_side(order.side.spec_opposite())),
                    order.remaining_quantity.raw as int,
                    order.side,
                    order.price,
                );
                ||| ({
                    &&& trade_models(trades@) == fill_trades(m.0)
                    &&& side_model(final(self).book_side(order.side.spec_opposite())) == m.1
                    &&& (m.2 == 0 ==> final(self).book_side(order.side) == old(self).book_side(
                        order.side,
                    ) && !final(self).resting(order.id) && spec_fills_deltas(
                        *old(self),
                        *final(self),
                        order.user_id,
                        order.side,
                        order.price,
                        order.remaining_quantity,
                        Quantity { raw: m.2 as u64 },
                        m.0,
                    ))
                    &&& (m.2 > 0 ==> ({
                        let rested = Order {
                            remaining_quantity: Quantity { raw: m.2 as u64 },
                            status: if m.2 == order.original_quantity.raw as int {
                                OrderStatus::Open
                            } else {
                                OrderStatus::PartiallyFilled
                            },
                            ..order
                        };
                        ||| (crate::orderbook::side_after_add(
                            old(self).book_side(order.side),
                            final(self).book_side(order.side),
                            rested,
                        ) && final(self).resting(order.id) && spec_fills_deltas(
                            *old(self),
                            *final(self),
                            order.user_id,
                            order.side,
                            order.price,
                            order.remaining_quantity,
                            Quantity { raw: m.2 as u64 },
                            m.0,
                        ))
                        ||| (!crate::orderbook::side_can_absorb(
                            old(self).book_side(order.side),
                            order.price.unwrap(),
                            m.2,
                        ) && final(self).book_side(order.side) == old(self).book_side(order.side)
                            && !final(self).resting(order.id))
                    }))
                })
                ||| ({
                    &&& trades@.len() < m.0.len()
                    &&& trade_models(trades@) == fill_trades(m.0.take(trades@.len() as int))
                    &&& final(self).book_side(order.side) == old(self).book_side(order.side)
                    &&& !final(self).resting(order.id)
                    &&& ({
                        let opp = final(self).book_side(order.side.spec_opposite());
                        let rem_q = Quantity {
                            raw: (order.original_quantity.raw - sum_trade_qty(trades@)) as u64,
                        };
                        &&& opp.len() > 0
                        &&& opp[0].orders@.len() > 0
                        &&& spec_crosses(order.side, order.price, opp[0].price)
                        &&& !crate::settlement::spec_settle_feasible(
                            *final(self),
                            order.user_id,
                            opp[0].orders@[0].user_id,
                            opp[0].price,
                            spec_min_qty(rem_q, opp[0].orders@[0].remaining_quantity),
                            order.side,
                            TakerFunding::Reserved {
                                limit: order.price.unwrap(),
                                rem_before: rem_q,
                            },
                            opp[0].orders@[0].remaining_quantity,
                        )
                    })
                })
            })),
            order.order_type == OrderType::Market ==> ({
                let m = spec_match(
                    side_model(old(self).book_side(order.side.spec_opposite())),
                    order.remaining_quantity.raw as int,
                    order.side,
                    None,
                );
                &&& final(self).book_side(order.side) == old(self).book_side(order.side)
                &&& (r matches Ok(trades) ==> trade_models(trades@) == fill_trades(m.0)
                    && side_model(final(self).book_side(order.side.spec_opposite())) == m.1
                    && m.2 == 0 && spec_fills_deltas(
                    *old(self),
                    *final(self),
                    order.user_id,
                    order.side,
                    None,
                    order.remaining_quantity,
                    Quantity { raw: 0 },
                    m.0,
                ))
                &&& (r == Err::<Vec<Trade>, BookError>(BookError::InsufficientLiquidity)
                    ==> side_model(final(self).book_side(order.side.spec_opposite())) == m.1
                        && m.1.len() == 0 && m.2 > 0 && spec_fills_deltas(
                    *old(self),
                    *final(self),
                    order.user_id,
                    order.side,
                    None,
                    order.remaining_quantity,
                    Quantity { raw: m.2 as u64 },
                    m.0,
                ))
            }),
    {
        match order.order_type {
            OrderType::Limit => {
                let mut taker = order;
                let (trades, aborted) = self.match_limit_order(&mut taker);
                let ghost mid: OrderBook = *self;
                if !taker.is_fully_filled() {
                    let price: Price = match taker.price {
                        Some(p) => p,
                        None => {
                            proof {
                                assert(false);
                            }
                            Price::new(0)
                        },
                    };
                    if !aborted && self.level_volume_fits(
                        taker.side,
                        price,
                        taker.remaining_quantity,
                    ) {
                        proof {
                            let m = spec_match(
                                side_model(old(self).book_side(order.side.spec_opposite())),
                                order.remaining_quantity.raw as int,
                                order.side,
                                order.price,
                            );
                            let rested = Order {
                                remaining_quantity: Quantity { raw: m.2 as u64 },
                                status: if m.2 == order.original_quantity.raw as int {
                                    OrderStatus::Open
                                } else {
                                    OrderStatus::PartiallyFilled
                                },
                                ..order
                            };
                            assert(taker == rested);
                        }
                        self.add_order(taker);
                    } else {
                        // The remainder cannot rest; hand its reservation
                        // back instead of leaving funds locked.
                        let ghost pre_refund: OrderBook = *self;
                        self.refund_remainder(
                            taker.user_id,
                            taker.side,
                            price,
                            taker.remaining_quantity,
                        );
                        proof {
                            crate::orderbook::lemma_wf_transfer(pre_refund, *self);
                            if !aborted {
                                assert(!crate::orderbook::side_can_absorb(
                                    old(self).book_side(order.side),
                                    order.price.unwrap(),
                                    taker.remaining_quantity.raw as int,
                                ));
                            }
                            if aborted {
                                // The refund only shrinks the taker's locked
                                // funding bucket, so the leg that could not
                                // pay still cannot.
                                let opp = self.book_side(order.side.spec_opposite());
                                let head = opp[0].orders@[0];
                                let rem_q = taker.remaining_quantity;
                                let fsb = crate::settlement::spec_settle_feasible(
                                    *self,
                                    order.user_id,
                                    head.user_id,
                                    opp[0].price,
                                    spec_min_qty(rem_q, head.remaining_quantity),
                                    order.side,
                                    TakerFunding::Reserved {
                                        limit: order.price.unwrap(),
                                        rem_before: rem_q,
                                    },
                                    head.remaining_quantity,
                                );
                                assert(opp == pre_refund.book_side(order.side.spec_opposite()));
                                if fsb {
                                    assert(has_user(pre_refund.user_balances@, order.user_id));
                                    if head.user_id != order.user_id {
                                        assert(crate::orderbook::balance_of(
                                            self.user_balances@,
                                            head.user_id,
                                        ) == crate::orderbook::balance_of(
                                            pre_refund.user_balances@,
                                            head.user_id,
                                        ));
                                    }
                                    assert(crate::settlement::spec_settle_feasible(
                                        pre_refund,
                                        order.user_id,
                                        head.user_id,
                                        opp[0].price,
                                        spec_min_qty(rem_q, head.remaining_quantity),
                                        order.side,
                                        TakerFunding::Reserved {
                                            limit: order.price.unwrap(),
                                            rem_before: rem_q,
                                        },
                                        head.remaining_quantity,
                                    ));
                                    assert(false);
                                }
                            }
                        }
                    }
                }
                Ok(trades)
            },
            OrderType::Market => {
                let mut taker = order;
                self.match_market_order(&mut taker)
            },
        }
    }
}

} // verus!
