use vstd::prelude::*;

use crate::balance::{Currency, UserBalance};
use crate::errors::BookError;
use crate::order::{Order, OrderSide};
use crate::orderbook::OrderBook;
use crate::price::Price;
use crate::quantity::Quantity;
use crate::settlement::usd_value;
use crate::trade::Trade;

verus! {

/// Commands sent from request handlers to the engine; replies travel back
/// on per-request channels that the surrounding process owns.
pub enum OrderBookCommand {
    PlaceLimitOrder { user_id: u128, side: OrderSide, price: Price, quantity: Quantity },
    PlaceMarketOrder { user_id: u128, side: OrderSide, quantity: Quantity },
    CancelOrder { user_id: u128, order_id: u128 },
    GetOrderBook { depth: usize },
    GetUserBalance { user_id: u128 },
    AddFunds { user_id: u128, currency: String, amount: u64 },
}

/// Replies from the engine, one variant per command plus a shared error.
pub enum OrderBookResponse {
    OrderPlaced { order_id: u128, trades: Vec<Trade>, status: String },
    OrderCancelled { order_id: u128, success: bool },
    OrderBookDepth { bids: Vec<(Price, Quantity)>, asks: Vec<(Price, Quantity)> },
    UserBalance { balance: UserBalance },
    FundsAdded { user_id: u128, currency: String, new_balance: u64 },
    Error { message: String },
}

/// Execute one command against the book, strictly sequentially: validate,
/// reserve, match or mutate, and build the reply. Placing, matching and
/// cancelling never create or destroy value: both venue totals are
/// unchanged by every command except a deposit.
#[verifier::rlimit(100)]
#[verifier::spinoff_prover]
pub fn process_command(book: &mut OrderBook, command: OrderBookCommand) -> (r: OrderBookResponse)
    requires
        old(book).wf(),
    ensures
        final(book).wf(),
        !(command matches OrderBookCommand::AddFunds { .. }) ==> final(book).total_usd
            == old(book).total_usd && final(book).total_btc == old(book).total_btc,
        command matches OrderBookCommand::PlaceLimitOrder { user_id, side, price, quantity } ==> {
            &&& quantity.raw == 0 ==> (r matches OrderBookResponse::Error { message } ==> message@
                == "Amount must be positive"@) && (r matches OrderBookResponse::Error { .. })
                && *final(book) == *old(book)
            &&& (r matches OrderBookResponse::OrderPlaced { order_id, trades, status } ==> (status@
                == "Matched"@ || status@ == "Added to book"@) && (status@ == "Matched"@
                <==> trades@.len() > 0) && forall|t: int|
                0 <= t < trades@.len() ==> ((#[trigger] trades@[t]).taker_user_id == user_id && (
                side == OrderSide::Buy ==> trades@[t].price.raw <= price.raw) && (side
                    == OrderSide::Sell ==> trades@[t].price.raw >= price.raw)))
            &&& (r matches OrderBookResponse::OrderPlaced { order_id: oid, trades, status } ==> (
            status@ == "Added to book"@ && final(book).resting(oid) ==> ({
                let ccy = crate::matching::refund_currency(side);
                let owed = crate::matching::spec_refund_owed(side, price, quantity);
                &&& crate::orderbook::avail_of(*final(book), user_id, ccy)
                    == crate::orderbook::avail_of(*old(book), user_id, ccy) - owed
                &&& crate::orderbook::locked_of(*final(book), user_id, ccy)
                    == crate::orderbook::locked_of(*old(book), user_id, ccy) + owed
                &&& crate::orderbook::avail_of(*final(book), user_id, ccy.spec_other())
                    == crate::orderbook::avail_of(*old(book), user_id, ccy.spec_other())
                &&& crate::orderbook::locked_of(*final(book), user_id, ccy.spec_other())
                    == crate::orderbook::locked_of(*old(book), user_id, ccy.spec_other())
                &&& forall|u: u128|
                    u != user_id && crate::orderbook::has_user(old(book).user_balances@, u)
                        ==> crate::orderbook::balance_of(final(book).user_balances@, u)
                        == crate::orderbook::balance_of(old(book).user_balances@, u)
            })))
            &&& (quantity.raw > 0 && !(crate::orderbook::has_user(
                old(book).user_balances@,
                user_id,
            ) && crate::matching::spec_refund_owed(side, price, quantity)
                <= crate::orderbook::avail_of(
                *old(book),
                user_id,
                crate::matching::refund_currency(side),
            )) ==> (r matches OrderBookResponse::Error { .. }) && (r matches
            OrderBookResponse::Error { message } ==> (side == OrderSide::Buy ==> message@
                == "Insufficient USD balance"@) && (side == OrderSide::Sell ==> message@
                == "Insufficient BTC balance"@)) && crate::orderbook::same_balances(
                *old(book),
                *final(book),
            ) && crate::orderbook::self_unchanged_but_balances(*old(book), *final(book)))
            &&& (quantity.raw > 0 && crate::orderbook::has_user(old(book).user_balances@, user_id)
                && crate::matching::spec_refund_owed(side, price, quantity)
                <= crate::orderbook::avail_of(
                *old(book),
                user_id,
                crate::matching::refund_currency(side),
            ) ==> ((r matches OrderBookResponse::OrderPlaced { .. }) || (r matches
            OrderBookResponse::Error { .. })) && (r matches OrderBookResponse::Error { message }
                ==> message@ == "Order id collision"@ && old(book).orders@.len() > 0
                && crate::orderbook::self_unchanged_but_balances(
                *old(book),
                *final(book),
            ) && (forall|u: u128|
                crate::orderbook::has_user(old(book).user_balances@, u)
                    ==> #[trigger] crate::orderbook::balance_of(final(book).user_balances@, u)
                    == crate::orderbook::balance_of(old(book).user_balances@, u))))
            &&& (quantity.raw > 0 ==> (r matches OrderBookResponse::OrderPlaced {
                order_id: oid,
                trades,
                status,
            } ==> ({
                let m = crate::matching::spec_match(
                    crate::matching::side_model(old(book).book_side(side.spec_opposite())),
                    quantity.raw as int,
                    side,
                    Some(price),
                );
                trades@.len() == m.0.len() ==> ({
                    &&& crate::matching::trade_models(trades@) == crate::matching::fill_trades(m.0)
                    &&& crate::matching::side_model(final(book).book_side(side.spec_opposite()))
                        == m.1
                    &&& (m.2 == 0 || final(book).resting(oid)
                        ==> crate::matching::spec_place_deltas(
                        *old(book),
                        *final(book),
                        user_id,
                        side,
                        price,
                        quantity,
                        Quantity { raw: m.2 as u64 },
                        m.0,
                    ))
                })
            })))
        },
        command matches OrderBookCommand::PlaceMarketOrder { user_id, side, quantity } ==> {
            &&& quantity.raw == 0 ==> (r matches OrderBookResponse::Error { message } ==> message@
                == "Amount must be positive"@) && (r matches OrderBookResponse::Error { .. })
                && *final(book) == *old(book)
            &&& (r matches OrderBookResponse::OrderPlaced { order_id, trades, status } ==> (status@
                == "Filled"@ || status@ == "No liquidity"@) && forall|t: int|
                0 <= t < trades@.len() ==> (#[trigger] trades@[t]).taker_user_id == user_id)
            &&& (quantity.raw > 0 ==> ((r matches OrderBookResponse::OrderPlaced { .. }) || (r
            matches OrderBookResponse::Error { message } && (message@
                == "Insufficient liquidity for market order"@ || message@
                == "Insufficient balance"@))))
            &&& (quantity.raw > 0 ==> (r matches OrderBookResponse::OrderPlaced { trades, .. }
                ==> ({
                let m = crate::matching::spec_match(
                    crate::matching::side_model(old(book).book_side(side.spec_opposite())),
                    quantity.raw as int,
                    side,
                    None,
                );
                &&& crate::matching::trade_models(trades@) == crate::matching::fill_trades(m.0)
                &&& crate::matching::side_model(
                    final(book).book_side(side.spec_opposite()),
                ) == m.1
                &&& m.2 == 0
                &&& crate::matching::spec_fills_deltas(
                    *old(book),
                    *final(book),
                    user_id,
                    side,
                    None,
                    quantity,
                    Quantity { raw: 0 },
                    m.0,
                )
            })))
            &&& (quantity.raw > 0 ==> (r matches OrderBookResponse::Error { message }
                ==> (message@ == "Insufficient liquidity for market order"@ ==> ({
                let m = crate::matching::spec_match(
                    crate::matching::side_model(old(book).book_side(side.spec_opposite())),
                    quantity.raw as int,
                    side,
                    None,
                );
                &&& crate::matching::side_model(
                    final(book).book_side(side.spec_opposite()),
                ) == m.1
                &&& m.1.len() == 0
                &&& m.2 > 0
                &&& crate::matching::spec_fills_deltas(
                    *old(book),
                    *final(book),
                    user_id,
                    side,
                    None,
                    quantity,
                    Quantity { raw: m.2 as u64 },
                    m.0,
                )
            }))))
        },
        command matches OrderBookCommand::CancelOrder { user_id, order_id } ==> {
            &&& !old(book).resting(order_id) ==> (r matches OrderBookResponse::Error { message }
                ==> message@ == "Order not found"@) && (r matches OrderBookResponse::Error { .. })
                && *final(book) == *old(book)
            &&& (old(book).resting(order_id) && old(book).resting_order(order_id).user_id
                == user_id ==> r matches OrderBookResponse::OrderCancelled { .. })
            &&& (old(book).resting(order_id) && (r matches OrderBookResponse::Error { .. }))
                ==> *final(book) == *old(book)
            &&& (r matches OrderBookResponse::OrderCancelled { order_id: oid, success }
                ==> oid == order_id && success && old(book).resting(order_id)
                    && !final(book).resting(order_id))
            &&& (old(book).wf() && old(book).resting(order_id) && old(book).resting_order(
                order_id,
            ).user_id != user_id ==> (r matches OrderBookResponse::Error { message } ==> message@
                == "Not authorized to cancel this order"@) && (r matches OrderBookResponse::Error {
                ..
            }) && *final(book) == *old(book))
            &&& (r matches OrderBookResponse::OrderCancelled { .. } ==> ({
                let o = old(book).resting_order(order_id);
                let ccy = crate::matching::refund_currency(o.side);
                let owed = crate::matching::spec_refund_owed(
                    o.side,
                    o.price.unwrap(),
                    o.remaining_quantity,
                );
                let held = crate::orderbook::locked_of(*old(book), o.user_id, ccy);
                let moved = if owed <= held {
                    owed
                } else {
                    held
                };
                &&& o.user_id == user_id
                &&& crate::orderbook::locked_of(*final(book), o.user_id, ccy) == held - moved
                &&& crate::orderbook::avail_of(*final(book), o.user_id, ccy)
                    == crate::orderbook::avail_of(*old(book), o.user_id, ccy) + moved
                &&& forall|u: u128|
                    u != o.user_id && crate::orderbook::has_user(old(book).user_balances@, u)
                        ==> crate::orderbook::balance_of(final(book).user_balances@, u)
                        == crate::orderbook::balance_of(old(book).user_balances@, u)
            }))
        },
        command matches OrderBookCommand::GetOrderBook { depth } ==> *final(book) == *old(book)
            && (r matches OrderBookResponse::OrderBookDepth { .. }) && (r matches
            OrderBookResponse::OrderBookDepth { bids, asks } ==> bids@.len() == (if depth
            <= old(book).bids@.len() {
            depth as int
        } else {
            old(book).bids@.len() as int
        }) && asks@.len() == (if depth <= old(book).asks@.len() {
            depth as int
        } else {
            old(book).asks@.len() as int
        }) && (forall|i: int|
            0 <= i < bids@.len() ==> bids@[i] == ((#[trigger] old(book).bids@[i]).price, old(
                book,
            ).bids@[i].total_volume)) && (forall|i: int|
            0 <= i < asks@.len() ==> asks@[i] == ((#[trigger] old(book).asks@[i]).price, old(
                book,
            ).asks@[i].total_volume)) && (forall|i: int, j: int|
            0 <= i < j < bids@.len() ==> bids@[i].0.raw > bids@[j].0.raw) && (forall|i: int, j: int|
            0 <= i < j < asks@.len() ==> asks@[i].0.raw < asks@[j].0.raw)),
        command matches OrderBookCommand::GetUserBalance { user_id } ==> *final(book) == *old(book)
            && (crate::orderbook::has_user(old(book).user_balances@, user_id) ==> r matches
            OrderBookResponse::UserBalance { .. }) && (!crate::orderbook::has_user(
            old(book).user_balances@,
            user_id,
        ) ==> (r matches OrderBookResponse::Error { message } ==> message@ == "User not found"@)
            && (r matches OrderBookResponse::Error { .. })) && (r matches
            OrderBookResponse::UserBalance { balance } ==> crate::orderbook::has_user(
            old(book).user_balances@,
            user_id,
        ) && balance == crate::orderbook::balance_of(old(book).user_balances@, user_id)),
        command matches OrderBookCommand::AddFunds { user_id, currency, amount } ==> {
            &&& (currency@ != "USD"@ && currency@ != "BTC"@) ==> (r matches
                OrderBookResponse::Error { message } ==> message@
                == "Currency must be 'USD' or 'BTC'"@) && (r matches OrderBookResponse::Error {
                ..
            }) && *final(book) == *old(book)
            &&& ((currency@ == "USD"@ || currency@ == "BTC"@) && amount == 0) ==> (r matches
                OrderBookResponse::Error { message } ==> message@ == "Amount must be positive"@)
                && (r matches OrderBookResponse::Error { .. }) && *final(book) == *old(book)
            &&& ((currency@ == "USD"@ || currency@ == "BTC"@) && amount > 0 && old(book).spec_total(
                match Currency::from_code_spec(currency@) {
                    Some(c) => c,
                    None => Currency::Usd,
                },
            ) + amount <= u64::MAX ==> r matches OrderBookResponse::FundsAdded { .. })
            &&& ((currency@ == "USD"@ || currency@ == "BTC"@) && amount > 0 && old(book).spec_total(
                match Currency::from_code_spec(currency@) {
                    Some(c) => c,
                    None => Currency::Usd,
                },
            ) + amount > u64::MAX ==> (r matches OrderBookResponse::Error { message } ==> message@
                == "Amount out of range"@) && (r matches OrderBookResponse::Error { .. }))
            &&& (r matches OrderBookResponse::FundsAdded { user_id: uid, new_balance, .. }
                ==> uid == user_id && amount > 0 && new_balance == crate::orderbook::avail_of(
                *old(book),
                user_id,
                match Currency::from_code_spec(currency@) {
                    Some(c) => c,
                    None => Currency::Usd,
                },
            ) + amount)
        },
{
    match command {
        OrderBookCommand::PlaceLimitOrder { user_id, side, price, quantity } => {
            if quantity.is_zero() {
                return OrderBookResponse::Error { message: BookError::NonPositiveAmount.message() };
            }
            // Reserve the order's full value up front: price times quantity
            // in USD for a buy, the quantity itself in BTC for a sell.
            let ghost pre_lock: OrderBook = *book;
            match side {
                OrderSide::Buy => {
                    let needed: u128 = usd_value(price, quantity);
                    let enough: bool = if needed > u64::MAX as u128 {
                        false
                    } else {
                        match book.lock_funds(user_id, Currency::Usd, needed as u64) {
                            Ok(()) => true,
                            Err(_) => false,
                        }
                    };
                    if !enough {
                        proof {
                            crate::orderbook::lemma_wf_transfer(pre_lock, *book);
                        }
                        return OrderBookResponse::Error {
                            message: insufficient_message(OrderSide::Buy),
                        };
                    }
                },
                OrderSide::Sell => {
                    match book.lock_funds(user_id, Currency::Btc, quantity.raw()) {
                        Ok(()) => {},
                        Err(_) => {
                            proof {
                                crate::orderbook::lemma_wf_transfer(pre_lock, *book);
                            }
                            return OrderBookResponse::Error {
                                message: insufficient_message(OrderSide::Sell),
                            };
                        },
                    }
                },
            }
            proof {
                crate::orderbook::lemma_wf_transfer(pre_lock, *book);
            }
            let ghost pre_match: OrderBook = *book;
            let order = Order::new_limit(user_id, side, price, quantity);
            let order_id = order.id;
            let collision: bool = match book.get_order(order_id) {
                Some(_) => true,
                None => false,
            };
            if collision {
                // A freshly drawn id already rests: give the reservation
                // back and reject the command: the round trip through the
                // locked bucket returns every user's balances exactly.
                let ghost mid: OrderBook = *book;
                book.refund_remainder(user_id, side, price, quantity);
                proof {
                    crate::orderbook::lemma_resting_has_entry(pre_match, order_id);
                    let ccy = crate::matching::refund_currency(side);
                    let owed = crate::matching::spec_refund_owed(side, price, quantity);
                    assert(crate::orderbook::locked_of(mid, user_id, ccy)
                        >= owed);
                    assert forall|u: u128|
                        crate::orderbook::has_user(old(book).user_balances@, u)
                            implies #[trigger] crate::orderbook::balance_of(
                        book.user_balances@,
                        u,
                    ) == crate::orderbook::balance_of(old(book).user_balances@, u) by {
                        if u != user_id {
                            assert(crate::orderbook::balance_of(mid.user_balances@, u)
                                == crate::orderbook::balance_of(old(book).user_balances@, u));
                        } else {
                            assert(crate::orderbook::avail_of(*book, u, ccy)
                                == crate::orderbook::avail_of(*old(book), u, ccy));
                            assert(crate::orderbook::locked_of(*book, u, ccy)
                                == crate::orderbook::locked_of(*old(book), u, ccy));
                            assert(crate::orderbook::avail_of(*book, u, ccy.spec_other())
                                == crate::orderbook::avail_of(*old(book), u, ccy.spec_other()));
                            assert(crate::orderbook::locked_of(*book, u, ccy.spec_other())
                                == crate::orderbook::locked_of(*old(book), u, ccy.spec_other()));
                            assert(crate::orderbook::balance_of(book.user_balances@, u).user_id
                                == u);
                            assert(crate::orderbook::balance_of(old(book).user_balances@, u).user_id
                                == u);
                        }
                    }
                    crate::orderbook::lemma_wf_transfer(pre_match, *book);
                }
                return OrderBookResponse::Error { message: BookError::IdCollision.message() };
            }
            match book.match_order(order) {
                Ok(trades) => {
                    proof {
                        reveal_strlit("Matched");
                        reveal_strlit("Added to book");
                        assert("Matched"@.len() == 7 && "Added to book"@.len() == 13);
                        let m = crate::matching::spec_match(
                            crate::matching::side_model(old(book).book_side(side.spec_opposite())),
                            quantity.raw as int,
                            side,
                            Some(price),
                        );
                        crate::matching::lemma_spec_match_rem_bounds(
                            crate::matching::side_model(old(book).book_side(side.spec_opposite())),
                            quantity.raw as int,
                            side,
                            Some(price),
                        );
                        assert(pre_match.book_side(side.spec_opposite()) == old(book).book_side(
                            side.spec_opposite(),
                        ));
                        if trades@.len() == m.0.len() && (m.2 == 0 || book.resting(order_id)) {
                            assert forall|u: u128|
                                #[trigger] crate::orderbook::has_user(pre_match.user_balances@, u)
                                    == crate::orderbook::has_user(
                                    old(book).user_balances@,
                                    u,
                                ) by {
                                if u != user_id {
                                } else {
                                    assert(crate::orderbook::has_user(
                                        pre_match.user_balances@,
                                        user_id,
                                    ));
                                }
                            }
                            crate::matching::lemma_place_deltas(
                                *old(book),
                                pre_match,
                                *book,
                                user_id,
                                side,
                                price,
                                quantity,
                                Quantity { raw: m.2 as u64 },
                                m.0,
                            );
                        }
                    }
                    let status: String = if trades.len() == 0 {
                        "Added to book".to_owned()
                    } else {
                        "Matched".to_owned()
                    };
                    OrderBookResponse::OrderPlaced { order_id, trades, status }
                },
                Err(e) => {
                    proof {
                        assert(false);
                    }
                    OrderBookResponse::Error { message: e.message() }
                },
            }
        },
        OrderBookCommand::PlaceMarketOrder { user_id, side, quantity } => {
            if quantity.is_zero() {
                return OrderBookResponse::Error { message: BookError::NonPositiveAmount.message() };
            }
            // Market orders reserve nothing up front; settlement debits
            // free balances per fill and a shortfall halts the matching.
            let order = Order::new_market(user_id, side, quantity);
            let order_id = order.id;
            proof {
                crate::matching::lemma_spec_match_rem_bounds(
                    crate::matching::side_model(old(book).book_side(side.spec_opposite())),
                    quantity.raw as int,
                    side,
                    None,
                );
            }
            match book.match_order(order) {
                Ok(trades) => {
                    let status: String = if trades.len() == 0 {
                        "No liquidity".to_owned()
                    } else {
                        "Filled".to_owned()
                    };
                    OrderBookResponse::OrderPlaced { order_id, trades, status }
                },
                Err(e) => {
                    proof {
                        reveal_strlit("Insufficient liquidity for market order");
                        reveal_strlit("Insufficient balance");
                        assert("Insufficient liquidity for market order"@.len() == 39);
                        assert("Insufficient balance"@.len() == 20);
                    }
                    OrderBookResponse::Error { message: e.message() }
                },
            }
        },
        OrderBookCommand::CancelOrder { user_id, order_id } => {
            // Ownership is checked before anything is removed, so a
            // rejected cancel leaves the book exactly as it was.
            let owner: u128 = match book.get_order(order_id) {
                Some(o) => {
                    let ghost ov: Order = *o;
                    proof {
                        crate::orderbook::lemma_resting_to_order(*book, order_id);
                        crate::orderbook::lemma_resting_order_unique(
                            *book,
                            book.resting_order(order_id),
                            ov,
                        );
                    }
                    o.user_id
                },
                None => {
                    return OrderBookResponse::Error { message: BookError::NotFound.message() };
                },
            };
            if owner != user_id {
                return OrderBookResponse::Error { message: BookError::NotOwner.message() };
            }
            match book.cancel_order(order_id) {
                Ok(cancelled) => {
                    proof {
                        crate::orderbook::lemma_resting_to_order(*old(book), order_id);
                        crate::orderbook::lemma_resting_order_unique(
                            *old(book),
                            old(book).resting_order(order_id),
                            cancelled,
                        );
                    }
                    // Refund the reservation still held for the remainder.
                    let price: Price = match cancelled.price {
                        Some(p) => p,
                        None => {
                            proof {
                                assert(false);
                            }
                            Price::new(0)
                        },
                    };
                    let ghost pre_refund: OrderBook = *book;
                    book.refund_remainder(
                        cancelled.user_id,
                        cancelled.side,
                        price,
                        cancelled.remaining_quantity,
                    );
                    proof {
                        crate::orderbook::lemma_wf_transfer(pre_refund, *book);
                    }
                    OrderBookResponse::OrderCancelled { order_id, success: true }
                },
                Err(e) => {
                    proof {
                        assert(false);
                    }
                    OrderBookResponse::Error { message: e.message() }
                },
            }
        },
        OrderBookCommand::GetOrderBook { depth } => {
            let (bids, asks) = book.get_depth(depth);
            OrderBookResponse::OrderBookDepth { bids, asks }
        },
        OrderBookCommand::GetUserBalance { user_id } => {
            match book.get_user_balance(user_id) {
                Some(balance) => {
                    let b: UserBalance = *balance;
                    proof {
                        let i = choose|i: int|
                            0 <= i < book.user_balances@.len() && book.user_balances@[i] == b;
                        crate::orderbook::lemma_user_index_agrees(book.user_balances@, user_id, i);
                    }
                    OrderBookResponse::UserBalance { balance: b }
                },
                None => OrderBookResponse::Error { message: user_not_found_message() },
            }
        },
        OrderBookCommand::AddFunds { user_id, currency, amount } => {
            let c: Currency = match Currency::from_code(&currency) {
                Some(c) => c,
                None => {
                    return OrderBookResponse::Error {
                        message: BookError::InvalidCurrency.message(),
                    };
                },
            };
            if amount == 0 {
                return OrderBookResponse::Error { message: BookError::NonPositiveAmount.message() };
            }
            let ghost pre_add: OrderBook = *book;
            match book.add_funds(user_id, c, amount) {
                Ok(()) => {
                    let bal: UserBalance = match book.get_user_balance(user_id) {
                        Some(b) => *b,
                        None => {
                            proof {
                                assert(false);
                            }
                            UserBalance::new(user_id)
                        },
                    };
                    proof {
                        crate::orderbook::lemma_wf_transfer(pre_add, *book);
                        let i = choose|i: int|
                            0 <= i < book.user_balances@.len() && book.user_balances@[i] == bal;
                        crate::orderbook::lemma_user_index_agrees(book.user_balances@, user_id, i);
                    }
                    let new_balance: u64 = bal.get_balance(c);
                    OrderBookResponse::FundsAdded { user_id, currency, new_balance }
                },
                Err(e) => {
                    proof {
                        crate::orderbook::lemma_wf_transfer(pre_add, *book);
                    }
                    OrderBookResponse::Error { message: e.message() }
                },
            }
        },
    }
}

/// The reply message for a reservation shortfall in the order's funding
/// currency.
fn insufficient_message(side: OrderSide) -> (r: String)
    ensures
        side == OrderSide::Buy ==> r@ == "Insufficient USD balance"@,
        side == OrderSide::Sell ==> r@ == "Insufficient BTC balance"@,
{
    match side {
        OrderSide::Buy => "Insufficient USD balance".to_owned(),
        OrderSide::Sell => "Insufficient BTC balance".to_owned(),
    }
}

/// The reply message for a balance query about an unknown user.
fn user_not_found_message() -> (r: String)
    ensures
        r@ == "User not found"@,
{
    "User not found".to_owned()
}

} // verus!
