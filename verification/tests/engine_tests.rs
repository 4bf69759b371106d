use orderbook::balance::UserBalance;
use orderbook::engine::{process_command, OrderBookCommand, OrderBookResponse};
use orderbook::order::OrderSide;
use orderbook::orderbook::OrderBook;
use orderbook::price::{Price, PRICE_SCALE};
use orderbook::quantity::{Quantity, QTY_SCALE};
use orderbook::trade::Trade;

fn usd(dollars: u64) -> u64 {
    dollars * PRICE_SCALE
}

fn btc(coins: u64) -> u64 {
    coins * QTY_SCALE
}

fn deposit(book: &mut OrderBook, user: u128, currency: &str, amount: u64) {
    let r = process_command(
        book,
        OrderBookCommand::AddFunds { user_id: user, currency: currency.to_string(), amount },
    );
    match r {
        OrderBookResponse::FundsAdded { .. } => {}
        other => panic!("deposit failed: {:?}", response_kind(&other)),
    }
}

fn place_limit(
    book: &mut OrderBook,
    user: u128,
    side: OrderSide,
    price_dollars: u64,
    qty_coins: u64,
) -> OrderBookResponse {
    process_command(
        book,
        OrderBookCommand::PlaceLimitOrder {
            user_id: user,
            side,
            price: Price::new(usd(price_dollars)),
            quantity: Quantity::new(btc(qty_coins)),
        },
    )
}

fn place_market(
    book: &mut OrderBook,
    user: u128,
    side: OrderSide,
    qty_coins: u64,
) -> OrderBookResponse {
    process_command(
        book,
        OrderBookCommand::PlaceMarketOrder {
            user_id: user,
            side,
            quantity: Quantity::new(btc(qty_coins)),
        },
    )
}

fn depth(book: &mut OrderBook, n: usize) -> (Vec<(Price, Quantity)>, Vec<(Price, Quantity)>) {
    match process_command(book, OrderBookCommand::GetOrderBook { depth: n }) {
        OrderBookResponse::OrderBookDepth { bids, asks } => (bids, asks),
        other => panic!("depth failed: {:?}", response_kind(&other)),
    }
}

fn balance(book: &mut OrderBook, user: u128) -> UserBalance {
    match process_command(book, OrderBookCommand::GetUserBalance { user_id: user }) {
        OrderBookResponse::UserBalance { balance } => balance,
        other => panic!("balance failed: {:?}", response_kind(&other)),
    }
}

fn placed(r: OrderBookResponse) -> (u128, Vec<Trade>, String) {
    match r {
        OrderBookResponse::OrderPlaced { order_id, trades, status } => (order_id, trades, status),
        other => panic!("expected OrderPlaced, got {:?}", response_kind(&other)),
    }
}

fn error_message(r: OrderBookResponse) -> String {
    match r {
        OrderBookResponse::Error { message } => message,
        other => panic!("expected Error, got {:?}", response_kind(&other)),
    }
}

fn response_kind(r: &OrderBookResponse) -> &'static str {
    match r {
        OrderBookResponse::OrderPlaced { .. } => "OrderPlaced",
        OrderBookResponse::OrderCancelled { .. } => "OrderCancelled",
        OrderBookResponse::OrderBookDepth { .. } => "OrderBookDepth",
        OrderBookResponse::UserBalance { .. } => "UserBalance",
        OrderBookResponse::FundsAdded { .. } => "FundsAdded",
        OrderBookResponse::Error { .. } => "Error",
    }
}

#[test]
fn resting_then_matching_limit() {
    let mut book = OrderBook::new();
    let u1: u128 = 1;
    let u2: u128 = 2;
    deposit(&mut book, u1, "USD", usd(100000));
    deposit(&mut book, u2, "BTC", btc(10));

    let (_, trades, status) = placed(place_limit(&mut book, u2, OrderSide::Sell, 50000, 1));
    assert_eq!(status, "Added to book");
    assert!(trades.is_empty());

    let (bids, asks) = depth(&mut book, 1);
    assert!(bids.is_empty());
    assert_eq!(asks, vec![(Price::new(usd(50000)), Quantity::new(btc(1)))]);

    let (_, trades, status) = placed(place_limit(&mut book, u1, OrderSide::Buy, 50000, 1));
    assert_eq!(status, "Matched");
    assert_eq!(trades.len(), 1);
    assert_eq!(trades[0].price, Price::new(usd(50000)));
    assert_eq!(trades[0].quantity, Quantity::new(btc(1)));
    assert_eq!(trades[0].maker_user_id, u2);
    assert_eq!(trades[0].taker_user_id, u1);

    let (bids, asks) = depth(&mut book, 10);
    assert!(bids.is_empty());
    assert!(asks.is_empty());

    let b1 = balance(&mut book, u1);
    assert_eq!(b1.btc_available, btc(1));
    assert_eq!(b1.usd_available, usd(50000));
    assert_eq!(b1.usd_locked, 0);
    let b2 = balance(&mut book, u2);
    assert_eq!(b2.btc_available, btc(9));
    assert_eq!(b2.usd_available, usd(50000));
    assert_eq!(b2.btc_locked, 0);
}

#[test]
fn price_improvement() {
    let mut book = OrderBook::new();
    let u1: u128 = 1;
    let u2: u128 = 2;
    deposit(&mut book, u1, "USD", usd(100000));
    deposit(&mut book, u2, "BTC", btc(10));

    placed(place_limit(&mut book, u2, OrderSide::Sell, 49000, 1));
    let (_, trades, _) = placed(place_limit(&mut book, u1, OrderSide::Buy, 50000, 1));

    assert_eq!(trades.len(), 1);
    assert_eq!(trades[0].price, Price::new(usd(49000)));

    // The taker paid the maker's price: the 1000-dollar difference of the
    // reservation came straight back.
    let b1 = balance(&mut book, u1);
    assert_eq!(b1.usd_available, usd(100000 - 49000));
    assert_eq!(b1.usd_locked, 0);
    assert_eq!(b1.btc_available, btc(1));
}

#[test]
fn partial_fill_and_rest() {
    let mut book = OrderBook::new();
    let u1: u128 = 1;
    let u2: u128 = 2;
    deposit(&mut book, u1, "USD", usd(150000));
    deposit(&mut book, u2, "BTC", btc(10));

    placed(place_limit(&mut book, u2, OrderSide::Sell, 50000, 1));
    let (_, trades, status) = placed(place_limit(&mut book, u1, OrderSide::Buy, 50000, 3));

    assert_eq!(status, "Matched");
    assert_eq!(trades.len(), 1);
    assert_eq!(trades[0].price, Price::new(usd(50000)));
    assert_eq!(trades[0].quantity, Quantity::new(btc(1)));

    let (bids, asks) = depth(&mut book, 10);
    assert!(asks.is_empty());
    assert_eq!(bids, vec![(Price::new(usd(50000)), Quantity::new(btc(2)))]);

    // The remainder's reservation stays locked.
    let b1 = balance(&mut book, u1);
    assert_eq!(b1.usd_locked, usd(100000));
}

#[test]
fn fifo_within_level() {
    let mut book = OrderBook::new();
    let u1: u128 = 1;
    let u2: u128 = 2;
    let u3: u128 = 3;
    deposit(&mut book, u1, "USD", usd(100000));
    deposit(&mut book, u2, "BTC", btc(10));
    deposit(&mut book, u3, "BTC", btc(10));

    placed(place_limit(&mut book, u2, OrderSide::Sell, 50000, 1));
    placed(place_limit(&mut book, u3, OrderSide::Sell, 50000, 1));

    let (_, trades, _) = placed(place_limit(&mut book, u1, OrderSide::Buy, 50000, 1));
    assert_eq!(trades.len(), 1);
    assert_eq!(trades[0].maker_user_id, u2);

    // The later order is still resting.
    let (_, asks) = depth(&mut book, 10);
    assert_eq!(asks, vec![(Price::new(usd(50000)), Quantity::new(btc(1)))]);
}

#[test]
fn market_order_exhausts_book() {
    let mut book = OrderBook::new();
    let u1: u128 = 1;
    let u2: u128 = 2;
    deposit(&mut book, u1, "USD", usd(200000));
    deposit(&mut book, u2, "BTC", btc(10));

    placed(place_limit(&mut book, u2, OrderSide::Sell, 50000, 1));

    let message = error_message(place_market(&mut book, u1, OrderSide::Buy, 2));
    assert_eq!(message, "Insufficient liquidity for market order");

    // The first unit was filled before the book ran dry; that fill stands.
    let b1 = balance(&mut book, u1);
    assert_eq!(b1.btc_available, btc(1));
    assert_eq!(b1.usd_available, usd(150000));
    let (_, asks) = depth(&mut book, 10);
    assert!(asks.is_empty());
}

#[test]
fn cancel_refund() {
    let mut book = OrderBook::new();
    let u1: u128 = 1;
    deposit(&mut book, u1, "USD", usd(100000));

    let (order_id, _, _) = placed(place_limit(&mut book, u1, OrderSide::Buy, 50000, 2));
    let b1 = balance(&mut book, u1);
    assert_eq!(b1.usd_available, 0);
    assert_eq!(b1.usd_locked, usd(100000));

    let r = process_command(&mut book, OrderBookCommand::CancelOrder { user_id: u1, order_id });
    match r {
        OrderBookResponse::OrderCancelled { order_id: oid, success } => {
            assert_eq!(oid, order_id);
            assert!(success);
        }
        other => panic!("expected OrderCancelled, got {:?}", response_kind(&other)),
    }

    let b1 = balance(&mut book, u1);
    assert_eq!(b1.usd_available, usd(100000));
    assert_eq!(b1.usd_locked, 0);
    let (bids, _) = depth(&mut book, 10);
    assert!(bids.is_empty());

    // Cancelling the same id again finds nothing and changes nothing.
    let message = error_message(process_command(
        &mut book,
        OrderBookCommand::CancelOrder { user_id: u1, order_id },
    ));
    assert_eq!(message, "Order not found");
}

#[test]
fn cancel_requires_ownership() {
    let mut book = OrderBook::new();
    let u1: u128 = 1;
    let u2: u128 = 2;
    deposit(&mut book, u1, "USD", usd(100000));

    let (order_id, _, _) = placed(place_limit(&mut book, u1, OrderSide::Buy, 50000, 1));
    let message = error_message(process_command(
        &mut book,
        OrderBookCommand::CancelOrder { user_id: u2, order_id },
    ));
    assert_eq!(message, "Not authorized to cancel this order");

    // The order is untouched and can still be cancelled by its owner.
    let (bids, _) = depth(&mut book, 10);
    assert_eq!(bids.len(), 1);
    let r = process_command(&mut book, OrderBookCommand::CancelOrder { user_id: u1, order_id });
    assert!(matches!(r, OrderBookResponse::OrderCancelled { .. }));
}

#[test]
fn depth_prices_are_monotonic() {
    let mut book = OrderBook::new();
    let u1: u128 = 1;
    let u2: u128 = 2;
    deposit(&mut book, u1, "USD", usd(1000000));
    deposit(&mut book, u2, "BTC", btc(100));

    placed(place_limit(&mut book, u1, OrderSide::Buy, 48000, 1));
    placed(place_limit(&mut book, u1, OrderSide::Buy, 49000, 1));
    placed(place_limit(&mut book, u1, OrderSide::Buy, 47000, 1));
    placed(place_limit(&mut book, u2, OrderSide::Sell, 51000, 1));
    placed(place_limit(&mut book, u2, OrderSide::Sell, 50000, 1));
    placed(place_limit(&mut book, u2, OrderSide::Sell, 52000, 1));

    let (bids, asks) = depth(&mut book, 10);
    assert_eq!(bids.len(), 3);
    assert_eq!(asks.len(), 3);
    let mut i = 1;
    while i < bids.len() {
        assert!(bids[i - 1].0.raw() > bids[i].0.raw());
        i += 1;
    }
    let mut j = 1;
    while j < asks.len() {
        assert!(asks[j - 1].0.raw() < asks[j].0.raw());
        j += 1;
    }
    // Best bid stays strictly below best ask.
    assert!(bids[0].0.raw() < asks[0].0.raw());
}

#[test]
fn conservation_across_matches() {
    let mut book = OrderBook::new();
    let u1: u128 = 1;
    let u2: u128 = 2;
    deposit(&mut book, u1, "USD", usd(300000));
    deposit(&mut book, u2, "BTC", btc(10));
    let total_usd_before = book.total_usd;
    let total_btc_before = book.total_btc;

    placed(place_limit(&mut book, u2, OrderSide::Sell, 50000, 2));
    placed(place_limit(&mut book, u1, OrderSide::Buy, 50500, 1));
    placed(place_limit(&mut book, u1, OrderSide::Buy, 50000, 3));
    placed(place_market(&mut book, u2, OrderSide::Sell, 1));

    assert_eq!(book.total_usd, total_usd_before);
    assert_eq!(book.total_btc, total_btc_before);
}

#[test]
fn add_funds_validation() {
    let mut book = OrderBook::new();
    let u1: u128 = 1;

    let message = error_message(process_command(
        &mut book,
        OrderBookCommand::AddFunds { user_id: u1, currency: "EUR".to_string(), amount: 5 },
    ));
    assert_eq!(message, "Currency must be 'USD' or 'BTC'");

    let message = error_message(process_command(
        &mut book,
        OrderBookCommand::AddFunds { user_id: u1, currency: "USD".to_string(), amount: 0 },
    ));
    assert_eq!(message, "Amount must be positive");

    let r = process_command(
        &mut book,
        OrderBookCommand::AddFunds { user_id: u1, currency: "USD".to_string(), amount: usd(7) },
    );
    match r {
        OrderBookResponse::FundsAdded { user_id, currency, new_balance } => {
            assert_eq!(user_id, u1);
            assert_eq!(currency, "USD");
            assert_eq!(new_balance, usd(7));
        }
        other => panic!("expected FundsAdded, got {:?}", response_kind(&other)),
    }
}

#[test]
fn reservation_requires_funds() {
    let mut book = OrderBook::new();
    let u1: u128 = 1;

    let message = error_message(place_limit(&mut book, u1, OrderSide::Buy, 50000, 1));
    assert_eq!(message, "Insufficient USD balance");
    let message = error_message(place_limit(&mut book, u1, OrderSide::Sell, 50000, 1));
    assert_eq!(message, "Insufficient BTC balance");

    deposit(&mut book, u1, "USD", usd(49999));
    let message = error_message(place_limit(&mut book, u1, OrderSide::Buy, 50000, 1));
    assert_eq!(message, "Insufficient USD balance");

    let message = error_message(process_command(
        &mut book,
        OrderBookCommand::GetUserBalance { user_id: 424242 },
    ));
    assert_eq!(message, "User not found");
}
