use orderbook_engine::orderbook::{Orderbook, OrderbookMessage};
use orderbook_engine::types::{Order, OrderbookResult, Side};

fn order(id: u64, user: &str, side: Side, price: u64, quantity: u64) -> Order {
    Order { id, user_id: user.to_string(), side, price, quantity, filled: 0 }
}

#[test]
fn full_cross_one_trade_and_empty_book() {
    let mut book = Orderbook::new("BTC_USDT".to_string());
    let no_trades = book.place_order(order(1, "alice", Side::Sell, 100, 5));
    assert_eq!(no_trades.len(), 0);
    let trades = book.place_order(order(2, "bob", Side::Buy, 100, 5));
    assert_eq!(trades.len(), 1);
    assert_eq!(trades[0].price, 100);
    assert_eq!(trades[0].quantity, 5);
    assert_eq!(trades[0].maker_order_id, 1);
    assert_eq!(trades[0].taker_order_id, 2);
    assert_eq!(trades[0].maker_user_id, "alice");
    assert_eq!(trades[0].taker_user_id, "bob");
    let (bids, asks) = book.get_depth();
    assert_eq!(bids.len(), 0);
    assert_eq!(asks.len(), 0);
}

#[test]
fn partial_cross_leaves_remainder_on_ask_side() {
    let mut book = Orderbook::new("BTC_USDT".to_string());
    book.place_order(order(1, "alice", Side::Sell, 100, 10));
    let trades = book.place_order(order(2, "bob", Side::Buy, 100, 4));
    assert_eq!(trades.len(), 1);
    assert_eq!(trades[0].quantity, 4);
    let (bids, asks) = book.get_depth();
    assert_eq!(bids.len(), 0);
    assert_eq!(asks, vec![(100, 6)]);
}

#[test]
fn no_cross_when_price_does_not_satisfy() {
    let mut book = Orderbook::new("BTC_USDT".to_string());
    let t1 = book.place_order(order(1, "alice", Side::Sell, 105, 5));
    let t2 = book.place_order(order(2, "bob", Side::Buy, 100, 5));
    assert_eq!(t1.len(), 0);
    assert_eq!(t2.len(), 0);
    let (bids, asks) = book.get_depth();
    assert_eq!(bids, vec![(100, 5)]);
    assert_eq!(asks, vec![(105, 5)]);
}

#[test]
fn cancellation_removes_the_level() {
    let mut book = Orderbook::new("BTC_USDT".to_string());
    book.place_order(order(7, "alice", Side::Buy, 100, 5));
    let cancelled = book.cancel_order(7);
    assert!(cancelled.is_some());
    let removed = cancelled.unwrap();
    assert_eq!(removed.id, 7);
    assert_eq!(removed.filled, 0);
    let (bids, asks) = book.get_depth();
    assert_eq!(bids.len(), 0);
    assert_eq!(asks.len(), 0);
}

#[test]
fn cancel_unknown_id_changes_nothing() {
    let mut book = Orderbook::new("BTC_USDT".to_string());
    book.place_order(order(1, "alice", Side::Sell, 100, 5));
    assert!(book.cancel_order(99).is_none());
    let (bids, asks) = book.get_depth();
    assert_eq!(bids.len(), 0);
    assert_eq!(asks, vec![(100, 5)]);
}

#[test]
fn cancel_keeps_level_with_other_orders() {
    let mut book = Orderbook::new("BTC_USDT".to_string());
    book.place_order(order(1, "alice", Side::Sell, 100, 5));
    book.place_order(order(2, "bob", Side::Sell, 100, 7));
    let removed = book.cancel_order(1).unwrap();
    assert_eq!(removed.id, 1);
    let (_, asks) = book.get_depth();
    assert_eq!(asks, vec![(100, 7)]);
}

#[test]
fn same_price_orders_fill_in_arrival_order() {
    let mut book = Orderbook::new("BTC_USDT".to_string());
    book.place_order(order(1, "alice", Side::Sell, 100, 3));
    book.place_order(order(2, "carol", Side::Sell, 100, 3));
    let trades = book.place_order(order(3, "bob", Side::Buy, 100, 4));
    assert_eq!(trades.len(), 2);
    assert_eq!(trades[0].maker_order_id, 1);
    assert_eq!(trades[0].quantity, 3);
    assert_eq!(trades[1].maker_order_id, 2);
    assert_eq!(trades[1].quantity, 1);
    let (_, asks) = book.get_depth();
    assert_eq!(asks, vec![(100, 2)]);
}

#[test]
fn trades_price_at_the_resting_order() {
    let mut book = Orderbook::new("BTC_USDT".to_string());
    book.place_order(order(1, "alice", Side::Sell, 90, 2));
    let trades = book.place_order(order(2, "bob", Side::Buy, 100, 2));
    assert_eq!(trades.len(), 1);
    // the taker's limit was 100, but the maker quoted 90
    assert_eq!(trades[0].price, 90);
}

#[test]
fn taker_walks_the_book_best_price_first() {
    let mut book = Orderbook::new("BTC_USDT".to_string());
    book.place_order(order(1, "alice", Side::Sell, 95, 3));
    book.place_order(order(2, "carol", Side::Sell, 90, 2));
    let trades = book.place_order(order(3, "bob", Side::Buy, 100, 10));
    assert_eq!(trades.len(), 2);
    assert_eq!((trades[0].price, trades[0].quantity), (90, 2));
    assert_eq!((trades[1].price, trades[1].quantity), (95, 3));
    let (bids, asks) = book.get_depth();
    assert_eq!(asks.len(), 0);
    // 5 of 10 matched; the rest rests at the taker's own price
    assert_eq!(bids, vec![(100, 5)]);
}

#[test]
fn trade_ids_increase_from_zero_per_book() {
    let mut book = Orderbook::new("BTC_USDT".to_string());
    book.place_order(order(1, "alice", Side::Sell, 100, 1));
    book.place_order(order(2, "alice", Side::Sell, 100, 1));
    let t1 = book.place_order(order(3, "bob", Side::Buy, 100, 1));
    let t2 = book.place_order(order(4, "bob", Side::Buy, 100, 1));
    assert_eq!(t1[0].id, 0);
    assert_eq!(t2[0].id, 1);

    let mut other = Orderbook::new("ETH_USDT".to_string());
    other.place_order(order(1, "alice", Side::Sell, 10, 1));
    let t3 = other.place_order(order(2, "bob", Side::Buy, 10, 1));
    // trade ids are book-local, so another market starts at 0 again
    assert_eq!(t3[0].id, 0);
}

#[test]
fn sell_crosses_resting_bids_from_the_highest() {
    let mut book = Orderbook::new("BTC_USDT".to_string());
    book.place_order(order(1, "alice", Side::Buy, 100, 2));
    book.place_order(order(2, "carol", Side::Buy, 110, 2));
    let trades = book.place_order(order(3, "bob", Side::Sell, 100, 3));
    assert_eq!(trades.len(), 2);
    assert_eq!((trades[0].price, trades[0].quantity), (110, 2));
    assert_eq!((trades[1].price, trades[1].quantity), (100, 1));
    let (bids, _) = book.get_depth();
    assert_eq!(bids, vec![(100, 1)]);
}

#[test]
fn fully_filled_incoming_order_does_not_rest() {
    let mut book = Orderbook::new("BTC_USDT".to_string());
    let mut o = order(1, "alice", Side::Buy, 100, 5);
    o.filled = 5;
    let trades = book.place_order(o);
    assert_eq!(trades.len(), 0);
    let (bids, asks) = book.get_depth();
    assert_eq!(bids.len(), 0);
    assert_eq!(asks.len(), 0);
}

#[test]
fn process_dispatches_messages_to_typed_results() {
    let mut book = Orderbook::new("BTC_USDT".to_string());
    assert_eq!(book.market(), "BTC_USDT");
    let r1 = book.process(OrderbookMessage::PlaceOrder(order(1, "alice", Side::Sell, 100, 5)));
    match r1 {
        OrderbookResult::Trades(ts) => assert_eq!(ts.len(), 0),
        _ => panic!("expected a trades result"),
    }
    let r2 = book.process(OrderbookMessage::CancelOrder(99));
    assert!(matches!(r2, OrderbookResult::OrderNotFound));
    let r3 = book.process(OrderbookMessage::CancelOrder(1));
    match r3 {
        OrderbookResult::CancelledOrder(o) => assert_eq!(o.id, 1),
        _ => panic!("expected a cancellation result"),
    }
    let r4 = book.process(OrderbookMessage::GetDepth);
    match r4 {
        OrderbookResult::Depth((bids, asks)) => {
            assert_eq!(bids.len(), 0);
            assert_eq!(asks.len(), 0);
        }
        _ => panic!("expected a depth result"),
    }
}

#[test]
fn partially_filled_maker_blocks_orders_behind_it() {
    let mut book = Orderbook::new("BTC_USDT".to_string());
    book.place_order(order(1, "alice", Side::Sell, 100, 10));
    book.place_order(order(2, "carol", Side::Sell, 100, 10));
    // the first taker leaves order 1 partially filled at the front
    book.place_order(order(3, "bob", Side::Buy, 100, 4));
    let trades = book.place_order(order(4, "dave", Side::Buy, 100, 8));
    // order 1 (6 left) fills before order 2 sees anything
    assert_eq!(trades.len(), 2);
    assert_eq!(trades[0].maker_order_id, 1);
    assert_eq!(trades[0].quantity, 6);
    assert_eq!(trades[1].maker_order_id, 2);
    assert_eq!(trades[1].quantity, 2);
}
