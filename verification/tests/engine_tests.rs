use orderbook_engine::engine::{Command, Engine, EngineResult};
use orderbook_engine::ledger::UserBalance;
use orderbook_engine::types::{Order, Side};

fn order(id: u64, user: &str, side: Side, price: u64, quantity: u64) -> Order {
    Order { id, user_id: user.to_string(), side, price, quantity, filled: 0 }
}

fn place_cmd(market: &str, base: &str, o: Order) -> Command {
    Command::PlaceOrder { market: market.to_string(), base_asset: base.to_string(), order: o }
}

#[test]
fn test_add_market() {
    let mut engine = Engine::new();
    engine.add_market("BTC_USDT".to_string());
    assert!(engine.has_market(&"BTC_USDT".to_string()));
    assert!(!engine.has_market(&"ETH_USDT".to_string()));
}

#[test]
fn test_process_place_order() {
    let mut engine = Engine::new();
    engine.add_market("BTC_USDT".to_string());
    let cmd = place_cmd("BTC_USDT", "BTC", order(1, "user1", Side::Buy, 50000, 1));
    let result = engine.process(cmd);
    // user1 deposited nothing, so the escrow gate rejects the order
    assert!(matches!(result, EngineResult::InsufficientFunds));
}

#[test]
fn test_process_cancel_order() {
    let mut engine = Engine::new();
    engine.add_market("BTC_USDT".to_string());
    let result = engine.process(Command::CancelOrder {
        market: "BTC_USDT".to_string(),
        order_id: 1,
    });
    assert!(matches!(result, EngineResult::OrderNotFound));
}

#[test]
fn test_process_get_depth() {
    let mut engine = Engine::new();
    engine.add_market("BTC_USDT".to_string());
    let result = engine.process(Command::GetDepth { market: "BTC_USDT".to_string() });
    match result {
        EngineResult::Depth((bids, asks)) => {
            assert_eq!(bids.len(), 0);
            assert_eq!(asks.len(), 0);
        }
        _ => panic!("expected a depth result"),
    }
}

#[test]
fn test_process_add_balance() {
    let mut engine = Engine::new();
    let result = engine.process(Command::AddBalance {
        user_id: "user1".to_string(),
        asset: "BTC".to_string(),
        amount: 1,
    });
    assert!(matches!(result, EngineResult::BalanceAdded));
    assert_eq!(engine.available_balance(&"user1".to_string(), &"BTC".to_string()), 1);
}

#[test]
fn test_place_order_insufficient_funds() {
    let mut engine = Engine::new();
    engine.add_market("BTC_USDT".to_string());
    engine.add_balance("user1".to_string(), "USDT".to_string(), 10000);
    let result = engine.process(place_cmd("BTC_USDT", "BTC", order(1, "user1", Side::Buy, 50000, 1)));
    assert!(matches!(result, EngineResult::InsufficientFunds));
    // the order never reached the book and the ledger is untouched
    match engine.get_depth("BTC_USDT".to_string()) {
        EngineResult::Depth((bids, asks)) => {
            assert_eq!(bids.len(), 0);
            assert_eq!(asks.len(), 0);
        }
        _ => panic!("expected a depth result"),
    }
    assert_eq!(engine.available_balance(&"user1".to_string(), &"USDT".to_string()), 10000);
    assert_eq!(engine.locked_balance(&"user1".to_string(), &"USDT".to_string()), 0);
}

#[test]
fn buy_escrows_price_times_quantity_of_the_quote_unit() {
    let mut engine = Engine::new();
    engine.add_market("BTC_USDT".to_string());
    engine.add_balance("user1".to_string(), "USDT".to_string(), 200);
    let result = engine.place_order(
        "BTC_USDT".to_string(),
        order(1, "user1", Side::Buy, 50, 3),
        &"BTC".to_string(),
    );
    assert!(matches!(result, EngineResult::Placed(_)));
    assert_eq!(engine.available_balance(&"user1".to_string(), &"USDT".to_string()), 50);
    assert_eq!(engine.locked_balance(&"user1".to_string(), &"USDT".to_string()), 150);
}

#[test]
fn sell_escrows_quantity_of_the_base_asset() {
    let mut engine = Engine::new();
    engine.add_market("BTC_USDT".to_string());
    engine.add_balance("user2".to_string(), "BTC".to_string(), 10);
    let result = engine.place_order(
        "BTC_USDT".to_string(),
        order(1, "user2", Side::Sell, 50, 4),
        &"BTC".to_string(),
    );
    assert!(matches!(result, EngineResult::Placed(_)));
    assert_eq!(engine.available_balance(&"user2".to_string(), &"BTC".to_string()), 6);
    assert_eq!(engine.locked_balance(&"user2".to_string(), &"BTC".to_string()), 4);
}

#[test]
fn rejected_escrow_when_user_has_exactly_too_little() {
    // available USD = 100; a buy of price 50 x quantity 3 needs 150
    let mut engine = Engine::new();
    engine.add_market("GOOGLE_USDT".to_string());
    engine.add_balance("user1".to_string(), "USDT".to_string(), 100);
    let result = engine.place_order(
        "GOOGLE_USDT".to_string(),
        order(1, "user1", Side::Buy, 50, 3),
        &"GOOGLE".to_string(),
    );
    assert!(matches!(result, EngineResult::InsufficientFunds));
    assert_eq!(engine.available_balance(&"user1".to_string(), &"USDT".to_string()), 100);
    assert_eq!(engine.locked_balance(&"user1".to_string(), &"USDT".to_string()), 0);
}

#[test]
fn unknown_market_is_reported_and_escrows_nothing() {
    let mut engine = Engine::new();
    engine.add_balance("user1".to_string(), "USDT".to_string(), 1000);
    let r1 = engine.place_order(
        "NO_SUCH".to_string(),
        order(1, "user1", Side::Buy, 1, 1),
        &"BTC".to_string(),
    );
    assert!(matches!(r1, EngineResult::UnknownMarket));
    assert_eq!(engine.available_balance(&"user1".to_string(), &"USDT".to_string()), 1000);
    let r2 = engine.cancel_order("NO_SUCH".to_string(), 1);
    assert!(matches!(r2, EngineResult::UnknownMarket));
    let r3 = engine.get_depth("NO_SUCH".to_string());
    assert!(matches!(r3, EngineResult::UnknownMarket));
}

#[test]
fn full_cross_through_the_engine() {
    let mut engine = Engine::new();
    engine.add_market("BTC_USDT".to_string());
    engine.add_balance("alice".to_string(), "BTC".to_string(), 5);
    engine.add_balance("bob".to_string(), "USDT".to_string(), 500);
    let r1 = engine.process(place_cmd("BTC_USDT", "BTC", order(1, "alice", Side::Sell, 100, 5)));
    match r1 {
        EngineResult::Placed(ts) => assert_eq!(ts.len(), 0),
        _ => panic!("expected the order to be admitted"),
    }
    let r2 = engine.process(place_cmd("BTC_USDT", "BTC", order(2, "bob", Side::Buy, 100, 5)));
    match r2 {
        EngineResult::Placed(ts) => {
            assert_eq!(ts.len(), 1);
            assert_eq!(ts[0].price, 100);
            assert_eq!(ts[0].quantity, 5);
            assert_eq!(ts[0].maker_user_id, "alice");
            assert_eq!(ts[0].taker_user_id, "bob");
        }
        _ => panic!("expected the order to be admitted"),
    }
    match engine.get_depth("BTC_USDT".to_string()) {
        EngineResult::Depth((bids, asks)) => {
            assert_eq!(bids.len(), 0);
            assert_eq!(asks.len(), 0);
        }
        _ => panic!("expected a depth result"),
    }
}

#[test]
fn cancellation_through_the_engine_removes_the_level() {
    let mut engine = Engine::new();
    engine.add_market("BTC_USDT".to_string());
    engine.add_balance("alice".to_string(), "USDT".to_string(), 500);
    engine.process(place_cmd("BTC_USDT", "BTC", order(7, "alice", Side::Buy, 100, 5)));
    let r = engine.process(Command::CancelOrder { market: "BTC_USDT".to_string(), order_id: 7 });
    match r {
        EngineResult::Cancelled(o) => assert_eq!(o.id, 7),
        _ => panic!("expected the order to be cancelled"),
    }
    match engine.get_depth("BTC_USDT".to_string()) {
        EngineResult::Depth((bids, _)) => assert_eq!(bids.len(), 0),
        _ => panic!("expected a depth result"),
    }
    // cancellation does not release escrow: a known limit of the design
    assert_eq!(engine.locked_balance(&"alice".to_string(), &"USDT".to_string()), 500);
}

#[test]
fn add_balance_accumulates() {
    let mut engine = Engine::new();
    engine.add_balance("user1".to_string(), "BTC".to_string(), 3);
    engine.add_balance("user1".to_string(), "BTC".to_string(), 4);
    assert_eq!(engine.available_balance(&"user1".to_string(), &"BTC".to_string()), 7);
}

#[test]
fn new_user_balance_is_empty() {
    let ub = UserBalance::new();
    assert!(ub.available.get(&"USDT".to_string()).is_none());
    assert!(ub.locked.get(&"BTC".to_string()).is_none());
}

#[test]
fn markets_are_independent() {
    let mut engine = Engine::new();
    engine.add_market("BTC_USDT".to_string());
    engine.add_market("ETH_USDT".to_string());
    engine.add_balance("alice".to_string(), "BTC".to_string(), 5);
    engine.process(place_cmd("BTC_USDT", "BTC", order(1, "alice", Side::Sell, 100, 5)));
    match engine.get_depth("ETH_USDT".to_string()) {
        EngineResult::Depth((bids, asks)) => {
            assert_eq!(bids.len(), 0);
            assert_eq!(asks.len(), 0);
        }
        _ => panic!("expected a depth result"),
    }
    match engine.get_depth("BTC_USDT".to_string()) {
        EngineResult::Depth((_, asks)) => assert_eq!(asks, vec![(100, 5)]),
        _ => panic!("expected a depth result"),
    }
}
