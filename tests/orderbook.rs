use dex_engine::orderbook::{
    InvalidOrderReason, MarketConfig, Operation, Order, OrderBookContract, OrderBookError,
    OrderSide, OrderStatus, OrderType, TimeInForce,
};
use dex_engine::types::Account;

const UNIT: u64 = 100_000_000;

fn book() -> OrderBookContract {
    OrderBookContract::new(MarketConfig::default())
}

fn funded_book(users: &[u64]) -> OrderBookContract {
    let mut b = book();
    for u in users {
        b.deposit(Account::new(*u), "BTC".to_string(), 1_000 * UNIT as u128).unwrap();
        b.deposit(Account::new(*u), "USDT".to_string(), 1_000_000 * UNIT as u128).unwrap();
    }
    b
}

fn limit(b: &mut OrderBookContract, user: u64, now: u64, side: OrderSide, price: u64, qty: u64, tif: TimeInForce) -> Result<u64, OrderBookError> {
    b.place_order(Account::new(user), now, side, OrderType::Limit, price, qty, tif, None)
}

#[test]
fn test_order_remaining_quantity() {
    let order = Order {
        id: 1,
        user: Account::new(0),
        side: OrderSide::Buy,
        order_type: OrderType::Limit,
        price: 45000_00000000,
        quantity: 1_00000000,
        filled_quantity: 50000000,
        status: OrderStatus::PartiallyFilled,
        time_in_force: TimeInForce::GTC,
        timestamp: 0,
        expires_at: None,
        reserved: 0,
    };

    assert_eq!(order.remaining_quantity(), 50000000);
    assert!(!order.is_fully_filled());
}

#[test]
fn order_helpers() {
    let buy = Order {
        id: 1,
        user: Account::new(0),
        side: OrderSide::Buy,
        order_type: OrderType::Limit,
        price: 100,
        quantity: 10,
        filled_quantity: 10,
        status: OrderStatus::Filled,
        time_in_force: TimeInForce::GTC,
        timestamp: 0,
        expires_at: None,
        reserved: 0,
    };
    let sell = Order { side: OrderSide::Sell, price: 90, status: OrderStatus::Open, filled_quantity: 0, ..buy };
    assert!(buy.is_fully_filled());
    assert_eq!(buy.remaining_quantity(), 0);
    assert!(!buy.is_active());
    assert!(sell.is_active());
    assert!(buy.can_match(&sell));
    assert!(sell.can_match(&buy));
    assert!(!buy.can_match(&buy));
    let dear = Order { price: 110, ..sell };
    assert!(!buy.can_match(&dear));
}

#[test]
fn market_config_default() {
    let c = MarketConfig::default();
    assert_eq!(c.base_asset, "BTC");
    assert_eq!(c.quote_asset, "USDT");
    assert_eq!(c.min_order_size, 1000);
    assert_eq!(c.max_order_size, 100_000_000_000);
    assert_eq!(c.tick_size, 1);
    assert_eq!(c.maker_fee_bps, 10);
    assert_eq!(c.taker_fee_bps, 20);
    assert!(c.is_active);
}

#[test]
fn partial_fill_with_price_time_priority() {
    let mut b = funded_book(&[1, 2, 3]);
    let p = 100 * UNIT;
    let a = limit(&mut b, 1, 1, OrderSide::Sell, p, 3 * UNIT, TimeInForce::GTC).unwrap();
    let bb = limit(&mut b, 2, 2, OrderSide::Sell, p, 5 * UNIT, TimeInForce::GTC).unwrap();
    assert_eq!(b.state.asks.len(), 1);
    assert_eq!(b.state.asks[0].total_quantity, 8 * UNIT as u128);
    let t = limit(&mut b, 3, 3, OrderSide::Buy, p, 6 * UNIT, TimeInForce::GTC).unwrap();

    assert_eq!(b.state.trades.len(), 2);
    assert_eq!(b.state.trades[0].maker_order_id, a);
    assert_eq!(b.state.trades[0].quantity, 3 * UNIT);
    assert_eq!(b.state.trades[0].price, p);
    assert_eq!(b.state.trades[1].maker_order_id, bb);
    assert_eq!(b.state.trades[1].quantity, 3 * UNIT);
    assert_eq!(b.state.trades[1].price, p);

    let ob = b.state.orders[(bb - 1) as usize];
    assert_eq!(ob.remaining_quantity(), 2 * UNIT);
    assert_eq!(ob.status, OrderStatus::PartiallyFilled);
    assert_eq!(b.state.orders[(a - 1) as usize].status, OrderStatus::Filled);
    assert_eq!(b.state.orders[(t - 1) as usize].status, OrderStatus::Filled);
    assert_eq!(b.state.market_stats.last_price, p);
    assert_eq!(b.state.asks.len(), 1);
    assert_eq!(b.state.asks[0].orders, vec![bb]);
    assert_eq!(b.state.asks[0].total_quantity, 2 * UNIT as u128);
    assert_eq!(b.state.bids.len(), 0);
    assert_eq!(b.state.best_ask, Some(p));
    assert_eq!(b.state.best_bid, None);

    let usdt = "USDT".to_string();
    let btc = "BTC".to_string();
    // the taker paid 600 USDT and received 6 BTC less 0.2% fees
    assert_eq!(b.state.ledger.free_balance(Account::new(3), &usdt), (1_000_000 - 600) * UNIT as u128);
    assert_eq!(b.state.ledger.locked_balance(Account::new(3), &usdt), 0);
    assert_eq!(b.state.ledger.free_balance(Account::new(3), &btc), (1_006 * UNIT - 2 * 600_000) as u128);
    // maker A received 300 USDT less 0.1%
    assert_eq!(b.state.ledger.free_balance(Account::new(1), &usdt), (1_000_300 * UNIT - 30_000_000) as u128);
    assert_eq!(b.state.ledger.locked_balance(Account::new(2), &btc), 2 * UNIT as u128);
    assert_eq!(b.state.ledger.collected_fees(&btc), 1_200_000);
    assert_eq!(b.state.ledger.collected_fees(&usdt), 60_000_000);
    assert_eq!(b.state.ledger.supply_of(&btc), 3_000 * UNIT as u128);
    assert_eq!(b.state.ledger.supply_of(&usdt), 3_000_000 * UNIT as u128);
}

#[test]
fn post_only_that_would_take_is_rejected() {
    let mut b = funded_book(&[1, 2]);
    limit(&mut b, 1, 1, OrderSide::Sell, 101 * UNIT, 2 * UNIT, TimeInForce::GTC).unwrap();
    let free_before = b.state.ledger.free_balance(Account::new(2), &"USDT".to_string());
    let r = limit(&mut b, 2, 2, OrderSide::Buy, 101 * UNIT, UNIT, TimeInForce::PostOnly);
    assert_eq!(r, Err(OrderBookError::InvalidOrder { reason: InvalidOrderReason::WouldTakeLiquidity }));
    assert_eq!(b.state.orders.len(), 1);
    assert_eq!(b.state.trades.len(), 0);
    assert_eq!(b.state.ledger.free_balance(Account::new(2), &"USDT".to_string()), free_before);
    // below the ask it rests
    let id = limit(&mut b, 2, 3, OrderSide::Buy, 100 * UNIT, UNIT, TimeInForce::PostOnly).unwrap();
    assert_eq!(b.state.orders[(id - 1) as usize].status, OrderStatus::Open);
    assert_eq!(b.state.best_bid, Some(100 * UNIT));
}

#[test]
fn place_then_cancel_returns_every_lock() {
    let mut b = funded_book(&[1, 2]);
    limit(&mut b, 1, 1, OrderSide::Sell, 101 * UNIT, 2 * UNIT, TimeInForce::GTC).unwrap();
    let user = Account::new(2);
    let usdt = "USDT".to_string();
    let free = b.state.ledger.free_balance(user, &usdt);
    let id = limit(&mut b, 2, 2, OrderSide::Buy, 99 * UNIT, 3 * UNIT, TimeInForce::GTC).unwrap();
    assert_eq!(b.state.ledger.locked_balance(user, &usdt), 297 * UNIT as u128);
    assert_eq!(b.state.ledger.free_balance(user, &usdt), free - 297 * UNIT as u128);
    assert_eq!(b.state.bids[0].total_quantity, 3 * UNIT as u128);
    b.cancel_order(user, id).unwrap();
    assert_eq!(b.state.ledger.locked_balance(user, &usdt), 0);
    assert_eq!(b.state.ledger.free_balance(user, &usdt), free);
    assert_eq!(b.state.orders[(id - 1) as usize].status, OrderStatus::Cancelled);
    assert_eq!(b.state.bids.len(), 0);
    assert_eq!(b.state.best_bid, None);
    assert_eq!(b.cancel_order(user, id), Err(OrderBookError::OrderNotModifiable { status: OrderStatus::Cancelled }));
}

#[test]
fn fill_or_kill_that_cannot_fill_leaves_the_book() {
    let mut b = funded_book(&[1, 2]);
    limit(&mut b, 1, 1, OrderSide::Sell, 101 * UNIT, 5 * UNIT, TimeInForce::GTC).unwrap();
    let r = limit(&mut b, 2, 2, OrderSide::Buy, 101 * UNIT, 10 * UNIT, TimeInForce::FOK);
    assert_eq!(r, Err(OrderBookError::InvalidOrder { reason: InvalidOrderReason::CannotFillInFull }));
    assert_eq!(b.state.orders.len(), 1);
    assert_eq!(b.state.asks.len(), 1);
    assert_eq!(b.state.asks[0].total_quantity, 5 * UNIT as u128);
    assert_eq!(b.state.asks[0].orders, vec![1]);
    assert_eq!(b.state.trades.len(), 0);
    assert_eq!(b.state.ledger.locked_balance(Account::new(2), &"USDT".to_string()), 0);
    // one that can fill does
    let id = limit(&mut b, 2, 3, OrderSide::Buy, 101 * UNIT, 5 * UNIT, TimeInForce::FOK).unwrap();
    assert_eq!(b.state.orders[(id - 1) as usize].status, OrderStatus::Filled);
    assert_eq!(b.state.asks.len(), 0);
}

#[test]
fn immediate_or_cancel_remainder_is_cancelled() {
    let mut b = funded_book(&[1, 2]);
    limit(&mut b, 1, 1, OrderSide::Buy, 100 * UNIT, 2 * UNIT, TimeInForce::GTC).unwrap();
    let id = limit(&mut b, 2, 2, OrderSide::Sell, 99 * UNIT, 5 * UNIT, TimeInForce::IOC).unwrap();
    let o = b.state.orders[(id - 1) as usize];
    assert_eq!(o.status, OrderStatus::Cancelled);
    assert_eq!(o.filled_quantity, 2 * UNIT);
    assert_eq!(b.state.trades.len(), 1);
    assert_eq!(b.state.trades[0].price, 100 * UNIT);
    assert_eq!(b.state.ledger.locked_balance(Account::new(2), &"BTC".to_string()), 0);
    assert_eq!(b.state.bids.len(), 0);
    assert_eq!(b.state.asks.len(), 0);
}

#[test]
fn market_order_sweeps_levels_best_first() {
    let mut b = funded_book(&[1, 2, 3]);
    limit(&mut b, 1, 1, OrderSide::Sell, 102 * UNIT, UNIT, TimeInForce::GTC).unwrap();
    limit(&mut b, 2, 2, OrderSide::Sell, 101 * UNIT, UNIT, TimeInForce::GTC).unwrap();
    assert_eq!(b.state.asks[0].price, 101 * UNIT);
    assert_eq!(b.state.asks[1].price, 102 * UNIT);
    let id = b.place_order(Account::new(3), 3, OrderSide::Buy, OrderType::Market, 0, 3 * UNIT, TimeInForce::GTC, None).unwrap();
    assert_eq!(b.state.trades.len(), 2);
    assert_eq!(b.state.trades[0].price, 101 * UNIT);
    assert_eq!(b.state.trades[1].price, 102 * UNIT);
    let o = b.state.orders[(id - 1) as usize];
    assert_eq!(o.filled_quantity, 2 * UNIT);
    assert_eq!(o.status, OrderStatus::Cancelled);
    assert_eq!(b.state.asks.len(), 0);
    assert_eq!(b.state.ledger.locked_balance(Account::new(3), &"USDT".to_string()), 0);
    assert_eq!(b.state.market_stats.high_24h, 102 * UNIT);
    assert_eq!(b.state.market_stats.low_24h, 101 * UNIT);
}

#[test]
fn better_prices_rest_first() {
    let mut b = funded_book(&[1]);
    limit(&mut b, 1, 1, OrderSide::Buy, 98 * UNIT, UNIT, TimeInForce::GTC).unwrap();
    limit(&mut b, 1, 2, OrderSide::Buy, 100 * UNIT, UNIT, TimeInForce::GTC).unwrap();
    limit(&mut b, 1, 3, OrderSide::Buy, 99 * UNIT, UNIT, TimeInForce::GTC).unwrap();
    limit(&mut b, 1, 4, OrderSide::Buy, 100 * UNIT, 2 * UNIT, TimeInForce::GTC).unwrap();
    let prices: Vec<u64> = b.state.bids.iter().map(|l| l.price).collect();
    assert_eq!(prices, vec![100 * UNIT, 99 * UNIT, 98 * UNIT]);
    assert_eq!(b.state.bids[0].orders, vec![2, 4]);
    assert_eq!(b.state.bids[0].total_quantity, 3 * UNIT as u128);
    assert_eq!(b.state.best_bid, Some(100 * UNIT));
}

#[test]
fn placement_errors() {
    let mut b = funded_book(&[1]);
    let u = 1;
    assert_eq!(
        limit(&mut b, u, 0, OrderSide::Buy, 100, 10, TimeInForce::GTC),
        Err(OrderBookError::BelowMinimumSize { size: 10, minimum: 1000 })
    );
    assert_eq!(
        limit(&mut b, u, 0, OrderSide::Buy, 100, 200_000_000_000, TimeInForce::GTC),
        Err(OrderBookError::AboveMaximumSize { size: 200_000_000_000, maximum: 100_000_000_000 })
    );
    assert_eq!(
        limit(&mut b, u, 0, OrderSide::Buy, 0, UNIT, TimeInForce::GTC),
        Err(OrderBookError::InvalidOrder { reason: InvalidOrderReason::ZeroPrice })
    );
    assert_eq!(
        b.place_order(Account::new(u), 0, OrderSide::Buy, OrderType::Market, 0, UNIT, TimeInForce::GTC, None),
        Err(OrderBookError::InvalidOrder { reason: InvalidOrderReason::NoLiquidity })
    );
    b.update_config(None, None, Some(100)).unwrap();
    assert_eq!(limit(&mut b, u, 0, OrderSide::Buy, 150, UNIT, TimeInForce::GTC), Err(OrderBookError::InvalidTickSize));
    assert_eq!(b.update_config(None, None, Some(0)), Err(OrderBookError::InvalidTickSize));
    assert_eq!(
        limit(&mut b, 2, 0, OrderSide::Sell, 100 * UNIT, UNIT, TimeInForce::GTC),
        Err(OrderBookError::InsufficientBalance { required: UNIT as u128, available: 0 })
    );
    assert_eq!(b.cancel_order(Account::new(u), 42), Err(OrderBookError::OrderNotFound { order_id: 42 }));
    let id = limit(&mut b, u, 0, OrderSide::Sell, 100 * UNIT, UNIT, TimeInForce::GTC).unwrap();
    assert_eq!(b.cancel_order(Account::new(9), id), Err(OrderBookError::Unauthorized));
    assert_eq!(
        b.withdraw(Account::new(9), "BTC".to_string(), 1),
        Err(OrderBookError::InsufficientBalance { required: 1, available: 0 })
    );
}

#[test]
fn closed_market_rejects_orders() {
    let config = MarketConfig { is_active: false, ..MarketConfig::default() };
    let mut b = OrderBookContract::new(config);
    assert_eq!(limit(&mut b, 1, 0, OrderSide::Buy, UNIT, UNIT, TimeInForce::GTC), Err(OrderBookError::MarketClosed));
}

#[test]
fn stop_orders_are_parked() {
    let mut b = funded_book(&[1, 2]);
    limit(&mut b, 2, 0, OrderSide::Buy, 100 * UNIT, UNIT, TimeInForce::GTC).unwrap();
    let id = b
        .place_order(Account::new(1), 1, OrderSide::Sell, OrderType::StopLoss { trigger_price: 90 * UNIT }, 90 * UNIT, UNIT, TimeInForce::GTC, None)
        .unwrap();
    assert_eq!(b.state.stop_orders, vec![id]);
    assert_eq!(b.state.orders[(id - 1) as usize].status, OrderStatus::Pending);
    assert_eq!(b.state.trades.len(), 0);
    assert_eq!(b.state.asks.len(), 0);
    assert_eq!(b.state.ledger.locked_balance(Account::new(1), &"BTC".to_string()), UNIT as u128);
}

#[test]
fn modify_replaces_the_order() {
    let mut b = funded_book(&[1]);
    let user = Account::new(1);
    let usdt = "USDT".to_string();
    let id = limit(&mut b, 1, 1, OrderSide::Buy, 99 * UNIT, UNIT, TimeInForce::GTC).unwrap();
    assert_eq!(b.state.ledger.locked_balance(user, &usdt), 99 * UNIT as u128);
    let id2 = b.modify_order(user, 2, id, Some(98 * UNIT), Some(2 * UNIT)).unwrap();
    assert_ne!(id2, id);
    assert_eq!(b.state.orders[(id - 1) as usize].status, OrderStatus::Cancelled);
    assert_eq!(id2, id + 1);
    let o = b.state.orders[(id2 - 1) as usize];
    assert_eq!(o.price, 98 * UNIT);
    assert_eq!(o.quantity, 2 * UNIT);
    assert_eq!(o.status, OrderStatus::Open);
    assert_eq!(b.state.ledger.locked_balance(user, &usdt), 196 * UNIT as u128);
    assert_eq!(b.state.bids.len(), 1);
    assert_eq!(b.state.bids[0].orders, vec![id2]);
}

#[test]
fn modify_that_cannot_be_funded_changes_nothing() {
    let mut b = book();
    let user = Account::new(1);
    let usdt = "USDT".to_string();
    b.deposit(user, usdt.clone(), 100 * UNIT as u128).unwrap();
    let id = limit(&mut b, 1, 1, OrderSide::Buy, 50 * UNIT, UNIT, TimeInForce::GTC).unwrap();
    let r = b.modify_order(user, 2, id, Some(60 * UNIT), Some(2 * UNIT));
    assert_eq!(r, Err(OrderBookError::InsufficientBalance { required: 120 * UNIT as u128, available: 100 * UNIT as u128 }));
    assert_eq!(b.state.orders.len(), 1);
    assert_eq!(b.state.orders[0].status, OrderStatus::Open);
    assert_eq!(b.state.ledger.locked_balance(user, &usdt), 50 * UNIT as u128);
    assert_eq!(b.modify_order(user, 2, 7, None, None), Err(OrderBookError::OrderNotFound { order_id: 7 }));
}

#[test]
fn stop_loss_fires_when_price_falls() {
    let mut b = funded_book(&[1, 2, 3]);
    let stop = b
        .place_order(Account::new(1), 0, OrderSide::Sell, OrderType::StopLoss { trigger_price: 90 * UNIT }, 89 * UNIT, UNIT, TimeInForce::GTC, None)
        .unwrap();
    limit(&mut b, 2, 1, OrderSide::Buy, 89 * UNIT, 2 * UNIT, TimeInForce::GTC).unwrap();
    assert_eq!(b.trigger_stop_orders(2), 0);
    assert_eq!(b.state.stop_orders, vec![stop]);
    limit(&mut b, 3, 3, OrderSide::Sell, 89 * UNIT, UNIT, TimeInForce::GTC).unwrap();
    assert_eq!(b.state.market_stats.last_price, 89 * UNIT);
    assert_eq!(b.trigger_stop_orders(4), 1);
    assert_eq!(b.state.stop_orders.len(), 0);
    assert_eq!(b.state.orders[(stop - 1) as usize].status, OrderStatus::Filled);
    assert_eq!(b.trigger_stop_orders(5), 0);
    assert_eq!(b.state.trades.len(), 2);
    assert_eq!(b.state.bids.len(), 0);
    assert_eq!(b.state.ledger.locked_balance(Account::new(1), &"BTC".to_string()), 0);
}

#[test]
fn orderbook_operations_dispatch() {
    let mut b = book();
    let user = Account::new(5);
    b.execute_operation(user, 0, Operation::Deposit { asset: "USDT".to_string(), amount: 1_000 * UNIT as u128 }).unwrap();
    b.execute_operation(
        user,
        1,
        Operation::PlaceOrder {
            side: OrderSide::Buy,
            order_type: OrderType::Limit,
            price: 10 * UNIT,
            quantity: UNIT,
            time_in_force: TimeInForce::GTC,
            expires_at: Some(100),
        },
    )
    .unwrap();
    assert_eq!(b.state.orders[0].expires_at, Some(100));
    b.execute_operation(user, 2, Operation::ModifyOrder { order_id: 1, new_price: Some(11 * UNIT), new_quantity: None }).unwrap();
    assert_eq!(b.state.orders[1].price, 11 * UNIT);
    b.execute_operation(user, 3, Operation::CancelOrder { order_id: 2 }).unwrap();
    b.execute_operation(user, 4, Operation::Withdraw { asset: "USDT".to_string(), amount: 1_000 * UNIT as u128 }).unwrap();
    assert_eq!(
        b.execute_operation(user, 5, Operation::UpdateConfig { min_order_size: Some(5), max_order_size: None, tick_size: Some(0) }),
        Err(OrderBookError::InvalidTickSize)
    );
    b.execute_operation(user, 5, Operation::UpdateConfig { min_order_size: Some(5), max_order_size: None, tick_size: None }).unwrap();
    assert_eq!(b.state.config.min_order_size, 5);
}

#[test]
fn orders_expire_when_due() {
    let mut b = funded_book(&[1]);
    let user = Account::new(1);
    let usdt = "USDT".to_string();
    let free = b.state.ledger.free_balance(user, &usdt);
    let id = b
        .place_order(user, 0, OrderSide::Buy, OrderType::Limit, 10 * UNIT, UNIT, TimeInForce::GTC, Some(100))
        .unwrap();
    limit(&mut b, 1, 0, OrderSide::Buy, 9 * UNIT, UNIT, TimeInForce::GTC).unwrap();
    assert_eq!(b.expire_orders(50), 0);
    assert_eq!(b.expire_orders(100), 1);
    assert_eq!(b.state.orders[(id - 1) as usize].status, OrderStatus::Expired);
    assert_eq!(b.state.bids.len(), 1);
    assert_eq!(b.state.best_bid, Some(9 * UNIT));
    assert_eq!(b.state.ledger.free_balance(user, &usdt), free - 9 * UNIT as u128);
    assert_eq!(b.expire_orders(200), 0);
}

#[test]
fn stop_orders_that_wait_stay_parked() {
    let mut b = funded_book(&[1, 2, 3]);
    let wait = b
        .place_order(Account::new(1), 0, OrderSide::Sell, OrderType::StopLoss { trigger_price: 80 * UNIT }, 80 * UNIT, UNIT, TimeInForce::GTC, None)
        .unwrap();
    let fire = b
        .place_order(Account::new(1), 0, OrderSide::Buy, OrderType::TakeProfit { trigger_price: 95 * UNIT }, 95 * UNIT, UNIT, TimeInForce::GTC, None)
        .unwrap();
    limit(&mut b, 2, 1, OrderSide::Buy, 90 * UNIT, UNIT, TimeInForce::GTC).unwrap();
    limit(&mut b, 3, 2, OrderSide::Sell, 90 * UNIT, UNIT, TimeInForce::GTC).unwrap();
    assert_eq!(b.state.market_stats.last_price, 90 * UNIT);
    assert_eq!(b.trigger_stop_orders(3), 1);
    assert_eq!(b.state.stop_orders, vec![wait]);
    // nothing to buy from: the fired order is cancelled and its lock released
    assert_eq!(b.state.orders[(fire - 1) as usize].status, OrderStatus::Cancelled);
    assert_eq!(b.state.orders[(wait - 1) as usize].status, OrderStatus::Pending);
}
