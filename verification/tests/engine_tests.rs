use services::engine::db::{Database, DbError};
use services::engine::{FeedConsumer, MatchingEngine, Trade};
use services::feed::{OrderMessage, Side};

fn new_order(id: u64, account: u32, symbol: &str, side: Side, price: u64, quantity: u64) -> OrderMessage {
    OrderMessage::New { id, timestamp: id * 1_000, account, symbol: symbol.to_string(), side, price, quantity }
}

fn trade(id: u64, buyer: u32, seller: u32, symbol: &str, price: u64, quantity: u64, value: u128) -> Trade {
    Trade {
        id,
        timestamp: id,
        symbol: symbol.to_string(),
        buy_order_id: 2 * id,
        sell_order_id: 2 * id + 1,
        maker_order_id: 2 * id + 1,
        taker_order_id: 2 * id,
        buy_account: buyer,
        sell_account: seller,
        price,
        quantity,
        value,
    }
}

#[test]
fn engine_starts_with_three_empty_books() {
    let engine = MatchingEngine::new();
    let books = engine.get_all_books();
    let symbols: Vec<&str> = books.iter().map(|(s, _)| s.as_str()).collect();
    assert_eq!(symbols, vec!["NEX-USDC", "ETH-USDC", "BTC-USDC"]);
    for (_, view) in &books {
        assert!(view.open_orders.is_empty());
    }
    let stats = engine.get_stats();
    assert_eq!(stats.messages_processed, 0);
    assert_eq!(stats.open_orders_count, 0);
    assert!(engine.db.get_book_snapshot("BTC-USDC").unwrap().is_some());
    assert!(engine.get_all_accounts().unwrap().is_empty());
}

#[test]
fn engine_stats_count_messages_trades_volume_and_value() {
    let mut engine = MatchingEngine::new();
    engine.process_message(new_order(1, 1, "ETH-USDC", Side::Sell, 10_000, 50));
    engine.process_message(new_order(2, 1, "ETH-USDC", Side::Sell, 10_100, 10));
    engine.process_message(new_order(3, 2, "ETH-USDC", Side::Buy, 10_100, 55));
    engine.process_message(OrderMessage::Cancel { id: 4, timestamp: 4_000, account: 1, target_id: 2 });
    let stats = engine.get_stats();
    assert_eq!(stats.messages_processed, 4);
    assert_eq!(stats.orders_received, 3);
    assert_eq!(stats.cancels_received, 1);
    assert_eq!(stats.trades_executed, 2);
    assert_eq!(stats.total_volume_traded, 55);
    // 100.00 * 5.0 + 101.00 * 0.5 = 550.50
    assert_eq!(stats.total_value_traded, 55_050);
    assert_eq!(stats.open_orders_count, 0);
    assert_eq!(stats.orders_received + stats.cancels_received, stats.messages_processed);
}

#[test]
fn engine_opens_a_book_for_an_unlisted_symbol() {
    let mut engine = MatchingEngine::new();
    engine.process_message(new_order(1, 1, "DOGE-USDC", Side::Buy, 10, 10));
    let books = engine.get_all_books();
    assert_eq!(books.len(), 4);
    assert_eq!(books[3].0, "DOGE-USDC");
    assert_eq!(engine.get_book("DOGE-USDC").unwrap().best_bid, Some(10));
    assert_eq!(engine.get_stats().open_orders_count, 1);
}

#[test]
fn engine_book_query_matches_in_upper_case() {
    let mut engine = MatchingEngine::new();
    engine.process_message(new_order(1, 1, "ETH-USDC", Side::Buy, 9_950, 10));
    let view = engine.book_for_query("eth-usdc").unwrap();
    assert_eq!(view.symbol, "ETH-USDC");
    assert_eq!(view.best_bid, Some(9_950));
    assert_eq!(engine.book_for_query("doge").unwrap_err(), "Symbol 'doge' not found");
    assert!(engine.get_book("eth-usdc").is_none());
}

#[test]
fn engine_cancel_of_unknown_order_changes_no_book() {
    let mut engine = MatchingEngine::new();
    engine.process_message(new_order(1, 1, "ETH-USDC", Side::Buy, 9_950, 10));
    let before = engine.get_book("ETH-USDC").unwrap();
    let trades = engine.process_message(OrderMessage::Cancel { id: 2, timestamp: 2_000, account: 1, target_id: 77 });
    assert!(trades.is_empty());
    let after = engine.get_book("ETH-USDC").unwrap();
    assert_eq!(before.open_orders.len(), after.open_orders.len());
    assert_eq!(engine.get_stats().cancels_received, 1);
    assert_eq!(engine.get_stats().open_orders_count, 1);
}

#[test]
fn engine_snapshot_follows_the_book() {
    let mut engine = MatchingEngine::new();
    engine.process_message(new_order(1, 1, "NEX-USDC", Side::Sell, 1_010, 20));
    engine.process_message(new_order(2, 2, "NEX-USDC", Side::Buy, 1_010, 5));
    let snapshot = engine.db.get_book_snapshot("NEX-USDC").unwrap().unwrap();
    let live = engine.get_book("NEX-USDC").unwrap();
    assert_eq!(snapshot.best_ask, live.best_ask);
    assert_eq!(snapshot.total_asks_quantity, 15);
    assert_eq!(snapshot.asks, live.asks);
    assert!(engine.db.get_book_snapshot("DOGE-USDC").unwrap().is_none());
}

#[test]
fn engine_trades_newest_first_with_limit() {
    let mut engine = MatchingEngine::new();
    engine.process_message(new_order(1, 1, "ETH-USDC", Side::Sell, 10_000, 10));
    engine.process_message(new_order(2, 1, "ETH-USDC", Side::Sell, 10_000, 10));
    engine.process_message(new_order(3, 1, "ETH-USDC", Side::Sell, 10_000, 10));
    engine.process_message(new_order(4, 2, "ETH-USDC", Side::Buy, 10_000, 30));
    let ids: Vec<u64> = engine.get_trades(None, None, None).iter().map(|t| t.id).collect();
    assert_eq!(ids, vec![3, 2, 1]);
    let ids: Vec<u64> = engine.get_trades(Some("ETH-USDC"), Some(2), Some(2)).iter().map(|t| t.id).collect();
    assert_eq!(ids, vec![3, 2]);
    assert!(engine.get_trades(Some("BTC-USDC"), None, None).is_empty());
    assert!(engine.get_trades(None, Some(9), None).is_empty());
    assert!(engine.get_trades(None, None, Some(0)).is_empty());
}

#[test]
fn engine_every_trader_is_listed_and_ledger_sums_to_zero() {
    let mut engine = MatchingEngine::new();
    engine.process_message(new_order(1, 5, "BTC-USDC", Side::Sell, 100_000, 3));
    engine.process_message(new_order(2, 9, "BTC-USDC", Side::Buy, 100_000, 2));
    engine.process_message(new_order(3, 7, "BTC-USDC", Side::Buy, 100_500, 1));
    let accounts = engine.get_all_accounts().unwrap();
    let ids: Vec<u32> = accounts.iter().map(|a| a.account_id).collect();
    assert_eq!(ids, vec![5, 7, 9]);
    assert_eq!(accounts.iter().map(|a| a.cash).sum::<i128>(), 0);
    assert_eq!(accounts.iter().flat_map(|a| a.positions.iter()).map(|p| p.position).sum::<i128>(), 0);
    assert_eq!(accounts[0].cash, 30_000);
    assert_eq!(accounts[0].positions[0].position, -3);
    assert_eq!(accounts[0].trades_count, 2);
    let nobody = engine.get_account_portfolio(1).unwrap();
    assert_eq!((nobody.cash, nobody.positions.len(), nobody.trades_count), (0, 0, 0));
}

#[test]
fn ledger_refuses_a_settlement_that_overflows() {
    let mut db = Database::new();
    assert_eq!(db.record_trades(&[trade(1, 1, 2, "ETH-USDC", 100, 10, 100)]), Ok(()));
    let r = db.record_trades(&[trade(2, 1, 2, "ETH-USDC", 100, 10, u128::MAX)]);
    assert_eq!(r, Err(DbError::Overflow));
    // nothing of the refused batch was kept
    assert_eq!(db.get_trades(None, None, None).unwrap().len(), 1);
    assert_eq!(db.get_account_portfolio(1).unwrap().cash, -100);
    assert_eq!(db.get_account_portfolio(2).unwrap().cash, 100);
}

#[test]
fn ledger_settles_a_repeated_trade_but_stores_it_once() {
    let mut db = Database::new();
    let t = trade(1, 1, 2, "ETH-USDC", 100, 10, 100);
    db.record_trades(&[t.clone()]).unwrap();
    db.record_trades(&[t]).unwrap();
    assert_eq!(db.get_trades(None, None, None).unwrap().len(), 1);
    assert_eq!(db.get_account_portfolio(1).unwrap().cash, -200);
    assert_eq!(db.get_account_portfolio(1).unwrap().positions[0].position, 20);
    assert_eq!(db.get_account_portfolio(2).unwrap().positions[0].position, -20);
}

#[test]
fn consumer_builds_urls_from_the_feed_address() {
    let consumer = FeedConsumer::new("http://127.0.0.1:3000//".to_string(), 100);
    assert_eq!(consumer.orders_url(), "http://127.0.0.1:3000/orders");
    assert_eq!(consumer.poll_url(), "http://127.0.0.1:3000/orders?since=0");
    assert_eq!(consumer.poll_interval_ms(), 100);
    let plain = FeedConsumer::new("http://feed".to_string(), 5);
    assert_eq!(plain.orders_url(), "http://feed/orders");
}

#[test]
fn consumer_counts_failures_until_a_success() {
    let mut consumer = FeedConsumer::new("http://feed".to_string(), 5);
    assert_eq!(consumer.record_success(), 0);
    assert_eq!(consumer.record_failure(), 1);
    assert_eq!(consumer.record_failure(), 2);
    assert_eq!(consumer.failure_count(), 2);
    assert_eq!(consumer.record_success(), 2);
    assert_eq!(consumer.failure_count(), 0);
}

#[test]
fn consumer_delivers_messages_and_remembers_the_highest_id() {
    let mut engine = MatchingEngine::new();
    let mut consumer = FeedConsumer::new("http://feed/".to_string(), 5);
    let batch = vec![
        new_order(1, 1, "ETH-USDC", Side::Sell, 10_000, 10),
        new_order(3, 2, "ETH-USDC", Side::Buy, 10_000, 10),
        new_order(2, 3, "ETH-USDC", Side::Buy, 9_000, 10),
    ];
    assert_eq!(consumer.deliver(&mut engine, batch), 3);
    assert_eq!(consumer.last_seen_id(), 3);
    assert_eq!(consumer.poll_url(), "http://feed/orders?since=3");
    assert_eq!(engine.get_stats().messages_processed, 3);
    assert_eq!(engine.get_stats().trades_executed, 1);
    // an older batch does not move the last seen id back
    assert_eq!(consumer.deliver(&mut engine, vec![OrderMessage::Cancel { id: 2, timestamp: 9, account: 3, target_id: 2 }]), 1);
    assert_eq!(consumer.last_seen_id(), 3);
    assert_eq!(engine.get_stats().open_orders_count, 0);
    assert_eq!(consumer.deliver(&mut engine, Vec::new()), 0);
    assert_eq!(consumer.poll_url(), "http://feed/orders?since=3");
}

#[test]
fn consumer_poll_url_writes_large_ids_in_decimal() {
    let mut engine = MatchingEngine::new();
    let mut consumer = FeedConsumer::new("x".to_string(), 1);
    consumer.deliver(&mut engine, vec![OrderMessage::Cancel { id: 1_234_567_890, timestamp: 0, account: 0, target_id: 1 }]);
    assert_eq!(consumer.poll_url(), "x/orders?since=1234567890");
}

#[test]
fn ledger_reads_back_recorded_trades_newest_first() {
    let mut db = Database::new();
    let batch = vec![
        trade(5, 1, 2, "ETH-USDC", 100, 10, 100),
        trade(2, 3, 1, "BTC-USDC", 1_000, 1, 100),
        trade(9, 2, 3, "ETH-USDC", 110, 20, 220),
    ];
    db.record_trades(&batch).unwrap();
    let ids: Vec<u64> = db.get_trades(None, None, None).unwrap().iter().map(|t| t.id).collect();
    assert_eq!(ids, vec![9, 5, 2]);
    let back = db.get_trades(None, None, None).unwrap();
    assert_eq!(back[2].symbol, "BTC-USDC");
    assert_eq!((back[2].buy_account, back[2].sell_account, back[2].value), (3, 1, 100));
}

#[test]
fn engine_trade_history_is_every_returned_trade() {
    let mut engine = MatchingEngine::new();
    let mut history: Vec<u64> = Vec::new();
    let msgs = vec![
        new_order(1, 1, "ETH-USDC", Side::Sell, 10_000, 10),
        new_order(2, 2, "BTC-USDC", Side::Sell, 100_000, 10),
        new_order(3, 3, "ETH-USDC", Side::Buy, 10_000, 5),
        new_order(4, 4, "BTC-USDC", Side::Buy, 100_000, 20),
        OrderMessage::Cancel { id: 5, timestamp: 5, account: 1, target_id: 1 },
        new_order(6, 5, "BTC-USDC", Side::Sell, 99_000, 15),
    ];
    for m in msgs {
        for t in engine.process_message(m) {
            history.push(t.id);
        }
    }
    assert_eq!(history, vec![1, 2, 3]);
    let newest_first: Vec<u64> = engine.get_trades(None, None, None).iter().map(|t| t.id).collect();
    history.reverse();
    assert_eq!(newest_first, history);
}
