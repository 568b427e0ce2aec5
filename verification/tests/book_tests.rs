use services::engine::types::compute_trade_value;
use services::engine::{BookOrder, OrderBook};
use services::feed::Side;

fn order(id: u64, side: Side, price: u64, quantity: u64) -> BookOrder {
    BookOrder::new(id, id * 10, id as u32, "ETH-USDC".to_string(), side, price, quantity)
}

#[test]
fn book_starts_empty() {
    let book = OrderBook::new("ETH-USDC".to_string());
    assert_eq!(book.best_bid(), None);
    assert_eq!(book.best_ask(), None);
    assert_eq!(book.spread(), None);
    assert!(book.aggregate_bids().is_empty());
    let view = book.to_view();
    assert_eq!(view.symbol, "ETH-USDC");
    assert_eq!(view.total_bids_quantity, 0);
    assert!(view.open_orders.is_empty());
}

#[test]
fn book_best_prices_and_spread() {
    let mut book = OrderBook::new("ETH-USDC".to_string());
    let mut next: u64 = 0;
    book.match_and_insert(order(1, Side::Buy, 9_900, 10), &mut next);
    book.match_and_insert(order(2, Side::Buy, 9_950, 10), &mut next);
    book.match_and_insert(order(3, Side::Sell, 10_100, 10), &mut next);
    book.match_and_insert(order(4, Side::Sell, 10_050, 10), &mut next);
    assert_eq!(next, 0);
    assert_eq!(book.best_bid(), Some(9_950));
    assert_eq!(book.best_ask(), Some(10_050));
    assert_eq!(book.spread(), Some(100));
}

#[test]
fn book_aggregates_levels_in_priority_order() {
    let mut book = OrderBook::new("ETH-USDC".to_string());
    let mut next: u64 = 0;
    book.match_and_insert(order(1, Side::Sell, 10_100, 10), &mut next);
    book.match_and_insert(order(2, Side::Sell, 10_000, 25), &mut next);
    book.match_and_insert(order(3, Side::Sell, 10_100, 5), &mut next);
    let asks = book.aggregate_asks();
    assert_eq!(asks.len(), 2);
    assert_eq!((asks[0].price, asks[0].quantity, asks[0].order_count), (10_000, 25, 1));
    assert_eq!((asks[1].price, asks[1].quantity, asks[1].order_count), (10_100, 15, 2));
    let view = book.to_view();
    assert_eq!(view.total_asks_quantity, 40);
    let ids: Vec<u64> = view.open_orders.iter().map(|o| o.id).collect();
    assert_eq!(ids, vec![2, 1, 3]);
}

#[test]
fn book_fill_conserves_quantity_and_numbers_trades() {
    let mut book = OrderBook::new("ETH-USDC".to_string());
    let mut next: u64 = 7;
    book.match_and_insert(order(1, Side::Sell, 10_000, 20), &mut next);
    book.match_and_insert(order(2, Side::Sell, 10_100, 20), &mut next);
    let trades = book.match_and_insert(order(3, Side::Buy, 10_100, 55), &mut next);
    assert_eq!(trades.len(), 2);
    assert_eq!((trades[0].id, trades[1].id), (8, 9));
    assert_eq!(next, 9);
    let traded: u64 = trades.iter().map(|t| t.quantity).sum();
    // 40 traded, 15 rest on the bid side at the order's own limit
    assert_eq!(traded, 40);
    assert_eq!(book.best_bid(), Some(10_100));
    assert_eq!(book.aggregate_bids()[0].quantity, 15);
    assert_eq!(book.best_ask(), None);
    let view = book.to_view();
    assert_eq!(view.open_orders[0].initial_quantity, 55);
    assert_eq!(view.open_orders[0].quantity, 15);
}

#[test]
fn book_uncrossed_after_every_order() {
    let mut book = OrderBook::new("ETH-USDC".to_string());
    let mut next: u64 = 0;
    let prices = [10_000u64, 10_200, 9_800, 10_100, 9_900, 10_050, 9_950];
    for (i, p) in prices.iter().enumerate() {
        let side = if i % 2 == 0 { Side::Buy } else { Side::Sell };
        book.match_and_insert(order(i as u64 + 1, side, *p, 10 + i as u64), &mut next);
        if let (Some(b), Some(a)) = (book.best_bid(), book.best_ask()) {
            assert!(b < a);
        }
    }
}

#[test]
fn book_cancel_removes_the_order_once() {
    let mut book = OrderBook::new("ETH-USDC".to_string());
    let mut next: u64 = 0;
    book.match_and_insert(order(1, Side::Buy, 9_900, 10), &mut next);
    book.match_and_insert(order(2, Side::Sell, 10_100, 10), &mut next);
    let gone = book.cancel_order(2).unwrap();
    assert_eq!((gone.id, gone.price, gone.side), (2, 10_100, Side::Sell));
    assert!(book.cancel_order(2).is_none());
    assert!(book.cancel_order(99).is_none());
    assert_eq!(book.best_ask(), None);
    assert_eq!(book.best_bid(), Some(9_900));
}

#[test]
fn book_trade_value_rounds_half_up_to_a_hundredth() {
    // 100.01 * 0.5 = 50.005 -> 50.01
    assert_eq!(compute_trade_value(10_001, 5), 5_001);
    // 1.00 * 0.1 = 0.10
    assert_eq!(compute_trade_value(100, 1), 10);
    // 100.00 * 5.0 = 500.00
    assert_eq!(compute_trade_value(10_000, 50), 50_000);
    // 0.01 * 0.4 = 0.004 -> 0.00
    assert_eq!(compute_trade_value(1, 4), 0);
    assert_eq!(compute_trade_value(u64::MAX, u64::MAX), ((u64::MAX as u128) * (u64::MAX as u128) + 5) / 10);
}
