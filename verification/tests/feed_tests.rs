use services::feed::state::{symbol_names, Draw, SubmitError};
use services::feed::{is_listed_symbol, millis_or_zero, now_millis, FeedState, OrderMessage, Side};

fn new_order(state: &mut FeedState, account: u32, symbol: &str, side: Side, price: u64, quantity: u64) -> u64 {
    state
        .submit_order(account, symbol.to_string(), side, price, quantity, 1_000)
        .unwrap()
}

#[test]
fn feed_starts_empty_with_first_id_one() {
    let mut state = FeedState::new(5);
    assert!(state.messages().is_empty());
    let id = new_order(&mut state, 1, "ETH-USDC", Side::Buy, 10_000, 10);
    assert_eq!(id, 1);
}

#[test]
fn feed_ids_increase_across_orders_and_cancels() {
    let mut state = FeedState::new(5);
    let a = new_order(&mut state, 1, "ETH-USDC", Side::Buy, 10_000, 10);
    let b = state.submit_cancel(1, a, 2_000);
    let c = new_order(&mut state, 2, "BTC-USDC", Side::Sell, 100_000, 5);
    assert_eq!((a, b, c), (1, 2, 3));
    let ids: Vec<u64> = state.messages().iter().map(|m| m.id()).collect();
    assert_eq!(ids, vec![1, 2, 3]);
    match &state.messages()[1] {
        OrderMessage::Cancel { id, timestamp, account, target_id } => {
            assert_eq!((*id, *timestamp, *account, *target_id), (2, 2_000, 1, 1));
        }
        _ => panic!("expected a cancel"),
    }
}

#[test]
fn feed_refuses_unknown_symbol() {
    let mut state = FeedState::new(5);
    let r = state.submit_order(1, "DOGE-USDC".to_string(), Side::Buy, 100, 10, 1_000);
    assert_eq!(r, Err(SubmitError::UnknownSymbol));
    assert!(state.messages().is_empty());
}

#[test]
fn feed_refuses_zero_price_or_quantity() {
    let mut state = FeedState::new(5);
    let r = state.submit_order(1, "ETH-USDC".to_string(), Side::Buy, 0, 10, 1_000);
    assert_eq!(r, Err(SubmitError::NotPositive));
    let r = state.submit_order(1, "ETH-USDC".to_string(), Side::Sell, 100, 0, 1_000);
    assert_eq!(r, Err(SubmitError::NotPositive));
    assert!(state.messages().is_empty());
    // the unknown symbol is reported first
    let r = state.submit_order(1, "eth-usdc".to_string(), Side::Sell, 0, 0, 1_000);
    assert_eq!(r, Err(SubmitError::UnknownSymbol));
}

#[test]
fn feed_submitted_order_is_published_as_given() {
    let mut state = FeedState::new(5);
    new_order(&mut state, 7, "NEX-USDC", Side::Sell, 1_025, 35);
    match &state.messages()[0] {
        OrderMessage::New { id, timestamp, account, symbol, side, price, quantity } => {
            assert_eq!(*id, 1);
            assert_eq!(*timestamp, 1_000);
            assert_eq!(*account, 7);
            assert_eq!(symbol, "NEX-USDC");
            assert_eq!(*side, Side::Sell);
            assert_eq!(*price, 1_025);
            assert_eq!(*quantity, 35);
        }
        _ => panic!("expected a new order"),
    }
}

#[test]
fn feed_get_orders_since_and_last_n() {
    let mut state = FeedState::new(5);
    for i in 0..5u64 {
        new_order(&mut state, 1, "ETH-USDC", Side::Buy, 10_000 + i, 10);
    }
    let ids = |v: Vec<OrderMessage>| v.iter().map(|m| m.id()).collect::<Vec<u64>>();
    assert_eq!(ids(state.get_orders(None, None)), vec![1, 2, 3, 4, 5]);
    assert_eq!(ids(state.get_orders(Some(3), None)), vec![4, 5]);
    assert_eq!(ids(state.get_orders(Some(5), None)), Vec::<u64>::new());
    assert_eq!(ids(state.get_orders(Some(0), None)), vec![1, 2, 3, 4, 5]);
    assert_eq!(ids(state.get_orders(None, Some(2))), vec![4, 5]);
    assert_eq!(ids(state.get_orders(None, Some(10))), vec![1, 2, 3, 4, 5]);
    assert_eq!(ids(state.get_orders(Some(1), Some(1))), vec![5]);
    assert_eq!(ids(state.get_orders(None, Some(0))), Vec::<u64>::new());
}

#[test]
fn feed_poll_since_highest_seen_gives_only_new_messages() {
    let mut state = FeedState::new(5);
    new_order(&mut state, 1, "ETH-USDC", Side::Buy, 10_000, 10);
    new_order(&mut state, 2, "ETH-USDC", Side::Sell, 10_100, 10);
    let seen = state.get_orders(Some(0), None);
    let highest = seen.iter().map(|m| m.id()).max().unwrap();
    let id = state.submit_cancel(1, 1, 3_000);
    let fresh = state.get_orders(Some(highest), None);
    assert_eq!(fresh.len(), 1);
    assert_eq!(fresh[0].id(), id);
}

#[test]
fn feed_draw_of_new_order_follows_the_formulas() {
    let mut state = FeedState::new(5);
    // neutral drift and spread: the NEX-USDC mid of 10.00 is kept and quoted as is
    let m = state.apply_draw(
        42,
        Draw::New { symbol_index: 0, drift: 2_000, spread: 5_000, quantity: 0, buy: true, account: 3 },
    );
    match m {
        OrderMessage::New { id, timestamp, account, symbol, side, price, quantity } => {
            assert_eq!((id, timestamp, account), (1, 42, 3));
            assert_eq!(symbol, "NEX-USDC");
            assert_eq!(side, Side::Buy);
            assert_eq!(price, 1_000);
            assert_eq!(quantity, 10);
        }
        _ => panic!("expected a new order"),
    }
    // the mid drifts up by 0.1999% to 10.01999, and the order is priced 0.4999% above it:
    // 10.01999 * 1.004999 = 10.0700799... -> 10.07; quantity 1.0 + 8.95 = 9.95 -> 10.0 (tenths, half up)
    let m = state.apply_draw(
        43,
        Draw::New { symbol_index: 0, drift: 3_999, spread: 9_999, quantity: 8_950_000, buy: false, account: 4 },
    );
    match m {
        OrderMessage::New { id, side, price, quantity, .. } => {
            assert_eq!(id, 2);
            assert_eq!(side, Side::Sell);
            assert_eq!(price, 1_007);
            assert_eq!(quantity, 100);
        }
        _ => panic!("expected a new order"),
    }
}

#[test]
fn feed_draw_of_cancel_targets_a_recent_order() {
    let mut state = FeedState::new(5);
    state.apply_draw(1, Draw::New { symbol_index: 1, drift: 2_000, spread: 5_000, quantity: 0, buy: true, account: 2 });
    let m = state.apply_draw(2, Draw::Cancel { index: 0 });
    match m {
        OrderMessage::Cancel { id, timestamp, account, target_id } => {
            assert_eq!((id, timestamp, account, target_id), (2, 2, 2, 1));
        }
        _ => panic!("expected a cancel"),
    }
}

#[test]
fn feed_generated_messages_are_published_in_id_order() {
    let mut state = FeedState::new(3);
    for _ in 0..200 {
        state.publish_generated(now_millis());
    }
    let msgs = state.messages();
    assert_eq!(msgs.len(), 200);
    for (i, m) in msgs.iter().enumerate() {
        assert_eq!(m.id(), i as u64 + 1);
        match m {
            OrderMessage::New { symbol, account, price, quantity, .. } => {
                assert!(is_listed_symbol(symbol));
                assert!(*account < 3);
                assert!(*price > 0);
                assert!((10..=100).contains(quantity));
            }
            OrderMessage::Cancel { target_id, .. } => {
                assert!(*target_id < m.id());
            }
        }
    }
}

#[test]
fn feed_side_parsing_ignores_case_and_takes_shorthands() {
    assert_eq!(Side::parse("buy"), Ok(Side::Buy));
    assert_eq!(Side::parse("Bid"), Ok(Side::Buy));
    assert_eq!(Side::parse("b"), Ok(Side::Buy));
    assert_eq!(Side::parse("SELL"), Ok(Side::Sell));
    assert_eq!(Side::parse("ask"), Ok(Side::Sell));
    assert_eq!(Side::parse("S"), Ok(Side::Sell));
    assert_eq!("sElL".parse::<Side>(), Ok(Side::Sell));
}

#[test]
fn feed_side_parsing_error_names_the_input() {
    assert_eq!(Side::parse("hold"), Err("'hold' is not a valid side".to_string()));
    assert_eq!("".parse::<Side>(), Err("'' is not a valid side".to_string()));
}

#[test]
fn feed_lists_three_symbols() {
    assert_eq!(symbol_names(), vec!["NEX-USDC".to_string(), "ETH-USDC".to_string(), "BTC-USDC".to_string()]);
    assert!(is_listed_symbol("BTC-USDC"));
    assert!(!is_listed_symbol("btc-usdc"));
    assert!(!is_listed_symbol(""));
}

#[test]
fn feed_clock_is_after_2020() {
    assert!(now_millis() > 1_577_836_800_000);
}

#[test]
fn feed_clock_reading_becomes_milliseconds() {
    assert_eq!(millis_or_zero(Some(1_700_000_000_123)), 1_700_000_000_123);
    assert_eq!(millis_or_zero(Some((1u128 << 64) + 7)), 7);
    assert_eq!(millis_or_zero(None), 0);
}
