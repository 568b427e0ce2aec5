use crate::feed::{AccountId, OrderId, Side};
use vstd::prelude::*;

verus! {

/// A price, in hundredths of the quote token (two decimal places).
pub type Price = u64;

/// A quantity, in tenths of the base token (one decimal place).
pub type Quantity = u64;

/// An amount of the quote token, in hundredths (the unit of `Price`).
pub type Notional = u128;

/// The notional value of `quantity` units traded at `price`, in hundredths of
/// the quote token, rounded half up to a whole hundredth.
///
/// `price` is in hundredths and `quantity` in tenths, so the exact product is
/// `price * quantity / 10` hundredths.
pub open spec fn trade_value(price: Price, quantity: Quantity) -> int {
    (price * quantity + 5) / 10
}

/// Computes `trade_value`.
pub fn compute_trade_value(price: Price, quantity: Quantity) -> (v: Notional)
    ensures
        v == trade_value(price, quantity),
{
    let p: u128 = price as u128;
    let q: u128 = quantity as u128;
    assert(p * q <= 0xffff_ffff_ffff_ffffu128 * 0xffff_ffff_ffff_ffffu128) by (nonlinear_arith)
        requires
            p <= 0xffff_ffff_ffff_ffffu128,
            q <= 0xffff_ffff_ffff_ffffu128,
    ;
    (p * q + 5) / 10
}

/// An active limit order in an order book.
#[derive(Debug)]
pub struct BookOrder {
    pub id: OrderId,
    pub timestamp: u64,
    pub account: AccountId,
    pub symbol: String,
    pub side: Side,
    pub price: Price,
    pub quantity: Quantity,
    pub initial_quantity: Quantity,
}

impl BookOrder {
    /// A new order whose remaining quantity is its initial quantity.
    pub fn new(
        id: OrderId,
        timestamp: u64,
        account: AccountId,
        symbol: String,
        side: Side,
        price: Price,
        quantity: Quantity,
    ) -> (o: Self)
        ensures
            o == (BookOrder {
                id,
                timestamp,
                account,
                symbol,
                side,
                price,
                quantity,
                initial_quantity: quantity,
            }),
    {
        BookOrder { id, timestamp, account, symbol, side, price, quantity, initial_quantity: quantity }
    }
}

impl Clone for BookOrder {
    fn clone(&self) -> (r: Self)
        ensures
            r == *self,
    {
        BookOrder {
            id: self.id,
            timestamp: self.timestamp,
            account: self.account,
            symbol: self.symbol.clone(),
            side: self.side,
            price: self.price,
            quantity: self.quantity,
            initial_quantity: self.initial_quantity,
        }
    }
}

/// An executed trade between a resting (maker) order and an incoming (taker) order.
#[derive(Debug)]
pub struct Trade {
    pub id: u64,
    pub timestamp: u64,
    pub symbol: String,
    pub buy_order_id: OrderId,
    pub sell_order_id: OrderId,
    pub maker_order_id: OrderId,
    pub taker_order_id: OrderId,
    pub buy_account: AccountId,
    pub sell_account: AccountId,
    pub price: Price,
    pub quantity: Quantity,
    pub value: Notional,
}

impl Clone for Trade {
    fn clone(&self) -> (r: Self)
        ensures
            r == *self,
    {
        Trade {
            id: self.id,
            timestamp: self.timestamp,
            symbol: self.symbol.clone(),
            buy_order_id: self.buy_order_id,
            sell_order_id: self.sell_order_id,
            maker_order_id: self.maker_order_id,
            taker_order_id: self.taker_order_id,
            buy_account: self.buy_account,
            sell_account: self.sell_account,
            price: self.price,
            quantity: self.quantity,
            value: self.value,
        }
    }
}

/// An aggregated price level of one side of a book.
#[derive(Debug, Clone, Copy, PartialEq, Eq, Structural)]
pub struct PriceLevelView {
    pub price: Price,
    /// Total quantity resting at this price (tenths; may exceed one order's range).
    pub quantity: u128,
    pub order_count: usize,
}

/// A snapshot of the order book of one symbol.
#[derive(Debug)]
pub struct OrderBookView {
    pub symbol: String,
    pub best_bid: Option<Price>,
    pub best_ask: Option<Price>,
    pub spread: Option<Price>,
    pub bids: Vec<PriceLevelView>,
    pub asks: Vec<PriceLevelView>,
    pub total_bids_quantity: u128,
    pub total_asks_quantity: u128,
    pub open_orders: Vec<BookOrder>,
}

impl OrderBookView {
    /// Two snapshots hold the same data.
    pub open spec fn same_as(&self, other: &OrderBookView) -> bool {
        &&& self.symbol == other.symbol
        &&& self.best_bid == other.best_bid
        &&& self.best_ask == other.best_ask
        &&& self.spread == other.spread
        &&& self.bids@ == other.bids@
        &&& self.asks@ == other.asks@
        &&& self.total_bids_quantity == other.total_bids_quantity
        &&& self.total_asks_quantity == other.total_asks_quantity
        &&& self.open_orders@ == other.open_orders@
    }
}

impl Clone for OrderBookView {
    fn clone(&self) -> (r: Self)
        ensures
            r.same_as(self),
    {
        let bids = self.bids.clone();
        let asks = self.asks.clone();
        let open_orders = self.open_orders.clone();
        assert(bids@ == self.bids@);
        assert(asks@ == self.asks@);
        assert(open_orders@ == self.open_orders@);
        OrderBookView {
            symbol: self.symbol.clone(),
            best_bid: self.best_bid,
            best_ask: self.best_ask,
            spread: self.spread,
            bids,
            asks,
            total_bids_quantity: self.total_bids_quantity,
            total_asks_quantity: self.total_asks_quantity,
            open_orders,
        }
    }
}

/// Summary statistics of the matching engine.
#[derive(Debug, Clone, Copy, PartialEq, Eq, Structural)]
pub struct EngineStats {
    pub messages_processed: u64,
    pub orders_received: u64,
    pub cancels_received: u64,
    pub trades_executed: u64,
    /// Sum of traded quantities (tenths), saturating at `u128::MAX`.
    pub total_volume_traded: u128,
    /// Sum of traded values (hundredths), saturating at `u128::MAX`.
    pub total_value_traded: u128,
    pub open_orders_count: usize,
}

impl Default for EngineStats {
    /// All counters at zero.
    fn default() -> (s: Self)
        ensures
            s == (EngineStats {
                messages_processed: 0,
                orders_received: 0,
                cancels_received: 0,
                trades_executed: 0,
                total_volume_traded: 0,
                total_value_traded: 0,
                open_orders_count: 0,
            }),
    {
        EngineStats {
            messages_processed: 0,
            orders_received: 0,
            cancels_received: 0,
            trades_executed: 0,
            total_volume_traded: 0,
            total_value_traded: 0,
            open_orders_count: 0,
        }
    }
}

/// A holding of one symbol in an account's portfolio (tenths of the base token).
#[derive(Debug)]
pub struct PositionView {
    pub symbol: String,
    pub position: i128,
}

impl Clone for PositionView {
    fn clone(&self) -> (r: Self)
        ensures
            r == *self,
    {
        PositionView { symbol: self.symbol.clone(), position: self.position }
    }
}

/// An account's cash balance (hundredths of the quote token), its positions,
/// and the number of trades it took part in.
#[derive(Debug)]
pub struct AccountPortfolio {
    pub account_id: AccountId,
    pub cash: i128,
    pub positions: Vec<PositionView>,
    pub trades_count: usize,
}

} // verus!
