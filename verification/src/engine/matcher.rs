use crate::engine::book::{
    traded_quantity, law_trades_follow_priority, lemma_fill, book_after_cancel, book_after_order, describes, holds_id, order_trades, BookState, OrderBook,
};
use crate::engine::db::{
    ascending, count_below, lemma_count_below, trade_keys, lists_account, total_cash, total_position, limited, newest_first, reports, settle_all, snapshot_for, symbol_filter, trades_after,
    Database, DbError,
};
use crate::engine::types::{AccountPortfolio, BookOrder, EngineStats, OrderBookView, Trade};
use crate::feed::{listed_symbol, symbol_name, to_uppercase, uppercase, AccountId, OrderMessage, SYMBOL_COUNT};
use crate::text::{str_equal, str_lt};
use vstd::prelude::*;
use vstd::string::*;

verus! {

/// Total number of resting orders in the books.
pub open spec fn total_open(books: Seq<BookState>) -> int
    decreases books.len(),
{
    if books.len() == 0 {
        0
    } else {
        total_open(books.drop_last()) + books.last().open_count()
    }
}

/// No two books have the same symbol.
pub open spec fn symbols_distinct(books: Seq<BookState>) -> bool {
    forall|i: int, j: int|
        0 <= i < j < books.len() ==> (#[trigger] books[i]).symbol@ != (#[trigger] books[j]).symbol@
}

/// The position of the book of `symbol`, or the number of books if there is none.
pub open spec fn book_index(books: Seq<BookState>, symbol: Seq<char>) -> int {
    if exists|i: int| 0 <= i < books.len() && (#[trigger] books[i]).symbol@ == symbol {
        choose|i: int| 0 <= i < books.len() && (#[trigger] books[i]).symbol@ == symbol
    } else {
        books.len() as int
    }
}

/// The book an order for `symbol` goes to: its own book, or a new empty one.
pub open spec fn target_book(books: Seq<BookState>, symbol: String) -> BookState {
    let k = book_index(books, symbol@);
    if k < books.len() {
        books[k]
    } else {
        BookState { symbol, bids: Seq::empty(), asks: Seq::empty() }
    }
}

/// The book holds a resting order with id `id`.
pub open spec fn book_holds(b: BookState, id: u64) -> bool {
    holds_id(b.bids, id) || holds_id(b.asks, id)
}

/// The first book from position `from` on that holds an order with id `id`,
/// or the number of books if none does.
pub open spec fn first_holder(books: Seq<BookState>, id: u64, from: int) -> int
    decreases books.len() - from,
{
    if from < 0 || from >= books.len() {
        books.len() as int
    } else if book_holds(books[from], id) {
        from
    } else {
        first_holder(books, id, from + 1)
    }
}

/// `x`, capped at `u128::MAX`.
pub open spec fn saturated(x: int) -> u128 {
    if x > u128::MAX {
        u128::MAX
    } else {
        x as u128
    }
}

/// `v` plus the quantities of `ts`, saturating.
pub open spec fn volume_after(v: u128, ts: Seq<Trade>) -> u128
    decreases ts.len(),
{
    if ts.len() == 0 {
        v
    } else {
        volume_after(saturated(v + ts[0].quantity), ts.drop_first())
    }
}

/// `v` plus the values of `ts`, saturating.
pub open spec fn value_after(v: u128, ts: Seq<Trade>) -> u128
    decreases ts.len(),
{
    if ts.len() == 0 {
        v
    } else {
        value_after(saturated(v + ts[0].value), ts.drop_first())
    }
}

/// Open-order totals of a prefix never exceed the whole.
proof fn lemma_total_open_prefix(bs: Seq<BookState>, k: int)
    requires
        0 <= k <= bs.len(),
    ensures
        0 <= total_open(bs.take(k)) <= total_open(bs),
    decreases bs.len() - k,
{
    if k < bs.len() {
        lemma_total_open_prefix(bs, k + 1);
        assert(bs.take(k + 1).drop_last() == bs.take(k));
        assert(bs.take(k + 1).last() == bs[k]);
        lemma_total_open_nonneg(bs.take(k));
    } else {
        assert(bs.take(k) == bs);
        lemma_total_open_nonneg(bs);
    }
}

proof fn lemma_total_open_nonneg(bs: Seq<BookState>)
    ensures
        total_open(bs) >= 0,
    decreases bs.len(),
{
    if bs.len() > 0 {
        lemma_total_open_nonneg(bs.drop_last());
    }
}

/// One book's orders are part of the total.
proof fn lemma_total_open_parts(bs: Seq<BookState>, k: int)
    requires
        0 <= k < bs.len(),
    ensures
        bs[k].open_count() <= total_open(bs),
    decreases bs.len(),
{
    lemma_total_open_nonneg(bs.drop_last());
    if k < bs.len() - 1 {
        lemma_total_open_parts(bs.drop_last(), k);
    }
}

/// Replacing one book changes the total by the change in that book.
proof fn lemma_total_open_update(bs: Seq<BookState>, k: int, b: BookState)
    requires
        0 <= k < bs.len(),
    ensures
        total_open(bs.update(k, b)) == total_open(bs) - bs[k].open_count() + b.open_count(),
    decreases bs.len(),
{
    let u = bs.update(k, b);
    if k == bs.len() - 1 {
        assert(u.drop_last() == bs.drop_last());
    } else {
        lemma_total_open_update(bs.drop_last(), k, b);
        assert(u.drop_last() == bs.drop_last().update(k, b));
    }
}

/// A new order adds at most one resting order to a book.
proof fn lemma_book_after_order_count(b0: BookState, b1: BookState, order: BookOrder, last_id: u64)
    requires
        b0.ok(),
        book_after_order(b0, b1, order, last_id),
        last_id + b0.makers_for(order.side).len() <= u64::MAX,
    ensures
        b1.open_count() <= b0.open_count() + 1,
{
    lemma_fill(order, order.quantity, b0.makers_for(order.side), last_id, b0.symbol);
}

/// `first_holder` finds the first book holding the order.
proof fn lemma_first_holder(books: Seq<BookState>, id: u64, i: int)
    requires
        0 <= i <= books.len(),
        forall|j: int| 0 <= j < i ==> !book_holds(#[trigger] books[j], id),
        i < books.len() ==> book_holds(books[i], id),
    ensures
        first_holder(books, id, 0) == i,
{
    lemma_first_holder_from(books, id, 0, i);
}

proof fn lemma_first_holder_from(books: Seq<BookState>, id: u64, from: int, i: int)
    requires
        0 <= from <= i <= books.len(),
        forall|j: int| from <= j < i ==> !book_holds(#[trigger] books[j], id),
        i < books.len() ==> book_holds(books[i], id),
    ensures
        first_holder(books, id, from) == i,
    decreases i - from,
{
    if from < i {
        lemma_first_holder_from(books, id, from + 1, i);
    }
}

/// What processing `message` does: `e0` is the engine before, `e1` after, and
/// `trades` the trades executed. A new order trades against its symbol's book
/// (opened empty for an unknown symbol) and rests what remains; its trades are
/// counted and settled in the ledger (all or none) and the book's snapshot is
/// stored. A cancel removes the target from the first book holding it, if any,
/// and stores that book's snapshot. Other books are unchanged.
pub open spec fn message_applied(e0: MatchingEngine, e1: MatchingEngine, message: OrderMessage, trades: Seq<Trade>) -> bool {
    let ob = e0.books_view();
    let nb = e1.books_view();
    let os = e0.stats_view();
    let ns = e1.stats_view();
    match message {
        OrderMessage::New { id, timestamp, account, symbol, side, price, quantity } => {
            let order = BookOrder {
                id,
                timestamp,
                account,
                symbol,
                side,
                price,
                quantity,
                initial_quantity: quantity,
            };
            let k = book_index(ob, symbol@);
            let b0 = target_book(ob, symbol);
            let ts = order_trades(b0, order, e0.last_trade_id());
            &&& trades == ts
            &&& nb.len() == if k < ob.len() {
                ob.len() as int
            } else {
                ob.len() + 1int
            }
            &&& book_after_order(b0, nb[k], order, e0.last_trade_id())
            &&& forall|j: int| 0 <= j < ob.len() && j != k ==> #[trigger] nb[j] == ob[j]
            &&& e1.last_trade_id() == e0.last_trade_id() + ts.len()
            &&& ns.messages_processed == os.messages_processed + 1
            &&& ns.orders_received == os.orders_received + 1
            &&& ns.cancels_received == os.cancels_received
            &&& ns.trades_executed == os.trades_executed + ts.len()
            &&& ns.total_volume_traded == volume_after(os.total_volume_traded, ts)
            &&& ns.total_value_traded == value_after(os.total_value_traded, ts)
            &&& ns.open_orders_count == total_open(nb)
            &&& ts.len() == 0 ==> {
                &&& e1.ledger().trade_rows() == e0.ledger().trade_rows()
                &&& e1.ledger().balance_rows() == e0.ledger().balance_rows()
                &&& e1.ledger().position_rows() == e0.ledger().position_rows()
            }
            &&& ts.len() > 0 ==> match settle_all(
                e0.ledger().balance_rows(),
                e0.ledger().position_rows(),
                ts,
            ) {
                Some(st) => {
                    &&& e1.ledger().balance_rows() == st.0
                    &&& e1.ledger().position_rows() == st.1
                    &&& e1.ledger().trade_rows() == trades_after(e0.ledger().trade_rows(), ts)
                },
                None => {
                    &&& e1.ledger().trade_rows() == e0.ledger().trade_rows()
                    &&& e1.ledger().balance_rows() == e0.ledger().balance_rows()
                    &&& e1.ledger().position_rows() == e0.ledger().position_rows()
                },
            }
            &&& snapshot_for(e1.ledger().snapshot_rows(), symbol@) is Some
            &&& describes(snapshot_for(e1.ledger().snapshot_rows(), symbol@).unwrap(), nb[k])
            &&& forall|s: Seq<char>|
                s != symbol@ ==> #[trigger] snapshot_for(e1.ledger().snapshot_rows(), s)
                    == snapshot_for(e0.ledger().snapshot_rows(), s)
        },
        OrderMessage::Cancel { target_id, .. } => {
            let c = first_holder(ob, target_id, 0);
            &&& trades.len() == 0
            &&& nb.len() == ob.len()
            &&& forall|j: int| 0 <= j < ob.len() && j != c ==> #[trigger] nb[j] == ob[j]
            &&& c < ob.len() ==> exists|o: BookOrder|
                book_after_cancel(ob[c], nb[c], target_id, Some(o))
            &&& c < ob.len() ==> snapshot_for(e1.ledger().snapshot_rows(), ob[c].symbol@) is Some
                && describes(
                snapshot_for(e1.ledger().snapshot_rows(), ob[c].symbol@).unwrap(),
                nb[c],
            )
            &&& forall|s: Seq<char>|
                (c == ob.len() || s != ob[c].symbol@) ==> #[trigger] snapshot_for(
                    e1.ledger().snapshot_rows(),
                    s,
                ) == snapshot_for(e0.ledger().snapshot_rows(), s)
            &&& e1.last_trade_id() == e0.last_trade_id()
            &&& ns == EngineStats {
                messages_processed: (os.messages_processed + 1) as u64,
                cancels_received: (os.cancels_received + 1) as u64,
                open_orders_count: total_open(nb) as usize,
                ..os
            }
            &&& e1.ledger().trade_rows() == e0.ledger().trade_rows()
            &&& e1.ledger().balance_rows() == e0.ledger().balance_rows()
            &&& e1.ledger().position_rows() == e0.ledger().position_rows()
        },
    }
}

/// Engine states `states` go from message to message of `ms`: each step is what
/// processing that message does, with the trades in `trades`.
pub open spec fn applied_in_order(
    states: Seq<MatchingEngine>,
    trades: Seq<Seq<Trade>>,
    ms: Seq<OrderMessage>,
) -> bool {
    &&& states.len() == ms.len() + 1
    &&& trades.len() == ms.len()
    &&& forall|i: int|
        0 <= i < ms.len() ==> #[trigger] message_applied(states[i], states[i + 1], ms[i], trades[i])
}

/// The central matching engine: one order book per symbol, trade execution,
/// statistics, and the ledger of trades, balances, positions and snapshots.
pub struct MatchingEngine {
    books: Vec<OrderBook>,
    stats: EngineStats,
    next_trade_id: u64,
    pub db: Database,
}

impl MatchingEngine {
    /// The books, in the order they were opened.
    pub closed spec fn books_view(&self) -> Seq<BookState> {
        Seq::new(self.books@.len(), |i: int| self.books@[i]@)
    }

    /// The engine's statistics.
    pub closed spec fn stats_view(&self) -> EngineStats {
        self.stats
    }

    /// The id of the last trade executed (0 before the first).
    pub closed spec fn last_trade_id(&self) -> u64 {
        self.next_trade_id
    }

    /// The engine's ledger.
    pub closed spec fn ledger(&self) -> Database {
        self.db
    }

    /// What the engine's invariant holds: every book is well formed, no two
    /// books share a symbol, the ledger is well formed, and the statistics add up.
    pub proof fn lemma_invariant_parts(&self)
        requires
            self.wf(),
        ensures
            forall|i: int| 0 <= i < self.books_view().len() ==> (#[trigger] self.books_view()[i]).ok(),
            symbols_distinct(self.books_view()),
            self.ledger().wf(),
            self.stats_view().open_orders_count == total_open(self.books_view()),
            self.stats_view().orders_received + self.stats_view().cancels_received
                == self.stats_view().messages_processed,
            self.stats_view().trades_executed == self.last_trade_id(),
    {
        assert forall|i: int| 0 <= i < self.books_view().len() implies (#[trigger] self.books_view()[i]).ok() by {
            assert(self.books@[i].wf());
        }
    }

    /// The engine's invariant: every book is well formed and books have distinct
    /// symbols; the ledger is well formed; the open-order count is the number of
    /// resting orders; every message was an order or a cancel; and one trade id
    /// was used per executed trade.
    pub closed spec fn wf(&self) -> bool {
        &&& forall|i: int| 0 <= i < self.books@.len() ==> (#[trigger] self.books@[i]).wf()
        &&& symbols_distinct(self.books_view())
        &&& self.db.wf()
        &&& self.stats.open_orders_count == total_open(self.books_view())
        &&& self.stats.orders_received + self.stats.cancels_received == self.stats.messages_processed
        &&& self.stats.trades_executed == self.next_trade_id
    }

    /// The counters can take one more message: fewer than `u64::MAX` messages so
    /// far, and room for a trade against every resting order.
    pub open spec fn has_room(&self) -> bool {
        &&& self.stats_view().messages_processed < u64::MAX
        &&& self.last_trade_id() + total_open(self.books_view()) < u64::MAX
        &&& total_open(self.books_view()) < usize::MAX
    }

    /// The position of the book of `symbol`, or the number of books.
    fn find_book(&self, symbol: &str) -> (r: usize)
        requires
            symbols_distinct(self.books_view()),
        ensures
            r == book_index(self.books_view(), symbol@),
            r <= self.books@.len(),
    {
        let ghost bv = self.books_view();
        let mut i: usize = 0;
        while i < self.books.len()
            invariant
                i <= self.books@.len(),
                bv == self.books_view(),
                symbols_distinct(bv),
                forall|j: int| 0 <= j < i ==> (#[trigger] bv[j]).symbol@ != symbol@,
            decreases self.books@.len() - i,
        {
            if str_equal(self.books[i].symbol.as_str(), symbol) {
                proof {
                    assert(bv[i as int].symbol@ == symbol@);
                    let c = book_index(bv, symbol@);
                    if c != i {
                        assert(bv[c].symbol@ == symbol@);
                    }
                }
                return i;
            }
            i = i + 1;
        }
        i
    }

    /// Adds executed trades to the trade count and the traded volume and value.
    fn count_trades(&mut self, trades: &Vec<Trade>)
        requires
            old(self).stats.trades_executed + trades@.len() <= u64::MAX,
        ensures
            final(self).stats == (EngineStats {
                trades_executed: (old(self).stats.trades_executed + trades@.len()) as u64,
                total_volume_traded: volume_after(old(self).stats.total_volume_traded, trades@),
                total_value_traded: value_after(old(self).stats.total_value_traded, trades@),
                ..old(self).stats
            }),
            final(self).books == old(self).books,
            final(self).next_trade_id == old(self).next_trade_id,
            final(self).db == old(self).db,
    {
        let ghost ts = trades@;
        let mut i: usize = 0;
        assert(ts.skip(0) == ts);
        while i < trades.len()
            invariant
                i <= ts.len(),
                ts == trades@,
                self.stats.trades_executed == old(self).stats.trades_executed + i,
                old(self).stats.trades_executed + ts.len() <= u64::MAX,
                volume_after(old(self).stats.total_volume_traded, ts) == volume_after(
                    self.stats.total_volume_traded,
                    ts.skip(i as int),
                ),
                value_after(old(self).stats.total_value_traded, ts) == value_after(
                    self.stats.total_value_traded,
                    ts.skip(i as int),
                ),
                self.stats == (EngineStats {
                    trades_executed: self.stats.trades_executed,
                    total_volume_traded: self.stats.total_volume_traded,
                    total_value_traded: self.stats.total_value_traded,
                    ..old(self).stats
                }),
                self.books == old(self).books,
                self.next_trade_id == old(self).next_trade_id,
                self.db == old(self).db,
            decreases ts.len() - i,
        {
            proof {
                assert(ts.skip(i as int).drop_first() == ts.skip(i as int + 1));
                assert(ts.skip(i as int)[0] == ts[i as int]);
            }
            self.stats.trades_executed = self.stats.trades_executed + 1;
            self.stats.total_volume_traded = self.stats.total_volume_traded.saturating_add(trades[i].quantity as u128);
            self.stats.total_value_traded = self.stats.total_value_traded.saturating_add(trades[i].value);
            i = i + 1;
        }
        assert(ts.skip(ts.len() as int) =~= Seq::<Trade>::empty());
    }

    /// Sets the open-order count to the number of resting orders.
    fn update_open_orders_count(&mut self)
        requires
            total_open(old(self).books_view()) <= usize::MAX,
        ensures
            final(self).stats == (EngineStats {
                open_orders_count: total_open(old(self).books_view()) as usize,
                ..old(self).stats
            }),
            final(self).books == old(self).books,
            final(self).next_trade_id == old(self).next_trade_id,
            final(self).db == old(self).db,
    {
        let ghost bv = self.books_view();
        let mut total: usize = 0;
        let mut i: usize = 0;
        while i < self.books.len()
            invariant
                i <= self.books@.len(),
                bv == self.books_view(),
                total == total_open(bv.take(i as int)),
                total_open(bv) <= usize::MAX,
            decreases self.books@.len() - i,
        {
            proof {
                assert(bv.take(i as int + 1).drop_last() == bv.take(i as int));
                assert(bv.take(i as int + 1).last() == bv[i as int]);
                lemma_total_open_prefix(bv, i as int + 1);
            }
            total = total + self.books[i].bids.len() + self.books[i].asks.len();
            i = i + 1;
        }
        assert(bv.take(bv.len() as int) == bv);
        self.stats.open_orders_count = total;
    }

    /// A snapshot of the book of `symbol` (exact match), if there is one.
    pub fn get_book(&self, symbol: &str) -> (r: Option<OrderBookView>)
        requires
            self.wf(),
        ensures
            book_index(self.books_view(), symbol@) < self.books_view().len() ==> r is Some && describes(
                r.unwrap(),
                self.books_view()[book_index(self.books_view(), symbol@)],
            ),
            book_index(self.books_view(), symbol@) == self.books_view().len() ==> r is None,
    {
        let k = self.find_book(symbol);
        if k < self.books.len() {
            assert(self.books@[k as int].wf());
            Some(self.books[k].to_view())
        } else {
            None
        }
    }

    /// The book a query asks for: the symbol is matched in upper case; when no
    /// book has it, the error says `Symbol '<symbol>' not found`.
    pub fn book_for_query(&self, symbol: &str) -> (r: Result<OrderBookView, String>)
        requires
            self.wf(),
        ensures
            ({
                let k = book_index(self.books_view(), uppercase(symbol@));
                &&& k < self.books_view().len() ==> r is Ok && describes(r->Ok_0, self.books_view()[k])
                &&& k == self.books_view().len() ==> r is Err && r->Err_0@ == "Symbol '"@ + symbol@
                    + "' not found"@
            }),
    {
        let upper = to_uppercase(symbol);
        match self.get_book(upper.as_str()) {
            Some(view) => Ok(view),
            None => {
                let mut msg = String::from_str("Symbol '");
                msg.append(symbol);
                msg.append("' not found");
                Err(msg)
            },
        }
    }

    /// Snapshots of all books, each with its symbol, in the order the books were opened.
    pub fn get_all_books(&self) -> (r: Vec<(String, OrderBookView)>)
        requires
            self.wf(),
        ensures
            r@.len() == self.books_view().len(),
            forall|i: int|
                0 <= i < r@.len() ==> (#[trigger] r@[i]).0 == self.books_view()[i].symbol && describes(
                    r@[i].1,
                    self.books_view()[i],
                ),
    {
        let mut out: Vec<(String, OrderBookView)> = Vec::new();
        let mut i: usize = 0;
        while i < self.books.len()
            invariant
                self.wf(),
                i <= self.books@.len(),
                out@.len() == i,
                forall|j: int|
                    0 <= j < i ==> (#[trigger] out@[j]).0 == self.books_view()[j].symbol && describes(
                        out@[j].1,
                        self.books_view()[j],
                    ),
            decreases self.books@.len() - i,
        {
            assert(self.books@[i as int].wf());
            out.push((self.books[i].symbol.clone(), self.books[i].to_view()));
            i = i + 1;
        }
        out
    }

    /// Trade history, most recent first, optionally only of `symbol` and only
    /// with `account` as buyer or seller, at most `limit` trades.
    pub fn get_trades(&self, symbol: Option<&str>, account: Option<AccountId>, limit: Option<usize>) -> (r: Vec<Trade>)
        ensures
            r@ == limited(newest_first(self.ledger().trade_rows(), symbol_filter(symbol), account), limit),
            self.wf() ==> forall|i: int, j: int| 0 <= i < j < r@.len() ==> (#[trigger] r@[i]).id > (#[trigger] r@[j]).id,
            forall|i: int|
                0 <= i < r@.len() ==> {
                    let t = #[trigger] r@[i];
                    &&& (match symbol {
                        Some(s) => t.symbol@ == s@,
                        None => true,
                    })
                    &&& (match account {
                        Some(a) => t.buy_account == a || t.sell_account == a,
                        None => true,
                    })
                    &&& self.ledger().trade_rows().contains(t)
                },
    {
        match self.db.get_trades(symbol, account, limit) {
            Ok(trades) => trades,
            Err(_) => Vec::new(),
        }
    }

    /// The portfolio of one account.
    pub fn get_account_portfolio(&self, account_id: AccountId) -> (r: Result<AccountPortfolio, DbError>)
        requires
            self.wf(),
        ensures
            r is Ok,
            reports(
                r.unwrap(),
                self.ledger().balance_rows(),
                self.ledger().position_rows(),
                self.ledger().trade_rows(),
                account_id,
            ),
            forall|i: int, j: int|
                0 <= i < j < r.unwrap().positions@.len() ==> str_lt(
                    (#[trigger] r.unwrap().positions@[i]).symbol@,
                    (#[trigger] r.unwrap().positions@[j]).symbol@,
                ),
    {
        self.db.get_account_portfolio(account_id)
    }

    /// The portfolios of all accounts, by ascending account id.
    pub fn get_all_accounts(&self) -> (r: Result<Vec<AccountPortfolio>, DbError>)
        requires
            self.wf(),
        ensures
            r is Ok,
            r.unwrap()@.len() == self.ledger().balance_rows().len(),
            forall|i: int|
                0 <= i < r.unwrap()@.len() ==> reports(
                    #[trigger] r.unwrap()@[i],
                    self.ledger().balance_rows(),
                    self.ledger().position_rows(),
                    self.ledger().trade_rows(),
                    self.ledger().balance_rows()[i].account_id,
                ),
            forall|i: int, j: int|
                0 <= i < j < r.unwrap()@.len() ==> (#[trigger] r.unwrap()@[i]).account_id
                    < (#[trigger] r.unwrap()@[j]).account_id,
            forall|k: int|
                0 <= k < self.ledger().position_rows().len() ==> lists_account(
                    r.unwrap()@,
                    (#[trigger] self.ledger().position_rows()[k]).account_id,
                ),
            forall|k: int|
                0 <= k < self.ledger().trade_rows().len() ==> lists_account(
                    r.unwrap()@,
                    (#[trigger] self.ledger().trade_rows()[k]).buy_account,
                ) && lists_account(r.unwrap()@, self.ledger().trade_rows()[k].sell_account),
    {
        self.db.get_all_accounts()
    }

    /// The engine's statistics.
    pub fn get_stats(&self) -> (r: EngineStats)
        ensures
            r == self.stats_view(),
    {
        self.stats
    }

    /// Decides `has_room`.
    pub fn has_room_for_message(&self) -> (r: bool)
        requires
            self.wf(),
        ensures
            r == self.has_room(),
    {
        self.stats.messages_processed < u64::MAX
            && (self.next_trade_id as u128) + (self.stats.open_orders_count as u128) < (u64::MAX as u128)
            && self.stats.open_orders_count < usize::MAX
    }

    /// An engine with an empty book for each listed trading pair, a snapshot of
    /// each stored, no trades and all counters at zero.
    pub fn new() -> (e: Self)
        ensures
            e.wf(),
            e.books_view().len() == SYMBOL_COUNT,
            forall|i: int|
                0 <= i < SYMBOL_COUNT ==> (#[trigger] e.books_view()[i]).symbol@ == symbol_name(i)
                    && e.books_view()[i].bids.len() == 0 && e.books_view()[i].asks.len() == 0,
            forall|i: int|
                0 <= i < SYMBOL_COUNT ==> snapshot_for(e.ledger().snapshot_rows(), #[trigger] symbol_name(i)) is Some
                    && describes(snapshot_for(e.ledger().snapshot_rows(), symbol_name(i)).unwrap(), e.books_view()[i]),
            e.stats_view() == (EngineStats {
                messages_processed: 0,
                orders_received: 0,
                cancels_received: 0,
                trades_executed: 0,
                total_volume_traded: 0,
                total_value_traded: 0,
                open_orders_count: 0,
            }),
            e.last_trade_id() == 0,
            e.has_room(),
            e.ledger().trade_rows().len() == 0,
            e.ledger().balance_rows().len() == 0,
            e.ledger().position_rows().len() == 0,
    {
        proof {
            reveal_strlit("NEX-USDC");
            reveal_strlit("ETH-USDC");
            reveal_strlit("BTC-USDC");
            assert(symbol_name(0)[0] != symbol_name(1)[0]);
            assert(symbol_name(0)[0] != symbol_name(2)[0]);
            assert(symbol_name(1)[0] != symbol_name(2)[0]);
        }
        let mut books: Vec<OrderBook> = Vec::new();
        let mut db = Database::new();
        let mut i: usize = 0;
        while i < SYMBOL_COUNT
            invariant
                i <= SYMBOL_COUNT,
                books@.len() == i,
                forall|j: int|
                    0 <= j < i ==> (#[trigger] books@[j]).symbol@ == symbol_name(j) && books@[j].bids@.len() == 0
                        && books@[j].asks@.len() == 0,
                db.wf(),
                db.trade_rows().len() == 0,
                db.balance_rows().len() == 0,
                db.position_rows().len() == 0,
                forall|j: int|
                    0 <= j < i ==> snapshot_for(db.snapshot_rows(), #[trigger] symbol_name(j)) is Some
                        && describes(snapshot_for(db.snapshot_rows(), symbol_name(j)).unwrap(), books@[j]@),
                symbol_name(0) != symbol_name(1),
                symbol_name(0) != symbol_name(2),
                symbol_name(1) != symbol_name(2),
            decreases SYMBOL_COUNT - i,
        {
            let book = OrderBook::new(listed_symbol(i).to_owned());
            let view = book.to_view();
            let _ = db.save_book_snapshot(&view);
            books.push(book);
            i = i + 1;
        }
        let e = MatchingEngine { books, stats: EngineStats::default(), next_trade_id: 0, db };
        proof {
            let bv = e.books_view();
            assert(total_open(bv.take(0)) == 0);
            assert(bv.drop_last().drop_last().drop_last() =~= Seq::<BookState>::empty());
            assert(total_open(bv) == 0) by {
                reveal_with_fuel(total_open, 4);
            }
            assert(symbols_distinct(bv));
        }
        e
    }

    /// Processes a feed message. A new order trades against its symbol's book
    /// (a book is opened for an unknown symbol), the trades are recorded in the
    /// ledger and counted, and the book's snapshot is stored. A cancel removes
    /// the target order from the first book holding it, if any, and stores that
    /// book's snapshot. Returns the trades executed.
    pub fn process_message(&mut self, message: OrderMessage) -> (trades: Vec<Trade>)
        requires
            old(self).wf(),
            old(self).has_room(),
        ensures
            final(self).wf(),
            message_applied(*old(self), *final(self), message, trades@),
    {
        let ghost ob = self.books_view();
        self.stats.messages_processed = self.stats.messages_processed + 1;
        match message {
            OrderMessage::New { id, timestamp, account, symbol, side, price, quantity } => {
                self.stats.orders_received = self.stats.orders_received + 1;
                let order = BookOrder::new(id, timestamp, account, symbol.clone(), side, price, quantity);
                let k = self.find_book(symbol.as_str());
                if k == self.books.len() {
                    self.books.push(OrderBook::new(symbol.clone()));
                    proof {
                        assert(self.books_view() =~= ob.push(target_book(ob, symbol)));
                        assert(self.books_view().drop_last() == ob);
                    }
                }
                let ghost mid = self.books_view();
                let ghost mid_vec = self.books@;
                proof {
                    assert(mid[k as int] == target_book(ob, symbol));
                    lemma_total_open_parts(mid, k as int);
                    assert(self.books@[k as int].wf());
                    if k < ob.len() {
                        assert(mid == ob);
                    } else {
                        assert(mid.drop_last() == ob);
                        assert(mid.last().open_count() == 0);
                    }
                    assert(total_open(mid) == total_open(ob));
                    assert forall|j: int| 0 <= j < mid_vec.len() implies (#[trigger] mid_vec[j]).wf() by {
                        if j < ob.len() {
                            assert(mid_vec[j] == old(self).books@[j]);
                        }
                    }
                    assert(symbols_distinct(mid)) by {
                        assert forall|a: int, b: int| 0 <= a < b < mid.len() implies (#[trigger] mid[a]).symbol@
                            != (#[trigger] mid[b]).symbol@ by {
                            if b < ob.len() {
                                assert(mid[a] == ob[a] && mid[b] == ob[b]);
                            } else {
                                assert(mid[a] == ob[a]);
                                assert(book_index(ob, symbol@) == ob.len());
                            }
                        }
                    }
                }
                let mut book = OrderBook::new(String::new());
                self.books.set_and_swap(k, &mut book);
                let ghost b0 = book@;
                let ghost last = self.next_trade_id;
                let trades = book.match_and_insert(order, &mut self.next_trade_id);
                if trades.len() > 0 {
                    let _ = self.db.record_trades(trades.as_slice());
                }
                let view = book.to_view();
                let _ = self.db.save_book_snapshot(&view);
                self.books.set_and_swap(k, &mut book);
                proof {
                    let nb = self.books_view();
                    assert(self.books@ == mid_vec.update(k as int, self.books@[k as int]));
                    assert(nb =~= mid.update(k as int, self.books@[k as int]@));
                    lemma_total_open_update(mid, k as int, self.books@[k as int]@);
                    lemma_book_after_order_count(b0, self.books@[k as int]@, order, last);
                    assert forall|j: int| 0 <= j < self.books@.len() implies (#[trigger] self.books@[j]).wf() by {
                        if j != k {
                            assert(self.books@[j] == mid_vec[j]);
                        }
                    }
                    assert forall|a: int, b: int| 0 <= a < b < nb.len() implies (#[trigger] nb[a]).symbol@
                        != (#[trigger] nb[b]).symbol@ by {
                        assert(mid[a].symbol@ != mid[b].symbol@);
                    }
                }
                self.count_trades(&trades);
                self.update_open_orders_count();
                trades
            },
            OrderMessage::Cancel { id: _, timestamp: _, account: _, target_id } => {
                self.stats.cancels_received = self.stats.cancels_received + 1;
                let mut i: usize = 0;
                while i < self.books.len()
                    invariant
                        i <= self.books@.len(),
                        self.books_view() == ob,
                        forall|j: int| 0 <= j < i ==> !book_holds(#[trigger] ob[j], target_id),
                    ensures
                        i <= self.books@.len(),
                        self.books_view() == ob,
                        forall|j: int| 0 <= j < i ==> !book_holds(#[trigger] ob[j], target_id),
                        i < self.books@.len() ==> book_holds(ob[i as int], target_id),
                    decreases self.books@.len() - i,
                {
                    if self.books[i].holds(target_id) {
                        break;
                    }
                    i = i + 1;
                }
                proof {
                    lemma_first_holder(ob, target_id, i as int);
                }
                if i < self.books.len() {
                    let ghost vec0 = self.books@;
                    proof {
                        assert(vec0[i as int]@ == ob[i as int]);
                        assert(vec0[i as int].wf());
                    }
                    let mut book = OrderBook::new(String::new());
                    self.books.set_and_swap(i, &mut book);
                    let ghost b0 = book@;
                    let cancelled = book.cancel_order(target_id);
                    let view = book.to_view();
                    let _ = self.db.save_book_snapshot(&view);
                    self.books.set_and_swap(i, &mut book);
                    proof {
                        let nb = self.books_view();
                        let b1 = self.books@[i as int]@;
                        assert(self.books@ == vec0.update(i as int, self.books@[i as int]));
                        assert(nb =~= ob.update(i as int, b1));
                        lemma_total_open_update(ob, i as int, b1);
                        assert(cancelled is Some);
                        assert(b0 == ob[i as int]);
                        assert(book_after_cancel(ob[i as int], nb[i as int], target_id, Some(cancelled.unwrap())));
                        assert(b1.open_count() == b0.open_count() - 1);
                        lemma_total_open_parts(ob, i as int);
                        assert forall|j: int| 0 <= j < self.books@.len() implies (#[trigger] self.books@[j]).wf() by {
                            if j != i {
                                assert(self.books@[j] == vec0[j]);
                            }
                        }
                        assert forall|a: int, b: int| 0 <= a < b < nb.len() implies (#[trigger] nb[a]).symbol@
                            != (#[trigger] nb[b]).symbol@ by {
                            assert(ob[a].symbol@ != ob[b].symbol@);
                        }
                    }
                }
                self.update_open_orders_count();
                Vec::new()
            },
        }
    }
}

/// The statistics account for the engine's history: every message processed
/// was an order or a cancel, one trade id was used per executed trade, and the
/// open-order count is the number of orders resting in the books.
pub proof fn law_stats_are_consistent(e: MatchingEngine)
    requires
        e.wf(),
    ensures
        e.stats_view().orders_received + e.stats_view().cancels_received == e.stats_view().messages_processed,
        e.stats_view().trades_executed == e.last_trade_id(),
        e.stats_view().open_orders_count == total_open(e.books_view()),
{
}

/// The engine's ledger is zero-sum: the cash of all accounts sums to zero, and
/// so does the position of all accounts in every symbol.
pub proof fn law_engine_ledger_is_zero_sum(e: MatchingEngine, symbol: Seq<char>)
    requires
        e.wf(),
    ensures
        total_cash(e.ledger().balance_rows()) == 0,
        total_position(e.ledger().position_rows(), symbol) == 0,
{
    e.db.law_ledger_is_zero_sum(symbol);
}

/// Symbols are isolated: a new order leaves the book of every other symbol as
/// it was.
pub proof fn law_symbol_isolation(
    e0: MatchingEngine,
    e1: MatchingEngine,
    message: OrderMessage,
    trades: Seq<Trade>,
    j: int,
)
    requires
        message_applied(e0, e1, message, trades),
        message is New,
        0 <= j < e0.books_view().len(),
        e0.books_view()[j].symbol@ != message->New_symbol@,
    ensures
        e1.books_view()[j] == e0.books_view()[j],
{
    let ob = e0.books_view();
    let k = book_index(ob, message->New_symbol@);
    if k < ob.len() {
        assert(ob[k].symbol@ == message->New_symbol@);
    }
}

/// A cancel of an order that no book holds changes no book and no ledger row.
pub proof fn law_cancel_of_unknown_order(
    e0: MatchingEngine,
    e1: MatchingEngine,
    message: OrderMessage,
    trades: Seq<Trade>,
)
    requires
        message_applied(e0, e1, message, trades),
        message is Cancel,
        forall|j: int| 0 <= j < e0.books_view().len() ==> !book_holds(#[trigger] e0.books_view()[j], message->target_id),
    ensures
        e1.books_view() == e0.books_view(),
        trades.len() == 0,
        e1.ledger().trade_rows() == e0.ledger().trade_rows(),
        e1.ledger().balance_rows() == e0.ledger().balance_rows(),
        e1.ledger().position_rows() == e0.ledger().position_rows(),
{
    let ob = e0.books_view();
    lemma_first_holder(ob, message->target_id, ob.len() as int);
    assert(e1.books_view() =~= ob);
}

/// The trades of calls in turn, oldest first.
pub open spec fn trade_history(trades: Seq<Seq<Trade>>) -> Seq<Trade>
    decreases trades.len(),
{
    if trades.len() == 0 {
        Seq::empty()
    } else {
        trade_history(trades.drop_last()) + trades.last()
    }
}

/// Recording trades numbered on after rows numbered 1, 2, ... appends them.
proof fn lemma_trades_after_appends(rows: Seq<Trade>, ts: Seq<Trade>)
    requires
        forall|j: int| 0 <= j < rows.len() ==> (#[trigger] rows[j]).id == j + 1,
        forall|i: int| 0 <= i < ts.len() ==> (#[trigger] ts[i]).id == rows.len() + 1 + i,
    ensures
        trades_after(rows, ts) == rows + ts,
    decreases ts.len(),
{
    if ts.len() > 0 {
        let p = ts.drop_last();
        let t = ts.last();
        assert forall|i: int| 0 <= i < p.len() implies (#[trigger] p[i]).id == rows.len() + 1 + i by {
            assert(p[i] == ts[i]);
        }
        lemma_trades_after_appends(rows, p);
        let r = rows + p;
        let keys = trade_keys(r);
        assert forall|j: int| 0 <= j < r.len() implies #[trigger] keys[j] == j + 1 by {
            if j < rows.len() {
                assert(r[j] == rows[j]);
            } else {
                assert(r[j] == p[j - rows.len()]);
            }
        }
        assert(ascending(keys));
        lemma_count_below(keys, t.id as int);
        let c = count_below(keys, t.id as int);
        if c < r.len() {
            assert(keys[c] == c + 1);
        }
        assert(c == r.len());
        assert(r.insert(r.len() as int, t) =~= rows + ts);
    }
}

/// One message keeps the trade table equal to the history, numbered 1, 2, ...
proof fn lemma_history_step(e0: MatchingEngine, e1: MatchingEngine, m: OrderMessage, ts: Seq<Trade>, before: Seq<Trade>)
    requires
        e0.wf(),
        e0.has_room(),
        message_applied(e0, e1, m, ts),
        e0.ledger().trade_rows() == before,
        e0.last_trade_id() == before.len(),
        forall|j: int| 0 <= j < before.len() ==> (#[trigger] before[j]).id == j + 1,
        ts.len() > 0 ==> settle_all(e0.ledger().balance_rows(), e0.ledger().position_rows(), ts) is Some,
    ensures
        e1.ledger().trade_rows() == before + ts,
        e1.last_trade_id() == (before + ts).len(),
        forall|j: int| 0 <= j < (before + ts).len() ==> (#[trigger] (before + ts)[j]).id == j + 1,
{
    e0.lemma_invariant_parts();
    let ob = e0.books_view();
    match m {
        OrderMessage::New { id, timestamp, account, symbol, side, price, quantity } => {
            let order = BookOrder { id, timestamp, account, symbol, side, price, quantity, initial_quantity: quantity };
            let k = book_index(ob, symbol@);
            let b0 = target_book(ob, symbol);
            if k < ob.len() {
                lemma_total_open_parts(ob, k);
            }
            assert(b0.ok());
            assert(b0.makers_for(side).len() <= b0.open_count());
            law_trades_follow_priority(b0, order, e0.last_trade_id());
            if ts.len() > 0 {
                lemma_trades_after_appends(before, ts);
            } else {
                assert(before + ts =~= before);
            }
            assert forall|j: int| 0 <= j < (before + ts).len() implies (#[trigger] (before + ts)[j]).id == j + 1 by {
                if j >= before.len() {
                    assert((before + ts)[j] == ts[j - before.len()]);
                } else {
                    assert((before + ts)[j] == before[j]);
                }
            }
        },
        OrderMessage::Cancel { .. } => {
            assert(before + ts =~= before);
        },
    }
}

/// The trade history: from an engine that has executed no trade yet, through
/// messages processed in turn (each with room in the counters, and each batch
/// of trades settling within the range of the ledger), the trade table holds
/// exactly the trades returned by the calls, oldest first, numbered 1, 2, ...;
/// so reading it newest first (`get_trades`) gives them back in reverse.
pub proof fn law_trade_history(states: Seq<MatchingEngine>, trades: Seq<Seq<Trade>>, ms: Seq<OrderMessage>)
    requires
        applied_in_order(states, trades, ms),
        forall|i: int| 0 <= i < ms.len() ==> (#[trigger] states[i]).wf() && states[i].has_room(),
        states[0].last_trade_id() == 0,
        states[0].ledger().trade_rows().len() == 0,
        forall|i: int|
            0 <= i < ms.len() && (#[trigger] trades[i]).len() > 0 ==> settle_all(
                states[i].ledger().balance_rows(),
                states[i].ledger().position_rows(),
                trades[i],
            ) is Some,
    ensures
        states.last().ledger().trade_rows() == trade_history(trades),
        states.last().last_trade_id() == trade_history(trades).len(),
        forall|j: int| 0 <= j < trade_history(trades).len() ==> (#[trigger] trade_history(trades)[j]).id == j + 1,
    decreases ms.len(),
{
    if ms.len() == 0 {
        assert(states[0].ledger().trade_rows() =~= Seq::<Trade>::empty());
    } else {
        let n = ms.len() - 1;
        let s2 = states.drop_last();
        let t2 = trades.drop_last();
        let m2 = ms.drop_last();
        assert forall|i: int| 0 <= i < m2.len() implies #[trigger] message_applied(s2[i], s2[i + 1], m2[i], t2[i]) by {
            assert(message_applied(states[i], states[i + 1], ms[i], trades[i]));
        }
        assert forall|i: int| 0 <= i < m2.len() implies (#[trigger] s2[i]).wf() && s2[i].has_room() by {
            assert(states[i].wf() && states[i].has_room());
        }
        assert forall|i: int| 0 <= i < m2.len() && (#[trigger] t2[i]).len() > 0 implies settle_all(
            s2[i].ledger().balance_rows(),
            s2[i].ledger().position_rows(),
            t2[i],
        ) is Some by {
            assert(trades[i] == t2[i] && states[i] == s2[i]);
        }
        law_trade_history(s2, t2, m2);
        assert(message_applied(states[n], states[n + 1], ms[n], trades[n]));
        assert(states[n].wf() && states[n].has_room());
        if trades[n].len() > 0 {
            assert(settle_all(states[n].ledger().balance_rows(), states[n].ledger().position_rows(), trades[n]) is Some);
        }
        lemma_history_step(states[n], states[n + 1], ms[n], trades[n], trade_history(t2));
    }
}

/// Sum of the values of a sequence of trades.
pub open spec fn traded_value(ts: Seq<Trade>) -> int
    decreases ts.len(),
{
    if ts.len() == 0 {
        0
    } else {
        ts[0].value + traded_value(ts.drop_first())
    }
}

/// The running totals accumulate: below saturation, the volume after trades
/// is the volume before plus their quantities, and the value after them is the
/// value before plus their values; at saturation they stay at `u128::MAX`.
pub proof fn law_totals_accumulate(v: u128, w: u128, ts: Seq<Trade>)
    ensures
        v + traded_quantity(ts) <= u128::MAX ==> volume_after(v, ts) == v + traded_quantity(ts),
        v + traded_quantity(ts) > u128::MAX ==> volume_after(v, ts) == u128::MAX,
        w + traded_value(ts) <= u128::MAX ==> value_after(w, ts) == w + traded_value(ts),
        w + traded_value(ts) > u128::MAX ==> value_after(w, ts) == u128::MAX,
    decreases ts.len(),
{
    if ts.len() > 0 {
        let r = ts.drop_first();
        law_totals_accumulate(saturated(v + ts[0].quantity), saturated(w + ts[0].value), r);
        lemma_saturated_stays(v + ts[0].quantity, r, true);
        lemma_saturated_stays(w + ts[0].value, r, false);
    }
}

/// Once a running total is at `u128::MAX` it stays there.
proof fn lemma_saturated_stays(x: int, ts: Seq<Trade>, volume: bool)
    requires
        x >= 0,
    ensures
        volume && x > u128::MAX ==> volume_after(saturated(x), ts) == u128::MAX,
        !volume && x > u128::MAX ==> value_after(saturated(x), ts) == u128::MAX,
    decreases ts.len(),
{
    if ts.len() > 0 && x > u128::MAX {
        lemma_saturated_stays(u128::MAX + ts[0].quantity + 1, ts.drop_first(), volume);
        lemma_saturated_stays(u128::MAX + ts[0].value + 1, ts.drop_first(), volume);
    }
}

/// Engine totals are cumulative: processing a message adds exactly the
/// quantities and values of that message's trades to the traded volume and
/// value (below saturation), and counts its trades; a cancel changes none of
/// them.
pub proof fn law_engine_totals_accumulate(e0: MatchingEngine, e1: MatchingEngine, m: OrderMessage, ts: Seq<Trade>)
    requires
        message_applied(e0, e1, m, ts),
        e0.stats_view().total_volume_traded + traded_quantity(ts) <= u128::MAX,
        e0.stats_view().total_value_traded + traded_value(ts) <= u128::MAX,
    ensures
        e1.stats_view().total_volume_traded == e0.stats_view().total_volume_traded + traded_quantity(ts),
        e1.stats_view().total_value_traded == e0.stats_view().total_value_traded + traded_value(ts),
        e1.stats_view().trades_executed == e0.stats_view().trades_executed + ts.len(),
{
    law_totals_accumulate(e0.stats_view().total_volume_traded, e0.stats_view().total_value_traded, ts);
    if m is Cancel {
        assert(ts.len() == 0);
    }
}

/// The quantity of two runs of trades is the sum of theirs.
proof fn lemma_traded_quantity_concat(a: Seq<Trade>, b: Seq<Trade>)
    ensures
        traded_quantity(a + b) == traded_quantity(a) + traded_quantity(b),
        traded_quantity(a) >= 0,
        traded_quantity(b) >= 0,
    decreases a.len(),
{
    lemma_traded_quantity_nonneg(b);
    if a.len() > 0 {
        lemma_traded_quantity_concat(a.drop_first(), b);
        assert((a + b).drop_first() =~= a.drop_first() + b);
    } else {
        assert(a + b =~= b);
    }
}

proof fn lemma_traded_quantity_nonneg(a: Seq<Trade>)
    ensures
        traded_quantity(a) >= 0,
    decreases a.len(),
{
    if a.len() > 0 {
        lemma_traded_quantity_nonneg(a.drop_first());
    }
}

/// The engine's traded volume is the total quantity of every trade it has
/// executed: from an engine with no volume yet, through messages processed in
/// turn, the volume is the quantity of the whole trade history (below
/// saturation).
pub proof fn law_engine_volume_is_history(states: Seq<MatchingEngine>, trades: Seq<Seq<Trade>>, ms: Seq<OrderMessage>)
    requires
        applied_in_order(states, trades, ms),
        states[0].stats_view().total_volume_traded == 0,
        traded_quantity(trade_history(trades)) <= u128::MAX,
    ensures
        states.last().stats_view().total_volume_traded == traded_quantity(trade_history(trades)),
    decreases ms.len(),
{
    if ms.len() == 0 {
        assert(trade_history(trades) =~= Seq::<Trade>::empty());
    } else {
        let n = ms.len() - 1;
        let s2 = states.drop_last();
        let t2 = trades.drop_last();
        let m2 = ms.drop_last();
        assert forall|i: int| 0 <= i < m2.len() implies #[trigger] message_applied(s2[i], s2[i + 1], m2[i], t2[i]) by {
            assert(message_applied(states[i], states[i + 1], ms[i], trades[i]));
        }
        lemma_traded_quantity_concat(trade_history(t2), trades[n]);
        law_engine_volume_is_history(s2, t2, m2);
        assert(message_applied(states[n], states[n + 1], ms[n], trades[n]));
        law_totals_accumulate(states[n].stats_view().total_volume_traded, 0, trades[n]);
        if ms[n] is Cancel {
            assert(trades[n].len() == 0);
        }
    }
}

impl Default for MatchingEngine {
    fn default() -> (e: Self)
        ensures
            e.wf(),
            e.books_view().len() == SYMBOL_COUNT,
            e.last_trade_id() == 0,
    {
        MatchingEngine::new()
    }
}

} // verus!
