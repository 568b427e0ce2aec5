use crate::engine::types::{
    compute_trade_value, trade_value, BookOrder, OrderBookView, Price, PriceLevelView, Quantity,
    Trade,
};
use crate::feed::{OrderId, Side};
use vstd::prelude::*;

verus! {

// ---------------------------------------------------------------------------
// Price-time priority
// ---------------------------------------------------------------------------

/// `a` is matched no later than `b` among resting orders of `side`:
/// bids by higher price first, asks by lower price first, and at equal
/// prices the lower (earlier) id first.
pub open spec fn precedes(side: Side, a: BookOrder, b: BookOrder) -> bool {
    match side {
        Side::Buy => a.price > b.price || (a.price == b.price && a.id <= b.id),
        Side::Sell => a.price < b.price || (a.price == b.price && a.id <= b.id),
    }
}

/// `a` is matched strictly before `b` among resting orders of `side`.
pub open spec fn strictly_precedes(side: Side, a: BookOrder, b: BookOrder) -> bool {
    precedes(side, a, b) && !precedes(side, b, a)
}

/// The orders of `s` are in priority order for `side`.
pub open spec fn sorted_for(side: Side, s: Seq<BookOrder>) -> bool {
    forall|i: int, j: int| 0 <= i < j < s.len() ==> precedes(side, #[trigger] s[i], #[trigger] s[j])
}

/// Every order of `s` is a live resting order of `side`: a positive quantity on that side.
pub open spec fn resting_on(side: Side, s: Seq<BookOrder>) -> bool {
    forall|i: int| 0 <= i < s.len() ==> (#[trigger] s[i]).quantity > 0 && s[i].side == side
}

/// The side an order of `side` trades against.
pub open spec fn opposite(side: Side) -> Side {
    match side {
        Side::Buy => Side::Sell,
        Side::Sell => Side::Buy,
    }
}

/// `s2` is `s` with `o` placed after every order that is matched strictly before
/// it and ahead of all the others.
pub open spec fn placed_by_priority(side: Side, s: Seq<BookOrder>, o: BookOrder, s2: Seq<BookOrder>) -> bool {
    exists|pos: int|
        0 <= pos <= s.len() && s2 == s.insert(pos, o) && (forall|i: int|
            0 <= i < pos ==> strictly_precedes(side, #[trigger] s[i], o)) && (forall|i: int|
            pos <= i < s.len() ==> !strictly_precedes(side, #[trigger] s[i], o))
}

// ---------------------------------------------------------------------------
// Matching
// ---------------------------------------------------------------------------

/// The limit prices of taker `t` and resting maker `m` cross.
pub open spec fn crosses(t: BookOrder, m: BookOrder) -> bool {
    match t.side {
        Side::Buy => m.price <= t.price,
        Side::Sell => m.price >= t.price,
    }
}

/// The smaller of two quantities.
pub open spec fn min_qty(a: Quantity, b: Quantity) -> Quantity {
    if a <= b {
        a
    } else {
        b
    }
}

/// The trade of `qty` between taker `t` and maker `m`, at the maker's price.
pub open spec fn trade_between(t: BookOrder, m: BookOrder, qty: Quantity, id: u64, symbol: String) -> Trade {
    let buyer = if t.side == Side::Buy {
        t
    } else {
        m
    };
    let seller = if t.side == Side::Buy {
        m
    } else {
        t
    };
    Trade {
        id,
        timestamp: t.timestamp,
        symbol,
        buy_order_id: buyer.id,
        sell_order_id: seller.id,
        maker_order_id: m.id,
        taker_order_id: t.id,
        buy_account: buyer.account,
        sell_account: seller.account,
        price: m.price,
        quantity: qty,
        value: trade_value(m.price, qty) as u128,
    }
}

/// `m` with its remaining quantity set to `q`.
pub open spec fn with_quantity(m: BookOrder, q: Quantity) -> BookOrder {
    BookOrder { quantity: q, ..m }
}

/// Matching taker `t`, of which `qty` is still unfilled, against the resting
/// orders `makers` of the other side in their priority order, numbering trades
/// after `last_id`. The result is the trades, the makers that remain, and the
/// taker's quantity left unfilled.
///
/// The best maker trades while the prices cross, for the smaller of the two
/// remaining quantities; a maker that is filled leaves the book, and a taker
/// that is filled stops.
pub open spec fn fill(t: BookOrder, qty: Quantity, makers: Seq<BookOrder>, last_id: u64, symbol: String) -> (Seq<Trade>, Seq<BookOrder>, Quantity)
    decreases makers.len(),
{
    if qty == 0 || makers.len() == 0 || !crosses(t, makers[0]) {
        (Seq::empty(), makers, qty)
    } else {
        let m = makers[0];
        let q = min_qty(qty, m.quantity);
        let tr = trade_between(t, m, q, (last_id + 1) as u64, symbol);
        if q == m.quantity {
            let rest = fill(t, (qty - q) as u64, makers.drop_first(), (last_id + 1) as u64, symbol);
            (seq![tr] + rest.0, rest.1, rest.2)
        } else {
            (seq![tr], makers.update(0, with_quantity(m, (m.quantity - q) as u64)), 0)
        }
    }
}

/// Sum of the quantities of a sequence of trades.
pub open spec fn traded_quantity(ts: Seq<Trade>) -> int
    decreases ts.len(),
{
    if ts.len() == 0 {
        0
    } else {
        ts[0].quantity + traded_quantity(ts.drop_first())
    }
}

/// The remaining makers are the untouched tail of `makers`, except that the
/// first of them may have lost part (not all) of its quantity; the trades are
/// one per consumed maker, each for that maker's whole quantity, plus one for a
/// partly filled maker, whose quantity drops by what it traded.
pub open spec fn fill_shape(makers: Seq<BookOrder>, ts: Seq<Trade>, rest: Seq<BookOrder>) -> bool {
    let off = makers.len() - rest.len();
    &&& rest.len() <= makers.len()
    &&& forall|i: int| 1 <= i < rest.len() ==> #[trigger] rest[i] == makers[off + i]
    &&& rest.len() > 0 ==> rest[0] == with_quantity(makers[off], rest[0].quantity) && 0
        < rest[0].quantity <= makers[off].quantity
    &&& (ts.len() == off || (ts.len() == off + 1 && rest.len() > 0 && rest[0].quantity
        < makers[off].quantity))
    &&& ts.len() == off && rest.len() > 0 ==> rest[0] == makers[off]
    &&& forall|i: int| 0 <= i < off && i < ts.len() ==> (#[trigger] ts[i]).quantity == makers[i].quantity
    &&& ts.len() == off + 1 ==> rest[0].quantity == makers[off].quantity - ts[off].quantity
}

/// Structure of a fill: what remains is a tail of the makers, every trade is at a
/// maker's own price against the makers in priority order, trade ids run on
/// consecutively, and quantity is conserved.
pub proof fn lemma_fill(t: BookOrder, qty: Quantity, makers: Seq<BookOrder>, last_id: u64, symbol: String)
    requires
        resting_on(opposite(t.side), makers),
        last_id + makers.len() <= u64::MAX,
    ensures
        ({
            let (ts, rest, q) = fill(t, qty, makers, last_id, symbol);
            &&& fill_shape(makers, ts, rest)
            &&& ts.len() <= makers.len()
            &&& q <= qty
            &&& traded_quantity(ts) + q == qty
            &&& q > 0 ==> rest.len() == 0 || !crosses(t, rest[0])
            &&& q == 0 ==> rest == makers || ts.len() > 0
            &&& forall|i: int|
                0 <= i < ts.len() ==> (#[trigger] ts[i]).id == last_id + 1 + i
                    && ts[i].maker_order_id == makers[i].id && ts[i].price == makers[i].price
                    && crosses(t, makers[i]) && ts[i].taker_order_id == t.id
                    && ts[i].quantity > 0 && ts[i].symbol == symbol
                    && ts[i] == trade_between(t, makers[i], ts[i].quantity, (last_id + 1 + i) as u64, symbol)
                    && ts[i].quantity <= makers[i].quantity
        }),
    decreases makers.len(),
{
    let (ts, rest, q) = fill(t, qty, makers, last_id, symbol);
    if qty == 0 || makers.len() == 0 || !crosses(t, makers[0]) {
    } else {
        let m = makers[0];
        let mq = min_qty(qty, m.quantity);
        if mq == m.quantity {
            let tail = makers.drop_first();
            assert(resting_on(opposite(t.side), tail)) by {
                assert forall|i: int| 0 <= i < tail.len() implies (#[trigger] tail[i]).quantity > 0
                    && tail[i].side == opposite(t.side) by {
                    assert(tail[i] == makers[i + 1]);
                }
            }
            lemma_fill(t, (qty - mq) as u64, tail, (last_id + 1) as u64, symbol);
            let r = fill(t, (qty - mq) as u64, tail, (last_id + 1) as u64, symbol);
            assert(ts == seq![trade_between(t, m, mq, (last_id + 1) as u64, symbol)] + r.0);
            assert(ts.drop_first() == r.0);
            assert forall|i: int| 1 <= i < rest.len() implies #[trigger] rest[i] == makers[(
            makers.len() - rest.len()) + i] by {
                assert(rest[i] == tail[(tail.len() - rest.len()) + i]);
            }
            if rest.len() > 0 {
                assert(tail[tail.len() - rest.len()] == makers[makers.len() - rest.len()]);
            }
            let off = makers.len() - rest.len();
            assert forall|i: int| 0 <= i < off && i < ts.len() implies (#[trigger] ts[i]).quantity
                == makers[i].quantity by {
                if i > 0 {
                    assert(ts[i] == r.0[i - 1]);
                    assert(makers[i] == tail[i - 1]);
                }
            }
            if ts.len() == off + 1 {
                assert(ts[off] == r.0[off - 1]);
                assert(makers[off] == tail[off - 1]);
            }
            assert forall|i: int| 0 <= i < ts.len() implies (#[trigger] ts[i]).id == last_id + 1 + i
                && ts[i].maker_order_id == makers[i].id && ts[i].price == makers[i].price
                && crosses(t, makers[i]) && ts[i].taker_order_id == t.id && ts[i].quantity > 0
                && ts[i].symbol == symbol
                && ts[i] == trade_between(t, makers[i], ts[i].quantity, (last_id + 1 + i) as u64, symbol)
                && ts[i].quantity <= makers[i].quantity by {
                if i > 0 {
                    assert(ts[i] == r.0[i - 1]);
                    assert(makers[i] == tail[i - 1]);
                }
            }
        } else {
            assert(ts.drop_first() =~= Seq::<Trade>::empty());
            assert(traded_quantity(ts.drop_first()) == 0);
        }
    }
}

/// `fill` keeps the makers in priority order and live.
pub proof fn lemma_fill_keeps_side(t: BookOrder, qty: Quantity, makers: Seq<BookOrder>, last_id: u64, symbol: String)
    requires
        resting_on(opposite(t.side), makers),
        sorted_for(opposite(t.side), makers),
        last_id + makers.len() <= u64::MAX,
    ensures
        ({
            let rest = fill(t, qty, makers, last_id, symbol).1;
            &&& resting_on(opposite(t.side), rest)
            &&& sorted_for(opposite(t.side), rest)
            &&& rest.len() > 0 && makers.len() > 0 ==> precedes(opposite(t.side), makers[0], rest[0])
        }),
{
    lemma_fill(t, qty, makers, last_id, symbol);
    let (ts, rest, q) = fill(t, qty, makers, last_id, symbol);
    let off = makers.len() - rest.len();
    let side = opposite(t.side);
    assert forall|i: int| 0 <= i < rest.len() implies (#[trigger] rest[i]).quantity > 0 && rest[i].side
        == side by {
        if i > 0 {
            assert(rest[i] == makers[off + i]);
        }
    }
    assert forall|i: int, j: int| 0 <= i < j < rest.len() implies precedes(
        side,
        #[trigger] rest[i],
        #[trigger] rest[j],
    ) by {
        assert(rest[j] == makers[off + j]);
        assert(precedes(side, makers[off + i], makers[off + j]));
        if i > 0 {
            assert(rest[i] == makers[off + i]);
        }
    }
    if rest.len() > 0 && makers.len() > 0 {
        if off > 0 {
            assert(precedes(side, makers[0], makers[off]));
        }
    }
}

// ---------------------------------------------------------------------------
// Aggregation
// ---------------------------------------------------------------------------

/// The price levels of one side of a book: consecutive orders at the same price
/// form one level, whose quantity is their total and whose count is their number.
pub open spec fn levels(s: Seq<BookOrder>) -> Seq<PriceLevelView>
    decreases s.len(),
{
    if s.len() == 0 {
        Seq::empty()
    } else {
        let prev = levels(s.drop_last());
        let o = s.last();
        if prev.len() > 0 && prev.last().price == o.price {
            prev.update(
                prev.len() - 1,
                PriceLevelView {
                    price: o.price,
                    quantity: (prev.last().quantity + o.quantity) as u128,
                    order_count: (prev.last().order_count + 1) as usize,
                },
            )
        } else {
            prev.push(PriceLevelView { price: o.price, quantity: o.quantity as u128, order_count: 1 })
        }
    }
}

/// Sum of the quantities of price levels.
pub open spec fn level_quantity(ls: Seq<PriceLevelView>) -> int
    decreases ls.len(),
{
    if ls.len() == 0 {
        0
    } else {
        level_quantity(ls.drop_last()) + ls.last().quantity
    }
}

/// Sum of the order counts of price levels.
pub open spec fn level_count(ls: Seq<PriceLevelView>) -> int
    decreases ls.len(),
{
    if ls.len() == 0 {
        0
    } else {
        level_count(ls.drop_last()) + ls.last().order_count
    }
}

/// Sum of the quantities of orders, added from the back.
pub open spec fn open_quantity_back(s: Seq<BookOrder>) -> int
    decreases s.len(),
{
    if s.len() == 0 {
        0
    } else {
        open_quantity_back(s.drop_last()) + s.last().quantity
    }
}

/// Aggregating loses no quantity and no order: the levels hold the same total
/// quantity and the same number of orders as the side itself.
pub proof fn lemma_levels_totals(s: Seq<BookOrder>)
    requires
        s.len() <= usize::MAX,
    ensures
        level_quantity(levels(s)) == open_quantity_back(s),
        level_count(levels(s)) == s.len(),
        open_quantity_back(s) <= s.len() * 0xffff_ffff_ffff_ffff,
        forall|k: int|
            0 <= k < levels(s).len() ==> (#[trigger] levels(s)[k]).quantity <= levels(s)[k].order_count
                * 0xffff_ffff_ffff_ffffint && levels(s)[k].order_count >= 1,
    decreases s.len(),
{
    if s.len() > 0 {
        let p = s.drop_last();
        lemma_levels_totals(p);
        let prev = levels(p);
        let o = s.last();
        let ls = levels(s);
        lemma_level_sums_bound(prev);
        if prev.len() > 0 && prev.last().price == o.price {
            let l = prev.last();
            assert(l.quantity + o.quantity <= (l.order_count + 1) * 0xffff_ffff_ffff_ffffint) by (nonlinear_arith)
                requires
                    l.quantity <= l.order_count * 0xffff_ffff_ffff_ffffint,
                    o.quantity <= 0xffff_ffff_ffff_ffffint,
            ;
            assert(level_count(prev) == level_count(prev.drop_last()) + l.order_count);
            assert(l.order_count + 1 <= s.len());
            assert((l.order_count + 1) * 0xffff_ffff_ffff_ffffint <= 0xffff_ffff_ffff_ffffint * 0xffff_ffff_ffff_ffffint) by (nonlinear_arith)
                requires
                    l.order_count + 1 <= 0xffff_ffff_ffff_ffffint,
            ;
            assert(ls.drop_last() == prev.drop_last());
            assert(ls.last().quantity == l.quantity + o.quantity);
            assert(ls.last().order_count == l.order_count + 1);
            assert(level_quantity(prev) == level_quantity(prev.drop_last()) + l.quantity);
            assert forall|k: int| 0 <= k < ls.len() implies (#[trigger] ls[k]).quantity <= ls[k].order_count
                * 0xffff_ffff_ffff_ffffint && ls[k].order_count >= 1 by {
                if k < ls.len() - 1 {
                    assert(ls[k] == prev[k]);
                }
            }
        } else {
            assert(ls.drop_last() == prev);
            assert forall|k: int| 0 <= k < ls.len() implies (#[trigger] ls[k]).quantity <= ls[k].order_count
                * 0xffff_ffff_ffff_ffffint && ls[k].order_count >= 1 by {
                if k < ls.len() - 1 {
                    assert(ls[k] == prev[k]);
                }
            }
        }
        assert(open_quantity_back(s) <= s.len() * 0xffff_ffff_ffff_ffff) by (nonlinear_arith)
            requires
                open_quantity_back(s) == open_quantity_back(p) + o.quantity,
                open_quantity_back(p) <= p.len() * 0xffff_ffff_ffff_ffff,
                o.quantity <= 0xffff_ffff_ffff_ffff,
                p.len() + 1 == s.len(),
        ;
    }
}

/// A level's count never exceeds the total count of the levels.
proof fn lemma_level_sums_bound(ls: Seq<PriceLevelView>)
    ensures
        ls.len() > 0 ==> ls.last().order_count <= level_count(ls),
        level_count(ls) >= 0,
    decreases ls.len(),
{
    if ls.len() > 0 {
        lemma_level_sums_bound(ls.drop_last());
    }
}

// ---------------------------------------------------------------------------
// The order book
// ---------------------------------------------------------------------------

/// The bid and ask books of one trading symbol.
#[derive(Debug)]
pub struct OrderBook {
    pub symbol: String,
    pub bids: Vec<BookOrder>,
    pub asks: Vec<BookOrder>,
}

/// Decides `strictly_precedes`.
fn matched_strictly_before(side: Side, a: &BookOrder, b: &BookOrder) -> (r: bool)
    ensures
        r == strictly_precedes(side, *a, *b),
{
    match side {
        Side::Buy => a.price > b.price || (a.price == b.price && a.id < b.id),
        Side::Sell => a.price < b.price || (a.price == b.price && a.id < b.id),
    }
}

/// Decides `crosses`.
fn prices_cross(t: &BookOrder, m: &BookOrder) -> (r: bool)
    ensures
        r == crosses(*t, *m),
{
    match t.side {
        Side::Buy => m.price <= t.price,
        Side::Sell => m.price >= t.price,
    }
}

/// Builds `trade_between`.
fn new_trade(t: &BookOrder, m: &BookOrder, qty: Quantity, id: u64, symbol: &String) -> (tr: Trade)
    ensures
        tr == trade_between(*t, *m, qty, id, *symbol),
{
    let value = compute_trade_value(m.price, qty);
    let (buy_order_id, buy_account, sell_order_id, sell_account) = match t.side {
        Side::Buy => (t.id, t.account, m.id, m.account),
        Side::Sell => (m.id, m.account, t.id, t.account),
    };
    Trade {
        id,
        timestamp: t.timestamp,
        symbol: symbol.clone(),
        buy_order_id,
        sell_order_id,
        maker_order_id: m.id,
        taker_order_id: t.id,
        buy_account,
        sell_account,
        price: m.price,
        quantity: qty,
        value,
    }
}

/// Runs `fill` on `makers` in place.
fn fill_against(
    makers: &mut Vec<BookOrder>,
    taker: &BookOrder,
    qty: Quantity,
    symbol: &String,
    next_trade_id: &mut u64,
) -> (res: (Vec<Trade>, Quantity))
    requires
        resting_on(opposite(taker.side), old(makers)@),
        *old(next_trade_id) + old(makers)@.len() <= u64::MAX,
    ensures
        ({
            let (ts, rest, q) = fill(*taker, qty, old(makers)@, *old(next_trade_id), *symbol);
            &&& res.0@ == ts
            &&& final(makers)@ == rest
            &&& res.1 == q
            &&& *final(next_trade_id) == *old(next_trade_id) + ts.len()
        }),
{
    let ghost m0 = makers@;
    let ghost id0 = *next_trade_id;
    let mut trades: Vec<Trade> = Vec::new();
    let mut q = qty;
    proof {
        lemma_fill(*taker, qty, m0, id0, *symbol);
    }
    loop
        invariant
            resting_on(opposite(taker.side), makers@),
            q > 0 ==> *next_trade_id + makers@.len() <= u64::MAX,
            ({
                let whole = fill(*taker, qty, m0, id0, *symbol);
                let now = fill(*taker, q, makers@, *next_trade_id, *symbol);
                &&& whole.0 == trades@ + now.0
                &&& whole.1 == now.1
                &&& whole.2 == now.2
            }),
            *next_trade_id == id0 + trades@.len(),
        ensures
            ({
                let (ts, rest, rq) = fill(*taker, qty, m0, id0, *symbol);
                &&& trades@ == ts
                &&& makers@ == rest
                &&& q == rq
                &&& *next_trade_id == id0 + ts.len()
            }),
        decreases makers@.len() + q,
    {
        if q == 0 || makers.len() == 0 {
            assert(trades@ + Seq::<Trade>::empty() == trades@);
            break;
        }
        if !prices_cross(taker, &makers[0]) {
            assert(trades@ + Seq::<Trade>::empty() == trades@);
            break;
        }
        let mq = if q <= makers[0].quantity {
            q
        } else {
            makers[0].quantity
        };
        let ghost before = makers@;
        let ghost q_before = q;
        let ghost id_before = *next_trade_id;
        *next_trade_id = *next_trade_id + 1;
        let tr = new_trade(taker, &makers[0], mq, *next_trade_id, symbol);
        trades.push(tr);
        if mq == makers[0].quantity {
            makers.remove(0);
            q = q - mq;
            proof {
                let now = fill(*taker, q_before, before, id_before, *symbol);
                let rest = fill(*taker, q, makers@, *next_trade_id, *symbol);
                assert(makers@ == before.drop_first());
                assert(now.0 == seq![tr] + rest.0);
                assert(trades@ + rest.0 == (trades@.drop_last() + seq![tr]) + rest.0);
                assert((trades@.drop_last() + seq![tr]) + rest.0 == trades@.drop_last() + (seq![tr]
                    + rest.0));
                assert forall|i: int| 0 <= i < makers@.len() implies (#[trigger] makers@[i]).quantity
                    > 0 && makers@[i].side == opposite(taker.side) by {
                    assert(makers@[i] == before[i + 1]);
                }
            }
        } else {
            let mut m = makers[0].clone();
            m.quantity = m.quantity - mq;
            makers.set(0, m);
            q = 0;
            proof {
                let now = fill(*taker, q_before, before, id_before, *symbol);
                assert(makers@ == before.update(0, with_quantity(before[0], (before[0].quantity
                    - mq) as u64)));
                assert(now.0 == seq![tr]);
                assert(trades@ == trades@.drop_last() + seq![tr]);
                let rest = fill(*taker, q, makers@, *next_trade_id, *symbol);
                assert(rest.0 == Seq::<Trade>::empty());
                assert(trades@ + rest.0 == trades@);
                assert forall|i: int| 0 <= i < makers@.len() implies (#[trigger] makers@[i]).quantity
                    > 0 && makers@[i].side == opposite(taker.side) by {
                    assert(before[i].quantity > 0);
                }
            }
        }
    }
    (trades, q)
}

/// The place of `o` in a sorted side: after every order matched strictly
/// before it, ahead of all the others.
fn lower_bound(side: Side, s: &Vec<BookOrder>, o: &BookOrder) -> (pos: usize)
    requires
        sorted_for(side, s@),
    ensures
        pos <= s@.len(),
        forall|i: int| 0 <= i < pos ==> strictly_precedes(side, #[trigger] s@[i], *o),
        forall|i: int| pos <= i < s@.len() ==> !strictly_precedes(side, #[trigger] s@[i], *o),
{
    let mut lo: usize = 0;
    let mut hi: usize = s.len();
    while lo < hi
        invariant
            lo <= hi <= s@.len(),
            sorted_for(side, s@),
            forall|i: int| 0 <= i < lo ==> strictly_precedes(side, #[trigger] s@[i], *o),
            forall|i: int| hi <= i < s@.len() ==> !strictly_precedes(side, #[trigger] s@[i], *o),
        decreases hi - lo,
    {
        let mid = lo + (hi - lo) / 2;
        if matched_strictly_before(side, &s[mid], o) {
            assert forall|i: int| 0 <= i < mid + 1 implies strictly_precedes(side, #[trigger] s@[i], *o) by {
                if i < mid {
                    assert(precedes(side, s@[i], s@[mid as int]));
                }
            }
            lo = mid + 1;
        } else {
            assert forall|i: int| mid <= i < s@.len() implies !strictly_precedes(side, #[trigger] s@[i], *o) by {
                if i > mid {
                    assert(precedes(side, s@[mid as int], s@[i]));
                }
            }
            hi = mid;
        }
    }
    lo
}

/// Inserting by priority keeps a side sorted.
proof fn lemma_placed_sorted(side: Side, s: Seq<BookOrder>, o: BookOrder, pos: int)
    requires
        sorted_for(side, s),
        0 <= pos <= s.len(),
        forall|i: int| 0 <= i < pos ==> strictly_precedes(side, #[trigger] s[i], o),
        forall|i: int| pos <= i < s.len() ==> !strictly_precedes(side, #[trigger] s[i], o),
    ensures
        sorted_for(side, s.insert(pos, o)),
{
    let s2 = s.insert(pos, o);
    assert forall|i: int, j: int| 0 <= i < j < s2.len() implies precedes(side, #[trigger] s2[i], #[trigger] s2[j]) by {
        if j < pos {
            assert(s2[i] == s[i] && s2[j] == s[j]);
        } else if j == pos {
            assert(s2[i] == s[i]);
        } else if i < pos {
            assert(s2[i] == s[i] && s2[j] == s[j - 1]);
            assert(strictly_precedes(side, s[i], o));
            assert(!strictly_precedes(side, s[j - 1], o));
        } else if i == pos {
            assert(s2[j] == s[j - 1]);
            assert(!strictly_precedes(side, s[j - 1], o));
        } else {
            assert(s2[i] == s[i - 1] && s2[j] == s[j - 1]);
        }
    }
}

/// The contents of an order book: its symbol and both sides, best first.
pub struct BookState {
    pub symbol: String,
    pub bids: Seq<BookOrder>,
    pub asks: Seq<BookOrder>,
}

impl BookState {
    /// Both sides in priority order, only live orders on the side they belong
    /// to, and the book is not crossed (the best bid is below the best ask).
    pub open spec fn ok(&self) -> bool {
        &&& sorted_for(Side::Buy, self.bids)
        &&& sorted_for(Side::Sell, self.asks)
        &&& resting_on(Side::Buy, self.bids)
        &&& resting_on(Side::Sell, self.asks)
        &&& self.bids.len() > 0 && self.asks.len() > 0 ==> self.bids[0].price < self.asks[0].price
    }

    /// The resting orders an order of `side` trades against.
    pub open spec fn makers_for(&self, side: Side) -> Seq<BookOrder> {
        match side {
            Side::Buy => self.asks,
            Side::Sell => self.bids,
        }
    }

    /// The resting orders on `side`.
    pub open spec fn side_orders(&self, side: Side) -> Seq<BookOrder> {
        match side {
            Side::Buy => self.bids,
            Side::Sell => self.asks,
        }
    }

    /// Number of resting orders.
    pub open spec fn open_count(&self) -> int {
        (self.bids.len() + self.asks.len()) as int
    }
}

impl View for OrderBook {
    type V = BookState;

    open spec fn view(&self) -> BookState {
        BookState { symbol: self.symbol, bids: self.bids@, asks: self.asks@ }
    }
}

impl Clone for OrderBook {
    fn clone(&self) -> (r: Self)
        ensures
            r.symbol == self.symbol,
            r.bids@ == self.bids@,
            r.asks@ == self.asks@,
    {
        let bids = self.bids.clone();
        let asks = self.asks.clone();
        assert(bids@ == self.bids@);
        assert(asks@ == self.asks@);
        OrderBook { symbol: self.symbol.clone(), bids, asks }
    }
}

impl OrderBook {
    /// The book's invariant (see `BookState::ok`).
    pub open spec fn wf(&self) -> bool {
        self@.ok()
    }

    /// An empty book for `symbol`.
    pub fn new(symbol: String) -> (b: Self)
        ensures
            b.symbol == symbol,
            b.bids@ == Seq::<BookOrder>::empty(),
            b.asks@ == Seq::<BookOrder>::empty(),
            b.wf(),
    {
        OrderBook { symbol, bids: Vec::new(), asks: Vec::new() }
    }

    /// Processes an incoming order: it trades against the crossing resting
    /// orders of the other side in price-time priority, at the resting (maker)
    /// order's price, and any unfilled remainder rests on its own side of the
    /// book in priority order.
    pub fn match_and_insert(&mut self, order: BookOrder, next_trade_id: &mut u64) -> (trades: Vec<Trade>)
        requires
            old(self).wf(),
            *old(next_trade_id) + old(self)@.makers_for(order.side).len() <= u64::MAX,
        ensures
            final(self).wf(),
            book_after_order(old(self)@, final(self)@, order, *old(next_trade_id)),
            trades@ == order_trades(old(self)@, order, *old(next_trade_id)),
            *final(next_trade_id) == *old(next_trade_id) + trades@.len(),
    {
        let ghost old_bids = self.bids@;
        let ghost old_asks = self.asks@;
        let ghost id0 = *next_trade_id;
        let side = order.side;
        let ghost makers0 = old(self)@.makers_for(side);
        let res = match side {
            Side::Buy => fill_against(&mut self.asks, &order, order.quantity, &self.symbol, next_trade_id),
            Side::Sell => fill_against(&mut self.bids, &order, order.quantity, &self.symbol, next_trade_id),
        };
        let (trades, q) = res;
        proof {
            lemma_fill(order, order.quantity, makers0, id0, self.symbol);
            lemma_fill_keeps_side(order, order.quantity, makers0, id0, self.symbol);
        }
        let ghost rest = fill(order, order.quantity, makers0, id0, self.symbol).1;
        if q > 0 {
            let mut rest_order = order;
            rest_order.quantity = q;
            match side {
                Side::Buy => {
                    let pos = lower_bound(Side::Buy, &self.bids, &rest_order);
                    proof {
                        lemma_placed_sorted(Side::Buy, self.bids@, rest_order, pos as int);
                    }
                    self.bids.insert(pos, rest_order);
                    proof {
                        let b = self.bids@;
                        assert(b == old_bids.insert(pos as int, rest_order));
                        assert(placed_by_priority(Side::Buy, old_bids, with_quantity(order, q), b));
                        assert(resting_on(Side::Buy, b)) by {
                            assert forall|i: int| 0 <= i < b.len() implies (#[trigger] b[i]).quantity > 0 && b[i].side == Side::Buy by {
                                if i < pos { assert(b[i] == old_bids[i]); }
                                else if i > pos { assert(b[i] == old_bids[i - 1]); }
                            }
                        }
                        if rest.len() > 0 {
                            if pos == 0 {
                                assert(b[0] == rest_order);
                            } else {
                                assert(b[0] == old_bids[0]);
                                assert(old_bids[0].price < old_asks[0].price);
                            }
                        }
                    }
                },
                Side::Sell => {
                    let pos = lower_bound(Side::Sell, &self.asks, &rest_order);
                    proof {
                        lemma_placed_sorted(Side::Sell, self.asks@, rest_order, pos as int);
                    }
                    self.asks.insert(pos, rest_order);
                    proof {
                        let a = self.asks@;
                        assert(a == old_asks.insert(pos as int, rest_order));
                        assert(placed_by_priority(Side::Sell, old_asks, with_quantity(order, q), a));
                        assert(resting_on(Side::Sell, a)) by {
                            assert forall|i: int| 0 <= i < a.len() implies (#[trigger] a[i]).quantity > 0 && a[i].side == Side::Sell by {
                                if i < pos { assert(a[i] == old_asks[i]); }
                                else if i > pos { assert(a[i] == old_asks[i - 1]); }
                            }
                        }
                        if rest.len() > 0 {
                            if pos == 0 {
                                assert(a[0] == rest_order);
                            } else {
                                assert(a[0] == old_asks[0]);
                                assert(old_bids[0].price < old_asks[0].price);
                            }
                        }
                    }
                },
            }
        } else {
            proof {
                if rest.len() > 0 {
                    assert(makers0.len() > 0);
                }
            }
        }
        trades
    }

    /// Cancels the order with id `order_id`: the first such order among the bids,
    /// or else the first among the asks, leaves the book and is returned.
    pub fn cancel_order(&mut self, order_id: OrderId) -> (r: Option<BookOrder>)
        requires
            old(self).wf(),
        ensures
            final(self).wf(),
            book_after_cancel(old(self)@, final(self)@, order_id, r),
    {
        let ghost b0 = self.bids@;
        let ghost a0 = self.asks@;
        match position_of(&self.bids, order_id) {
            Some(idx) => {
                let o = self.bids.remove(idx);
                proof {
                    lemma_remove_keeps_side(Side::Buy, b0, idx as int);
                    assert(first_with_id(b0, order_id, idx as int));
                    let b = self.bids@;
                    if b.len() > 0 && a0.len() > 0 {
                        if idx == 0 {
                            assert(b[0] == b0[1]);
                            assert(precedes(Side::Buy, b0[0], b0[1]));
                        } else {
                            assert(b[0] == b0[0]);
                        }
                    }
                }
                return Some(o);
            },
            None => {},
        }
        match position_of(&self.asks, order_id) {
            Some(idx) => {
                let o = self.asks.remove(idx);
                proof {
                    lemma_remove_keeps_side(Side::Sell, a0, idx as int);
                    assert(first_with_id(a0, order_id, idx as int));
                    let a = self.asks@;
                    if a.len() > 0 && b0.len() > 0 {
                        if idx == 0 {
                            assert(a[0] == a0[1]);
                            assert(precedes(Side::Sell, a0[0], a0[1]));
                        } else {
                            assert(a[0] == a0[0]);
                        }
                    }
                }
                Some(o)
            },
            None => None,
        }
    }

    /// Some resting order, bid or ask, has id `order_id`.
    pub fn holds(&self, order_id: OrderId) -> (r: bool)
        ensures
            r == (holds_id(self.bids@, order_id) || holds_id(self.asks@, order_id)),
    {
        position_of(&self.bids, order_id).is_some() || position_of(&self.asks, order_id).is_some()
    }

    /// The best (highest) bid price, if any.
    pub fn best_bid(&self) -> (r: Option<Price>)
        ensures
            r == best_price(self.bids@),
    {
        if self.bids.len() == 0 {
            None
        } else {
            Some(self.bids[0].price)
        }
    }

    /// The best (lowest) ask price, if any.
    pub fn best_ask(&self) -> (r: Option<Price>)
        ensures
            r == best_price(self.asks@),
    {
        if self.asks.len() == 0 {
            None
        } else {
            Some(self.asks[0].price)
        }
    }

    /// The spread, best ask minus best bid, when both sides have orders.
    pub fn spread(&self) -> (r: Option<Price>)
        requires
            self.wf(),
        ensures
            r == book_spread(self.bids@, self.asks@),
    {
        match (self.best_bid(), self.best_ask()) {
            (Some(bid), Some(ask)) => Some(ask - bid),
            _ => None,
        }
    }

    /// The price levels of the bids, best first.
    pub fn aggregate_bids(&self) -> (r: Vec<PriceLevelView>)
        ensures
            r@ == levels(self.bids@),
    {
        aggregate(&self.bids)
    }

    /// The price levels of the asks, best first.
    pub fn aggregate_asks(&self) -> (r: Vec<PriceLevelView>)
        ensures
            r@ == levels(self.asks@),
    {
        aggregate(&self.asks)
    }

    /// A snapshot of the book.
    pub fn to_view(&self) -> (v: OrderBookView)
        requires
            self.wf(),
        ensures
            describes(v, self@),
    {
        let bids_view = self.aggregate_bids();
        let asks_view = self.aggregate_asks();
        let nb = self.bids.len();
        let na = self.asks.len();
        proof {
            lemma_levels_totals(self.bids@);
            lemma_levels_totals(self.asks@);
            assert(nb * 0xffff_ffff_ffff_ffffint <= 0xffff_ffff_ffff_ffffint * 0xffff_ffff_ffff_ffffint) by (nonlinear_arith)
                requires nb <= 0xffff_ffff_ffff_ffffint;
            assert(na * 0xffff_ffff_ffff_ffffint <= 0xffff_ffff_ffff_ffffint * 0xffff_ffff_ffff_ffffint) by (nonlinear_arith)
                requires na <= 0xffff_ffff_ffff_ffffint;
        }
        let total_bids_quantity = total_level_quantity(&bids_view);
        let total_asks_quantity = total_level_quantity(&asks_view);
        let mut all_orders = self.bids.clone();
        let mut asks_copy = self.asks.clone();
        assert(all_orders@ == self.bids@);
        assert(asks_copy@ == self.asks@);
        all_orders.append(&mut asks_copy);
        OrderBookView {
            symbol: self.symbol.clone(),
            best_bid: self.best_bid(),
            best_ask: self.best_ask(),
            spread: self.spread(),
            bids: bids_view,
            asks: asks_view,
            total_bids_quantity,
            total_asks_quantity,
            open_orders: all_orders,
        }
    }
}

/// `b1` is `b0` after an incoming `order` has traded against it and its
/// remainder, if any, has come to rest (trade ids continue after `last_id`).
pub open spec fn book_after_order(b0: BookState, b1: BookState, order: BookOrder, last_id: u64) -> bool {
    let (ts, rest, q) = fill(order, order.quantity, b0.makers_for(order.side), last_id, b0.symbol);
    &&& b1.symbol == b0.symbol
    &&& b1.makers_for(order.side) == rest
    &&& q == 0 ==> b1.side_orders(order.side) == b0.side_orders(order.side)
    &&& q > 0 ==> placed_by_priority(
        order.side,
        b0.side_orders(order.side),
        with_quantity(order, q),
        b1.side_orders(order.side),
    )
}

/// The trades an incoming `order` makes against book `b0`.
pub open spec fn order_trades(b0: BookState, order: BookOrder, last_id: u64) -> Seq<Trade> {
    fill(order, order.quantity, b0.makers_for(order.side), last_id, b0.symbol).0
}

/// `b1` is `b0` after cancelling `order_id`, with `r` the order taken out: the
/// first such order among the bids, or else the first among the asks.
pub open spec fn book_after_cancel(b0: BookState, b1: BookState, order_id: OrderId, r: Option<BookOrder>) -> bool {
    &&& b1.symbol == b0.symbol
    &&& match r {
        Some(o) => {
            ||| (exists|i: int|
                first_with_id(b0.bids, order_id, i) && o == b0.bids[i] && b1.bids == b0.bids.remove(i))
                && b1.asks == b0.asks
            ||| !holds_id(b0.bids, order_id) && (exists|i: int|
                first_with_id(b0.asks, order_id, i) && o == b0.asks[i] && b1.asks == b0.asks.remove(i))
                && b1.bids == b0.bids
        },
        None => {
            &&& !holds_id(b0.bids, order_id)
            &&& !holds_id(b0.asks, order_id)
            &&& b1.bids == b0.bids
            &&& b1.asks == b0.asks
        },
    }
}

/// `v` is a snapshot of book `b`: its symbol, best prices and spread, its price
/// levels and their totals, and every resting order (bids, then asks).
pub open spec fn describes(v: OrderBookView, b: BookState) -> bool {
    &&& v.symbol == b.symbol
    &&& v.best_bid == best_price(b.bids)
    &&& v.best_ask == best_price(b.asks)
    &&& v.spread == book_spread(b.bids, b.asks)
    &&& v.bids@ == levels(b.bids)
    &&& v.asks@ == levels(b.asks)
    &&& v.total_bids_quantity == open_quantity_back(b.bids)
    &&& v.total_asks_quantity == open_quantity_back(b.asks)
    &&& v.open_orders@ == b.bids + b.asks
}

/// The price of the first order, if any.
pub open spec fn best_price(s: Seq<BookOrder>) -> Option<Price> {
    if s.len() == 0 {
        None
    } else {
        Some(s[0].price)
    }
}

/// Best ask minus best bid, when both exist.
pub open spec fn book_spread(bids: Seq<BookOrder>, asks: Seq<BookOrder>) -> Option<Price> {
    if bids.len() > 0 && asks.len() > 0 {
        Some((asks[0].price - bids[0].price) as Price)
    } else {
        None
    }
}

/// `i` is the first position of `s` holding an order with id `id`.
pub open spec fn first_with_id(s: Seq<BookOrder>, id: OrderId, i: int) -> bool {
    &&& 0 <= i < s.len()
    &&& s[i].id == id
    &&& forall|j: int| 0 <= j < i ==> (#[trigger] s[j]).id != id
}

/// Some order of `s` has id `id`.
pub open spec fn holds_id(s: Seq<BookOrder>, id: OrderId) -> bool {
    exists|i: int| 0 <= i < s.len() && (#[trigger] s[i]).id == id
}

/// The first position holding an order with id `id`.
fn position_of(s: &Vec<BookOrder>, id: OrderId) -> (r: Option<usize>)
    ensures
        match r {
            Some(i) => first_with_id(s@, id, i as int),
            None => !holds_id(s@, id),
        },
{
    let mut i: usize = 0;
    while i < s.len()
        invariant
            i <= s@.len(),
            forall|j: int| 0 <= j < i ==> (#[trigger] s@[j]).id != id,
        decreases s@.len() - i,
    {
        if s[i].id == id {
            return Some(i);
        }
        i = i + 1;
    }
    None
}

/// Removing an order keeps a side sorted and live.
proof fn lemma_remove_keeps_side(side: Side, s: Seq<BookOrder>, i: int)
    requires
        sorted_for(side, s),
        resting_on(side, s),
        0 <= i < s.len(),
    ensures
        sorted_for(side, s.remove(i)),
        resting_on(side, s.remove(i)),
{
    let r = s.remove(i);
    assert forall|a: int, b: int| 0 <= a < b < r.len() implies precedes(side, #[trigger] r[a], #[trigger] r[b]) by {
        let a0 = if a < i { a } else { a + 1 };
        let b0 = if b < i { b } else { b + 1 };
        assert(r[a] == s[a0] && r[b] == s[b0]);
    }
    assert forall|a: int| 0 <= a < r.len() implies (#[trigger] r[a]).quantity > 0 && r[a].side == side by {
        let a0 = if a < i { a } else { a + 1 };
        assert(r[a] == s[a0]);
    }
}

/// Groups a side into price levels.
fn aggregate(orders: &Vec<BookOrder>) -> (ls: Vec<PriceLevelView>)
    ensures
        ls@ == levels(orders@),
{
    let mut ls: Vec<PriceLevelView> = Vec::new();
    let mut i: usize = 0;
    while i < orders.len()
        invariant
            i <= orders@.len(),
            ls@ == levels(orders@.take(i as int)),
        decreases orders@.len() - i,
    {
        let ghost pre = orders@.take(i as int);
        let ghost cur = orders@.take(i as int + 1);
        proof {
            assert(cur.drop_last() == pre);
            assert(cur.last() == orders@[i as int]);
            lemma_levels_totals(cur);
            lemma_levels_totals(pre);
        }
        let o = &orders[i];
        let n = ls.len();
        if n > 0 && ls[n - 1].price == o.price {
            let last = ls[n - 1];
            proof {
                let l = levels(cur)[n - 1];
                lemma_level_sums_bound(levels(pre));
                assert(last.order_count + 1 <= usize::MAX);
                assert(l.quantity == last.quantity + o.quantity);
                assert(l.order_count == last.order_count + 1);
                assert(levels(cur)[n - 1].quantity <= levels(cur)[n - 1].order_count
                    * 0xffff_ffff_ffff_ffffint);
                assert(levels(cur)[n - 1].order_count <= level_count(levels(cur))) by {
                    lemma_level_sums_bound(levels(cur));
                }
                assert(levels(cur)[n - 1].order_count * 0xffff_ffff_ffff_ffffint
                    <= 0xffff_ffff_ffff_ffffint * 0xffff_ffff_ffff_ffffint) by (nonlinear_arith)
                    requires levels(cur)[n - 1].order_count <= 0xffff_ffff_ffff_ffffint;
            }
            ls.set(
                n - 1,
                PriceLevelView {
                    price: o.price,
                    quantity: last.quantity + o.quantity as u128,
                    order_count: last.order_count + 1,
                },
            );
        } else {
            ls.push(PriceLevelView { price: o.price, quantity: o.quantity as u128, order_count: 1 });
        }
        i = i + 1;
    }
    assert(orders@.take(orders@.len() as int) == orders@);
    ls
}

/// Adds up the quantities of price levels.
fn total_level_quantity(ls: &Vec<PriceLevelView>) -> (t: u128)
    requires
        level_quantity(ls@) <= u128::MAX,
    ensures
        t == level_quantity(ls@),
{
    let mut t: u128 = 0;
    let mut i: usize = 0;
    while i < ls.len()
        invariant
            i <= ls@.len(),
            t == level_quantity(ls@.take(i as int)),
            level_quantity(ls@) <= u128::MAX,
        decreases ls@.len() - i,
    {
        proof {
            assert(ls@.take(i as int + 1).drop_last() == ls@.take(i as int));
            lemma_level_quantity_prefix(ls@, i as int + 1);
        }
        t = t + ls[i].quantity;
        i = i + 1;
    }
    assert(ls@.take(ls@.len() as int) == ls@);
    t
}

/// Level totals only grow along a sequence.
proof fn lemma_level_quantity_prefix(ls: Seq<PriceLevelView>, k: int)
    requires
        0 <= k <= ls.len(),
    ensures
        level_quantity(ls.take(k)) <= level_quantity(ls),
    decreases ls.len() - k,
{
    if k < ls.len() {
        lemma_level_quantity_prefix(ls, k + 1);
        assert(ls.take(k + 1).drop_last() == ls.take(k));
        assert(level_quantity(ls.take(k + 1)) == level_quantity(ls.take(k)) + ls[k].quantity);
    } else {
        assert(ls.take(k) == ls);
    }
}

// ---------------------------------------------------------------------------
// Laws
// ---------------------------------------------------------------------------

/// In a well-formed book the orders an incoming order trades against are live
/// resting orders of the other side, in priority order.
proof fn lemma_makers_in_order(b0: BookState, side: Side)
    requires
        b0.ok(),
    ensures
        resting_on(opposite(side), b0.makers_for(side)),
        sorted_for(opposite(side), b0.makers_for(side)),
{
}

/// Price-time priority and maker pricing: the trades of an incoming order are
/// against the resting orders of the other side in their priority order (the
/// i-th trade fills the i-th best resting order: better price first, then
/// earlier order), each at that resting order's price, each between crossing
/// prices, for a positive quantity no larger than the resting order's, with
/// trade ids running on from `last_id`; each trade carries the incoming order's
/// timestamp, its value is the resting price times the quantity rounded half
/// up, and its buyer and seller are the two orders by side; no more than the
/// order's quantity is traded. With distinct resting ids, no resting order is
/// filled by two trades.
pub proof fn law_trades_follow_priority(b0: BookState, order: BookOrder, last_id: u64)
    requires
        b0.ok(),
        last_id + b0.makers_for(order.side).len() <= u64::MAX,
    ensures
        ({
            let makers = b0.makers_for(order.side);
            let ts = order_trades(b0, order, last_id);
            &&& ts.len() <= makers.len()
            &&& traded_quantity(ts) <= order.quantity
            &&& forall|i: int|
                0 <= i < ts.len() ==> {
                    &&& (#[trigger] ts[i]).maker_order_id == makers[i].id
                    &&& ts[i].price == makers[i].price
                    &&& crosses(order, makers[i])
                    &&& ts[i].taker_order_id == order.id
                    &&& ts[i].quantity > 0
                    &&& ts[i].id == last_id + 1 + i
                    &&& ts[i].symbol == b0.symbol
                    &&& ts[i].timestamp == order.timestamp
                    &&& ts[i].value == trade_value(makers[i].price, ts[i].quantity)
                    &&& ts[i].quantity <= makers[i].quantity
                    &&& order.side == Side::Buy ==> {
                        &&& ts[i].buy_order_id == order.id && ts[i].buy_account == order.account
                        &&& ts[i].sell_order_id == makers[i].id && ts[i].sell_account == makers[i].account
                    }
                    &&& order.side == Side::Sell ==> {
                        &&& ts[i].sell_order_id == order.id && ts[i].sell_account == order.account
                        &&& ts[i].buy_order_id == makers[i].id && ts[i].buy_account == makers[i].account
                    }
                }
            &&& forall|i: int, j: int|
                0 <= i < j < ts.len() ==> precedes(opposite(order.side), #[trigger] makers[i], #[trigger] makers[j])
            &&& ids_distinct(b0) ==> forall|i: int, j: int|
                0 <= i < j < ts.len() ==> (#[trigger] ts[i]).maker_order_id != (#[trigger] ts[j]).maker_order_id
        }),
{
    lemma_makers_in_order(b0, order.side);
    lemma_fill(order, order.quantity, b0.makers_for(order.side), last_id, b0.symbol);
    let makers = b0.makers_for(order.side);
    let ts = order_trades(b0, order, last_id);
    lemma_ids_distinct_by_side(b0, order.side);
    if ids_distinct(b0) {
        assert forall|i: int, j: int| 0 <= i < j < ts.len() implies (#[trigger] ts[i]).maker_order_id
            != (#[trigger] ts[j]).maker_order_id by {
            assert(makers[i].id != makers[j].id);
        }
    }
    assert forall|i: int| 0 <= i < ts.len() implies (#[trigger] ts[i]).value == trade_value(
        makers[i].price,
        ts[i].quantity,
    ) by {
        let p = makers[i].price;
        let q = ts[i].quantity;
        assert(p * q <= 0xffff_ffff_ffff_ffffint * 0xffff_ffff_ffff_ffffint) by (nonlinear_arith)
            requires
                p <= 0xffff_ffff_ffff_ffffint,
                q <= 0xffff_ffff_ffff_ffffint,
        ;
    }
}

/// Quantity is conserved: what an incoming order trades plus what is left of it
/// is its quantity. What is left rests on the order's own side, and no resting
/// order of the other side crosses it any more; an order traded in full does
/// not rest and leaves its own side unchanged.
pub proof fn law_order_conserves_quantity(b0: BookState, b1: BookState, order: BookOrder, last_id: u64)
    requires
        b0.ok(),
        book_after_order(b0, b1, order, last_id),
        last_id + b0.makers_for(order.side).len() <= u64::MAX,
    ensures
        ({
            let (ts, rest, q) = fill(order, order.quantity, b0.makers_for(order.side), last_id, b0.symbol);
            &&& traded_quantity(ts) + q == order.quantity
            &&& q > 0 ==> b1.side_orders(order.side).contains(with_quantity(order, q))
            &&& q > 0 ==> b1.makers_for(order.side).len() == 0 || !crosses(order, b1.makers_for(order.side)[0])
            &&& q == 0 ==> b1.side_orders(order.side) == b0.side_orders(order.side)
        }),
{
    lemma_makers_in_order(b0, order.side);
    lemma_fill(order, order.quantity, b0.makers_for(order.side), last_id, b0.symbol);
    let q = fill(order, order.quantity, b0.makers_for(order.side), last_id, b0.symbol).2;
    if q > 0 {
        let o = with_quantity(order, q);
        let s = b0.side_orders(order.side);
        let s2 = b1.side_orders(order.side);
        let pos = choose|pos: int|
            0 <= pos <= s.len() && s2 == s.insert(pos, o) && (forall|i: int|
                0 <= i < pos ==> strictly_precedes(order.side, #[trigger] s[i], o)) && (forall|i: int|
                pos <= i < s.len() ==> !strictly_precedes(order.side, #[trigger] s[i], o));
        assert(s2[pos] == o);
    }
}

/// Cancelling takes out exactly one order, the one with the given id: when one
/// is found the book holds one order fewer, and when none is the book is
/// unchanged.
pub proof fn law_cancel_removes_one(b0: BookState, b1: BookState, order_id: OrderId, r: Option<BookOrder>)
    requires
        book_after_cancel(b0, b1, order_id, r),
    ensures
        r is Some ==> r->0.id == order_id && b1.open_count() == b0.open_count() - 1,
        r is None ==> b1.bids == b0.bids && b1.asks == b0.asks,
{
}

/// No two orders of `s` share an id.
pub open spec fn distinct_ids(s: Seq<BookOrder>) -> bool {
    forall|i: int, j: int| 0 <= i < j < s.len() ==> (#[trigger] s[i]).id != (#[trigger] s[j]).id
}

/// No order of `a` shares an id with an order of `b`.
pub open spec fn disjoint_ids(a: Seq<BookOrder>, b: Seq<BookOrder>) -> bool {
    forall|i: int, j: int| 0 <= i < a.len() && 0 <= j < b.len() ==> (#[trigger] a[i]).id != (#[trigger] b[j]).id
}

/// No two resting orders of the book, bids or asks, share an id.
pub open spec fn ids_distinct(b: BookState) -> bool {
    &&& distinct_ids(b.bids)
    &&& distinct_ids(b.asks)
    &&& disjoint_ids(b.bids, b.asks)
}

/// A cancelled order is gone: when no two resting orders share an id, after a
/// cancel no order with that id rests in the book, so none can trade again.
pub proof fn law_cancelled_order_is_gone(b0: BookState, b1: BookState, order_id: OrderId, r: Option<BookOrder>)
    requires
        book_after_cancel(b0, b1, order_id, r),
        ids_distinct(b0),
    ensures
        !holds_id(b1.bids, order_id),
        !holds_id(b1.asks, order_id),
{
    match r {
        Some(o) => {
            if exists|i: int| first_with_id(b0.bids, order_id, i) && o == b0.bids[i] && b1.bids == b0.bids.remove(i)
                && b1.asks == b0.asks {
                let i = choose|i: int|
                    first_with_id(b0.bids, order_id, i) && o == b0.bids[i] && b1.bids == b0.bids.remove(i)
                        && b1.asks == b0.asks;
                assert forall|j: int| 0 <= j < b1.bids.len() implies (#[trigger] b1.bids[j]).id != order_id by {
                    let j0 = if j < i { j } else { j + 1 };
                    assert(b1.bids[j] == b0.bids[j0]);
                }
                assert forall|j: int| 0 <= j < b1.asks.len() implies (#[trigger] b1.asks[j]).id != order_id by {
                    assert(b0.bids[i].id != b0.asks[j].id);
                }
            } else {
                let i = choose|i: int|
                    first_with_id(b0.asks, order_id, i) && o == b0.asks[i] && b1.asks == b0.asks.remove(i);
                assert forall|j: int| 0 <= j < b1.asks.len() implies (#[trigger] b1.asks[j]).id != order_id by {
                    let j0 = if j < i { j } else { j + 1 };
                    assert(b1.asks[j] == b0.asks[j0]);
                }
            }
        },
        None => {},
    }
}

/// With distinct ids, priority is strict: along each side every order is
/// matched strictly before every later one (a better price, or the same price
/// and a lower id).
pub proof fn law_distinct_ids_give_strict_priority(b: BookState)
    requires
        b.ok(),
        ids_distinct(b),
    ensures
        forall|i: int, j: int|
            0 <= i < j < b.bids.len() ==> strictly_precedes(Side::Buy, #[trigger] b.bids[i], #[trigger] b.bids[j]),
        forall|i: int, j: int|
            0 <= i < j < b.asks.len() ==> strictly_precedes(Side::Sell, #[trigger] b.asks[i], #[trigger] b.asks[j]),
{
}

/// The ids of `rest` are those of the makers from position `off` on, in order.
proof fn lemma_rest_ids(makers: Seq<BookOrder>, ts: Seq<Trade>, rest: Seq<BookOrder>)
    requires
        fill_shape(makers, ts, rest),
    ensures
        forall|i: int|
            0 <= i < rest.len() ==> (#[trigger] rest[i]).id == makers[makers.len() - rest.len() + i].id,
{
}

/// Inserting an order whose id is new keeps ids distinct, and apart from
/// those of another sequence that does not hold that id either.
proof fn lemma_insert_keeps_ids_apart(s: Seq<BookOrder>, pos: int, o: BookOrder, other: Seq<BookOrder>)
    requires
        distinct_ids(s),
        disjoint_ids(s, other),
        0 <= pos <= s.len(),
        forall|j: int| 0 <= j < s.len() ==> (#[trigger] s[j]).id != o.id,
        forall|j: int| 0 <= j < other.len() ==> (#[trigger] other[j]).id != o.id,
    ensures
        distinct_ids(s.insert(pos, o)),
        disjoint_ids(s.insert(pos, o), other),
{
    let s2 = s.insert(pos, o);
    assert forall|i: int, j: int| 0 <= i < j < s2.len() implies (#[trigger] s2[i]).id != (#[trigger] s2[j]).id by {
        if i == pos {
            assert(s2[j] == s[j - 1]);
        } else if j == pos {
            assert(s2[i] == s[i]);
        } else {
            let i0 = if i < pos { i } else { i - 1 };
            let j0 = if j < pos { j } else { j - 1 };
            assert(s2[i] == s[i0] && s2[j] == s[j0]);
        }
    }
    assert forall|i: int, j: int| 0 <= i < s2.len() && 0 <= j < other.len() implies (#[trigger] s2[i]).id
        != (#[trigger] other[j]).id by {
        if i != pos {
            let i0 = if i < pos { i } else { i - 1 };
            assert(s2[i] == s[i0]);
        }
    }
}

/// A tail of orders whose ids are those of distinct makers keeps them
/// distinct, and apart from any sequence apart from the makers.
proof fn lemma_tail_keeps_ids_apart(makers: Seq<BookOrder>, rest: Seq<BookOrder>, x: Seq<BookOrder>)
    requires
        rest.len() <= makers.len(),
        forall|i: int| 0 <= i < rest.len() ==> (#[trigger] rest[i]).id == makers[makers.len() - rest.len() + i].id,
        distinct_ids(makers),
        disjoint_ids(x, makers),
    ensures
        distinct_ids(rest),
        disjoint_ids(x, rest),
{
    let off = makers.len() - rest.len();
    assert forall|i: int, j: int| 0 <= i < j < rest.len() implies (#[trigger] rest[i]).id != (#[trigger] rest[j]).id by {
        assert(makers[off + i].id != makers[off + j].id);
    }
    assert forall|i: int, j: int| 0 <= i < x.len() && 0 <= j < rest.len() implies (#[trigger] x[i]).id
        != (#[trigger] rest[j]).id by {
        assert(x[i].id != makers[off + j].id);
    }
}

/// A book's ids are distinct exactly when each side's are and the two sides'
/// are apart, seen from either side.
proof fn lemma_ids_distinct_by_side(b: BookState, side: Side)
    ensures
        ids_distinct(b) <==> distinct_ids(b.side_orders(side)) && distinct_ids(b.makers_for(side)) && disjoint_ids(
            b.side_orders(side),
            b.makers_for(side),
        ),
{
    if side == Side::Sell {
        assert(disjoint_ids(b.bids, b.asks) <==> disjoint_ids(b.asks, b.bids)) by {
            if disjoint_ids(b.bids, b.asks) {
                assert forall|i: int, j: int| 0 <= i < b.asks.len() && 0 <= j < b.bids.len() implies (
                #[trigger] b.asks[i]).id != (#[trigger] b.bids[j]).id by {
                    assert(b.bids[j].id != b.asks[i].id);
                }
            }
            if disjoint_ids(b.asks, b.bids) {
                assert forall|i: int, j: int| 0 <= i < b.bids.len() && 0 <= j < b.asks.len() implies (
                #[trigger] b.bids[i]).id != (#[trigger] b.asks[j]).id by {
                    assert(b.asks[j].id != b.bids[i].id);
                }
            }
        }
    }
}

/// Ids stay distinct: when the resting orders have distinct ids and an incoming
/// order's id is none of theirs, after the order traded and rested no two
/// resting orders share an id.
pub proof fn law_order_keeps_ids_distinct(b0: BookState, b1: BookState, order: BookOrder, last_id: u64)
    requires
        b0.ok(),
        ids_distinct(b0),
        !holds_id(b0.bids, order.id),
        !holds_id(b0.asks, order.id),
        book_after_order(b0, b1, order, last_id),
        last_id + b0.makers_for(order.side).len() <= u64::MAX,
    ensures
        ids_distinct(b1),
{
    let side = order.side;
    let makers = b0.makers_for(side);
    let own = b0.side_orders(side);
    lemma_makers_in_order(b0, side);
    lemma_fill(order, order.quantity, makers, last_id, b0.symbol);
    let (ts, rest, q) = fill(order, order.quantity, makers, last_id, b0.symbol);
    lemma_rest_ids(makers, ts, rest);
    lemma_ids_distinct_by_side(b0, side);
    lemma_ids_distinct_by_side(b1, side);
    let own1 = b1.side_orders(side);
    assert forall|j: int| 0 <= j < makers.len() implies (#[trigger] makers[j]).id != order.id by {
        if side == Side::Buy {
            assert(b0.asks[j].id != order.id);
        } else {
            assert(b0.bids[j].id != order.id);
        }
    }
    assert forall|j: int| 0 <= j < own.len() implies (#[trigger] own[j]).id != order.id by {
        if side == Side::Buy {
            assert(b0.bids[j].id != order.id);
        } else {
            assert(b0.asks[j].id != order.id);
        }
    }
    if q > 0 {
        let o = with_quantity(order, q);
        let pos = choose|pos: int|
            0 <= pos <= own.len() && own1 == own.insert(pos, o) && (forall|i: int|
                0 <= i < pos ==> strictly_precedes(side, #[trigger] own[i], o)) && (forall|i: int|
                pos <= i < own.len() ==> !strictly_precedes(side, #[trigger] own[i], o));
        lemma_insert_keeps_ids_apart(own, pos, o, makers);
    }
    lemma_tail_keeps_ids_apart(makers, rest, own1);
}

/// Price `a` is strictly better than `b` on `side`: higher for bids, lower for asks.
pub open spec fn better_price(side: Side, a: Price, b: Price) -> bool {
    match side {
        Side::Buy => a > b,
        Side::Sell => a < b,
    }
}

/// The last level of a nonempty side has the price of its last order.
proof fn lemma_levels_last(s: Seq<BookOrder>)
    requires
        s.len() > 0,
    ensures
        levels(s).len() > 0,
        levels(s).last().price == s.last().price,
{
}

/// Number of orders of `s` at `price`.
pub open spec fn count_at(s: Seq<BookOrder>, price: Price) -> int
    decreases s.len(),
{
    if s.len() == 0 {
        0
    } else {
        count_at(s.drop_last(), price) + if s.last().price == price {
            1int
        } else {
            0int
        }
    }
}

/// Total quantity of the orders of `s` at `price`.
pub open spec fn quantity_at(s: Seq<BookOrder>, price: Price) -> int
    decreases s.len(),
{
    if s.len() == 0 {
        0
    } else {
        quantity_at(s.drop_last(), price) + if s.last().price == price {
            s.last().quantity as int
        } else {
            0int
        }
    }
}

/// With no order at `price`, there is nothing at it.
proof fn lemma_nothing_at(s: Seq<BookOrder>, price: Price)
    requires
        forall|i: int| 0 <= i < s.len() ==> (#[trigger] s[i]).price != price,
    ensures
        count_at(s, price) == 0,
        quantity_at(s, price) == 0,
    decreases s.len(),
{
    if s.len() > 0 {
        let p = s.drop_last();
        assert forall|i: int| 0 <= i < p.len() implies (#[trigger] p[i]).price != price by {
            assert(p[i] == s[i]);
        }
        lemma_nothing_at(p, price);
    }
}

/// Prices in priority order: `a` precedes `b` means `a`'s price is at least as good.
proof fn lemma_precedes_price(side: Side, a: BookOrder, b: BookOrder)
    requires
        precedes(side, a, b),
    ensures
        better_price(side, a.price, b.price) || a.price == b.price,
{
}

/// Each level of a side in priority order holds exactly the orders at its price.
proof fn lemma_levels_count_orders(side: Side, s: Seq<BookOrder>)
    requires
        sorted_for(side, s),
        s.len() <= usize::MAX,
    ensures
        forall|k: int|
            0 <= k < levels(s).len() ==> (#[trigger] levels(s)[k]).order_count == count_at(s, levels(s)[k].price)
                && levels(s)[k].quantity == quantity_at(s, levels(s)[k].price),
    decreases s.len(), 0int,
{
    if s.len() > 0 {
        let p = s.drop_last();
        assert(sorted_for(side, p)) by {
            assert forall|i: int, j: int| 0 <= i < j < p.len() implies precedes(side, #[trigger] p[i], #[trigger] p[j]) by {
                assert(p[i] == s[i] && p[j] == s[j]);
            }
        }
        law_levels_are_price_runs(side, p);
        lemma_levels_totals(p);
        let prev = levels(p);
        let n = prev.len();
        let o = s.last();
        let ls = levels(s);
        if n > 0 && prev.last().price == o.price {
            let l = prev.last();
            lemma_level_sums_bound(prev);
            assert(l.quantity <= l.order_count * 0xffff_ffff_ffff_ffffint);
            assert(l.order_count + 1 <= s.len());
            assert(l.quantity + o.quantity <= (l.order_count + 1) * 0xffff_ffff_ffff_ffffint) by (nonlinear_arith)
                requires
                    l.quantity <= l.order_count * 0xffff_ffff_ffff_ffffint,
                    o.quantity <= 0xffff_ffff_ffff_ffffint,
            ;
            assert((l.order_count + 1) * 0xffff_ffff_ffff_ffffint <= 0xffff_ffff_ffff_ffffint * 0xffff_ffff_ffff_ffffint) by (nonlinear_arith)
                requires
                    l.order_count + 1 <= 0xffff_ffff_ffff_ffffint,
            ;
            assert forall|k: int| 0 <= k < ls.len() implies (#[trigger] ls[k]).order_count == count_at(s, ls[k].price)
                && ls[k].quantity == quantity_at(s, ls[k].price) by {
                if k < n - 1 {
                    assert(ls[k] == prev[k]);
                    assert(better_price(side, prev[k].price, prev[n - 1].price));
                }
            }
        } else {
            if n > 0 {
                lemma_levels_last(p);
                assert(p.last() == s[s.len() - 2]);
                assert(precedes(side, s[s.len() - 2], s[s.len() - 1]));
                lemma_precedes_price(side, p.last(), o);
            }
            assert forall|i: int| 0 <= i < p.len() implies (#[trigger] p[i]).price != o.price by {
                lemma_levels_last(p);
                if i < p.len() - 1 {
                    assert(precedes(side, s[i], s[p.len() - 1]));
                    assert(p[i] == s[i] && p.last() == s[p.len() - 1]);
                    lemma_precedes_price(side, p[i], p.last());
                }
            }
            lemma_nothing_at(p, o.price);
            assert forall|k: int| 0 <= k < ls.len() implies (#[trigger] ls[k]).order_count == count_at(s, ls[k].price)
                && ls[k].quantity == quantity_at(s, ls[k].price) by {
                if k < n {
                    assert(ls[k] == prev[k]);
                    lemma_levels_last(p);
                    if k < n - 1 {
                        assert(better_price(side, prev[k].price, prev[n - 1].price));
                    }
                }
            }
        }
    }
}

/// Price levels are runs of one price: along a side in priority order, each
/// level's price is strictly better than the next level's, so every price
/// appears in exactly one level; a level holds exactly the orders at its price,
/// as many as its count and with its quantity as their total; each level holds
/// at least one order, and the levels hold all the side's orders and quantity.
pub proof fn law_levels_are_price_runs(side: Side, s: Seq<BookOrder>)
    requires
        sorted_for(side, s),
        s.len() <= usize::MAX,
    ensures
        forall|k: int, j: int|
            0 <= k < j < levels(s).len() ==> better_price(side, (#[trigger] levels(s)[k]).price, (#[trigger] levels(s)[j]).price),
        forall|k: int| 0 <= k < levels(s).len() ==> (#[trigger] levels(s)[k]).order_count >= 1,
        level_count(levels(s)) == s.len(),
        level_quantity(levels(s)) == open_quantity_back(s),
        forall|k: int|
            0 <= k < levels(s).len() ==> (#[trigger] levels(s)[k]).order_count == count_at(s, levels(s)[k].price)
                && levels(s)[k].quantity == quantity_at(s, levels(s)[k].price),
    decreases s.len(), 1int,
{
    lemma_levels_totals(s);
    lemma_levels_count_orders(side, s);
    if s.len() > 0 {
        let p = s.drop_last();
        assert(sorted_for(side, p)) by {
            assert forall|i: int, j: int| 0 <= i < j < p.len() implies precedes(side, #[trigger] p[i], #[trigger] p[j]) by {
                assert(p[i] == s[i] && p[j] == s[j]);
            }
        }
        law_levels_are_price_runs(side, p);
        let prev = levels(p);
        let o = s.last();
        let ls = levels(s);
        if prev.len() > 0 && prev.last().price == o.price {
            assert forall|k: int, j: int| 0 <= k < j < ls.len() implies better_price(side, (#[trigger] ls[k]).price, (#[trigger] ls[j]).price) by {
                assert(ls[k].price == prev[k].price && ls[j].price == prev[j].price);
            }
        } else {
            if prev.len() > 0 {
                lemma_levels_last(p);
                assert(precedes(side, s[s.len() - 2], s[s.len() - 1]));
                assert(p.last() == s[s.len() - 2]);
            }
            assert forall|k: int, j: int| 0 <= k < j < ls.len() implies better_price(side, (#[trigger] ls[k]).price, (#[trigger] ls[j]).price) by {
                assert(ls[k] == prev[k]);
                if j < prev.len() {
                    assert(ls[j] == prev[j]);
                } else if k < prev.len() - 1 {
                    assert(better_price(side, prev[k].price, prev[prev.len() - 1].price));
                }
            }
        }
    }
}

/// Every order of `s` is matched strictly before every later one on `side`.
pub open spec fn strictly_sorted(side: Side, s: Seq<BookOrder>) -> bool {
    forall|i: int, j: int| 0 <= i < j < s.len() ==> strictly_precedes(side, #[trigger] s[i], #[trigger] s[j])
}

/// Placing an order with a new id by priority keeps a side strictly sorted.
proof fn lemma_insert_keeps_strict(side: Side, s: Seq<BookOrder>, pos: int, o: BookOrder)
    requires
        strictly_sorted(side, s),
        0 <= pos <= s.len(),
        forall|i: int| 0 <= i < pos ==> strictly_precedes(side, #[trigger] s[i], o),
        forall|i: int| pos <= i < s.len() ==> !strictly_precedes(side, #[trigger] s[i], o),
        forall|i: int| 0 <= i < s.len() ==> (#[trigger] s[i]).id != o.id,
    ensures
        strictly_sorted(side, s.insert(pos, o)),
{
    let s2 = s.insert(pos, o);
    assert forall|i: int| pos <= i < s.len() implies strictly_precedes(side, o, #[trigger] s[i]) by {
        assert(!strictly_precedes(side, s[i], o));
        assert(s[i].id != o.id);
    }
    assert forall|i: int, j: int| 0 <= i < j < s2.len() implies strictly_precedes(side, #[trigger] s2[i], #[trigger] s2[j]) by {
        if j < pos {
            assert(s2[i] == s[i] && s2[j] == s[j]);
        } else if j == pos {
            assert(s2[i] == s[i]);
        } else if i < pos {
            assert(s2[i] == s[i] && s2[j] == s[j - 1]);
            assert(strictly_precedes(side, s[i], o));
            assert(strictly_precedes(side, o, s[j - 1]));
        } else if i == pos {
            assert(s2[j] == s[j - 1]);
        } else {
            assert(s2[i] == s[i - 1] && s2[j] == s[j - 1]);
        }
    }
}

/// Strict price-time priority is kept on each side: when each side of a book is
/// strictly sorted and an incoming order's id is new on its own side, after the
/// order traded and its remainder rested each side is still strictly sorted,
/// and every resting order still has a positive quantity on its own side.
pub proof fn law_order_keeps_sides_strict(b0: BookState, b1: BookState, order: BookOrder, last_id: u64)
    requires
        b0.ok(),
        strictly_sorted(Side::Buy, b0.bids),
        strictly_sorted(Side::Sell, b0.asks),
        !holds_id(b0.side_orders(order.side), order.id),
        book_after_order(b0, b1, order, last_id),
        last_id + b0.makers_for(order.side).len() <= u64::MAX,
    ensures
        strictly_sorted(Side::Buy, b1.bids),
        strictly_sorted(Side::Sell, b1.asks),
        resting_on(Side::Buy, b1.bids),
        resting_on(Side::Sell, b1.asks),
{
    let side = order.side;
    let makers = b0.makers_for(side);
    let own = b0.side_orders(side);
    lemma_makers_in_order(b0, side);
    lemma_fill(order, order.quantity, makers, last_id, b0.symbol);
    lemma_fill_keeps_side(order, order.quantity, makers, last_id, b0.symbol);
    let (ts, rest, q) = fill(order, order.quantity, makers, last_id, b0.symbol);
    let off = makers.len() - rest.len();
    let own1 = b1.side_orders(side);
    assert(strictly_sorted(opposite(side), makers));
    assert(strictly_sorted(side, own));
    assert(resting_on(side, own));
    assert(strictly_sorted(opposite(side), rest)) by {
        assert forall|i: int, j: int| 0 <= i < j < rest.len() implies strictly_precedes(
            opposite(side),
            #[trigger] rest[i],
            #[trigger] rest[j],
        ) by {
            assert(rest[j] == makers[off + j]);
            assert(strictly_precedes(opposite(side), makers[off + i], makers[off + j]));
            if i > 0 {
                assert(rest[i] == makers[off + i]);
            }
        }
    }
    if q > 0 {
        let o = with_quantity(order, q);
        let pos = choose|pos: int|
            0 <= pos <= own.len() && own1 == own.insert(pos, o) && (forall|i: int|
                0 <= i < pos ==> strictly_precedes(side, #[trigger] own[i], o)) && (forall|i: int|
                pos <= i < own.len() ==> !strictly_precedes(side, #[trigger] own[i], o));
        assert forall|i: int| 0 <= i < own.len() implies (#[trigger] own[i]).id != o.id by {
            assert(own[i].id != order.id);
        }
        lemma_insert_keeps_strict(side, own, pos, o);
        assert(resting_on(side, own1)) by {
            assert forall|i: int| 0 <= i < own1.len() implies (#[trigger] own1[i]).quantity > 0 && own1[i].side == side by {
                if i < pos {
                    assert(own1[i] == own[i]);
                } else if i > pos {
                    assert(own1[i] == own[i - 1]);
                }
            }
        }
    }
}

/// The other side after an incoming order: the i-th trade fills the i-th
/// resting order; every resting order ahead of what remains was filled whole
/// and is gone; what remains is the untouched rest of that side, except that
/// its first order may have lost exactly what it traded. The order's own side is
/// unchanged, or holds its unfilled remainder at its priority place; the symbol
/// is unchanged.
pub proof fn law_other_side_after_order(b0: BookState, b1: BookState, order: BookOrder, last_id: u64)
    requires
        b0.ok(),
        book_after_order(b0, b1, order, last_id),
        last_id + b0.makers_for(order.side).len() <= u64::MAX,
    ensures
        ({
            let makers = b0.makers_for(order.side);
            let ts = order_trades(b0, order, last_id);
            let rest = b1.makers_for(order.side);
            let off = makers.len() - rest.len();
            let q = order.quantity - traded_quantity(ts);
            &&& b1.symbol == b0.symbol
            &&& rest.len() <= makers.len()
            &&& ts.len() == off || ts.len() == off + 1
            &&& forall|i: int| 0 <= i < ts.len() ==> (#[trigger] ts[i]).maker_order_id == makers[i].id
            &&& forall|i: int| 0 <= i < off ==> (#[trigger] ts[i]).quantity == makers[i].quantity
            &&& forall|i: int| 1 <= i < rest.len() ==> #[trigger] rest[i] == makers[off + i]
            &&& ts.len() == off && rest.len() > 0 ==> rest[0] == makers[off]
            &&& ts.len() == off + 1 ==> rest.len() > 0 && rest[0] == with_quantity(
                makers[off],
                (makers[off].quantity - ts[off].quantity) as u64,
            )
            &&& q == 0 ==> b1.side_orders(order.side) == b0.side_orders(order.side)
            &&& q > 0 ==> placed_by_priority(
                order.side,
                b0.side_orders(order.side),
                with_quantity(order, q as u64),
                b1.side_orders(order.side),
            )
        }),
{
    lemma_makers_in_order(b0, order.side);
    lemma_fill(order, order.quantity, b0.makers_for(order.side), last_id, b0.symbol);
}

/// An order that crosses nothing trades nothing: when the best order of the
/// other side does not cross it (or there is none), the other side is
/// unchanged and the whole order rests on its own side at its priority place.
pub proof fn law_non_crossing_order_rests(b0: BookState, b1: BookState, order: BookOrder, last_id: u64)
    requires
        b0.ok(),
        book_after_order(b0, b1, order, last_id),
        last_id + b0.makers_for(order.side).len() <= u64::MAX,
        order.quantity > 0,
        b0.makers_for(order.side).len() == 0 || !crosses(order, b0.makers_for(order.side)[0]),
    ensures
        order_trades(b0, order, last_id).len() == 0,
        b1.makers_for(order.side) == b0.makers_for(order.side),
        placed_by_priority(order.side, b0.side_orders(order.side), order, b1.side_orders(order.side)),
{
    assert(with_quantity(order, order.quantity) == order);
}

/// A snapshot agrees with itself and with the book: its bid total is the sum
/// of its bid levels' quantities and of the resting bids' quantities, and
/// likewise for asks; its best bid and best ask are the prices of the first
/// resting bid and ask; its spread is present exactly when both best prices
/// are, and is then the best ask minus the best bid.
pub proof fn law_snapshot_is_consistent(v: OrderBookView, b: BookState)
    requires
        describes(v, b),
        b.ok(),
        b.bids.len() <= usize::MAX,
        b.asks.len() <= usize::MAX,
    ensures
        v.total_bids_quantity == level_quantity(v.bids@),
        v.total_bids_quantity == open_quantity_back(b.bids),
        v.total_asks_quantity == level_quantity(v.asks@),
        v.total_asks_quantity == open_quantity_back(b.asks),
        v.best_bid is Some <==> b.bids.len() > 0,
        v.best_bid is Some ==> v.best_bid->0 == b.bids[0].price,
        v.best_ask is Some <==> b.asks.len() > 0,
        v.best_ask is Some ==> v.best_ask->0 == b.asks[0].price,
        v.spread is Some <==> v.best_bid is Some && v.best_ask is Some,
        v.spread is Some ==> v.spread->0 == v.best_ask->0 - v.best_bid->0,
{
    lemma_level_quantity_total(b.bids);
    lemma_level_quantity_total(b.asks);
}

/// The levels of a side hold its whole quantity.
proof fn lemma_level_quantity_total(s: Seq<BookOrder>)
    requires
        s.len() <= usize::MAX,
    ensures
        level_quantity(levels(s)) == open_quantity_back(s),
{
    lemma_levels_totals(s);
}

} // verus!
