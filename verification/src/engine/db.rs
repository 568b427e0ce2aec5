use crate::engine::types::{AccountPortfolio, OrderBookView, PositionView, Trade};
use crate::feed::AccountId;
use crate::text::{lemma_str_lt_irreflexive, lemma_str_lt_total, lemma_str_lt_transitive, str_equal, str_less, str_lt};
use vstd::prelude::*;

verus! {

// ---------------------------------------------------------------------------
// Sorted keys
// ---------------------------------------------------------------------------

/// Every key is smaller than the keys after it.
pub open spec fn ascending(keys: Seq<int>) -> bool {
    forall|i: int, j: int| 0 <= i < j < keys.len() ==> #[trigger] keys[i] < #[trigger] keys[j]
}

/// Number of keys below `k`; in an ascending sequence, the position at which
/// `k` is found or would be inserted.
pub open spec fn count_below(keys: Seq<int>, k: int) -> int
    decreases keys.len(),
{
    if keys.len() == 0 {
        0
    } else {
        count_below(keys.drop_last(), k) + if keys.last() < k {
            1int
        } else {
            0int
        }
    }
}

/// In an ascending sequence the keys below `k` are exactly those before `count_below`.
pub proof fn lemma_count_below(keys: Seq<int>, k: int)
    requires
        ascending(keys),
    ensures
        0 <= count_below(keys, k) <= keys.len(),
        forall|i: int| 0 <= i < count_below(keys, k) ==> #[trigger] keys[i] < k,
        forall|i: int| count_below(keys, k) <= i < keys.len() ==> #[trigger] keys[i] >= k,
    decreases keys.len(),
{
    if keys.len() > 0 {
        let p = keys.drop_last();
        assert(ascending(p)) by {
            assert forall|i: int, j: int| 0 <= i < j < p.len() implies #[trigger] p[i] < #[trigger] p[j] by {
                assert(p[i] == keys[i] && p[j] == keys[j]);
            }
        }
        lemma_count_below(p, k);
        assert forall|i: int| 0 <= i < count_below(keys, k) implies #[trigger] keys[i] < k by {
            if i < keys.len() - 1 {
                assert(keys[i] == p[i]);
            }
        }
        assert forall|i: int| count_below(keys, k) <= i < keys.len() implies #[trigger] keys[i] >= k by {
            if i < keys.len() - 1 {
                assert(keys[i] == p[i]);
                if keys.last() < k {
                    assert(keys[i] < keys[keys.len() - 1]);
                }
            }
        }
    }
}

/// Inserting a key at its place keeps a sequence ascending.
proof fn lemma_insert_ascending(keys: Seq<int>, k: int)
    requires
        ascending(keys),
        forall|i: int| 0 <= i < keys.len() ==> #[trigger] keys[i] != k,
    ensures
        ascending(keys.insert(count_below(keys, k), k)),
{
    lemma_count_below(keys, k);
    let p = count_below(keys, k);
    let n = keys.insert(p, k);
    assert forall|i: int, j: int| 0 <= i < j < n.len() implies #[trigger] n[i] < #[trigger] n[j] by {
        if i < p {
            assert(n[i] == keys[i]);
        } else if i > p {
            assert(n[i] == keys[i - 1]);
        }
        if j < p {
            assert(n[j] == keys[j]);
        } else if j > p {
            assert(n[j] == keys[j - 1]);
            assert(keys[j - 1] != k);
        }
    }
}

// ---------------------------------------------------------------------------
// Tables
// ---------------------------------------------------------------------------

/// A row of the cash balances: hundredths of the quote token, signed.
#[derive(Debug, Clone, Copy, PartialEq, Eq, Structural)]
pub struct Balance {
    pub account_id: AccountId,
    pub cash: i128,
}

/// A row of the positions: tenths of the symbol's base token, signed.
#[derive(Debug)]
pub struct Position {
    pub account_id: AccountId,
    pub symbol: String,
    pub position: i128,
}

impl Clone for Position {
    fn clone(&self) -> (r: Self)
        ensures
            r == *self,
    {
        Position { account_id: self.account_id, symbol: self.symbol.clone(), position: self.position }
    }
}

/// Errors of the ledger.
#[derive(Debug, Clone, Copy, PartialEq, Eq, Structural)]
pub enum DbError {
    /// A balance or position would leave the range of `i128`; nothing was changed.
    Overflow,
}

/// The ids of the trade rows.
pub open spec fn trade_keys(ts: Seq<Trade>) -> Seq<int> {
    Seq::new(ts.len(), |i: int| ts[i].id as int)
}

/// The accounts of the balance rows.
pub open spec fn balance_keys(bs: Seq<Balance>) -> Seq<int> {
    Seq::new(bs.len(), |i: int| bs[i].account_id as int)
}

/// `x` is within the range of `i128`.
pub open spec fn fits_i128(x: int) -> bool {
    i128::MIN <= x <= i128::MAX
}

/// The trade rows after recording `t`: it is added in id order, unless a row
/// with its id is there already.
pub open spec fn trades_with(ts: Seq<Trade>, t: Trade) -> Seq<Trade> {
    let p = count_below(trade_keys(ts), t.id as int);
    if p < ts.len() && ts[p].id == t.id {
        ts
    } else {
        ts.insert(p, t)
    }
}

/// The trade rows after recording each of `new` in turn.
pub open spec fn trades_after(ts: Seq<Trade>, new: Seq<Trade>) -> Seq<Trade>
    decreases new.len(),
{
    if new.len() == 0 {
        ts
    } else {
        trades_with(trades_after(ts, new.drop_last()), new.last())
    }
}

/// The balance rows after adding `delta` to the cash of `account`: the row is
/// updated, or created holding `delta`; `None` if the cash leaves `i128`.
pub open spec fn cash_with(bs: Seq<Balance>, account: AccountId, delta: int) -> Option<Seq<Balance>> {
    let p = count_below(balance_keys(bs), account as int);
    if p < bs.len() && bs[p].account_id == account {
        let c = bs[p].cash + delta;
        if fits_i128(c) {
            Some(bs.update(p, Balance { account_id: account, cash: c as i128 }))
        } else {
            None
        }
    } else if fits_i128(delta) {
        Some(bs.insert(p, Balance { account_id: account, cash: delta as i128 }))
    } else {
        None
    }
}

/// Position rows are ordered by account, then by symbol.
pub open spec fn position_key_lt(a: AccountId, s: Seq<char>, b: AccountId, t: Seq<char>) -> bool {
    a < b || (a == b && str_lt(s, t))
}

/// The order of position keys is transitive.
pub proof fn lemma_key_lt_transitive(a: AccountId, s: Seq<char>, b: AccountId, t: Seq<char>, c: AccountId, u: Seq<char>)
    requires
        position_key_lt(a, s, b, t),
        position_key_lt(b, t, c, u),
    ensures
        position_key_lt(a, s, c, u),
{
    if a == b && b == c {
        lemma_str_lt_transitive(s, t, u);
    }
}

/// No position key is below itself.
pub proof fn lemma_key_lt_irreflexive(a: AccountId, s: Seq<char>)
    ensures
        !position_key_lt(a, s, a, s),
{
    lemma_str_lt_irreflexive(s);
}

/// The position rows are in strictly ascending key order.
pub open spec fn positions_ascending(ps: Seq<Position>) -> bool {
    forall|i: int, j: int|
        0 <= i < j < ps.len() ==> position_key_lt(
            (#[trigger] ps[i]).account_id,
            ps[i].symbol@,
            (#[trigger] ps[j]).account_id,
            ps[j].symbol@,
        )
}

/// Number of position rows whose key is below (`account`, `symbol`).
pub open spec fn positions_below(ps: Seq<Position>, account: AccountId, symbol: Seq<char>) -> int
    decreases ps.len(),
{
    if ps.len() == 0 {
        0
    } else {
        positions_below(ps.drop_last(), account, symbol) + if position_key_lt(
            ps.last().account_id,
            ps.last().symbol@,
            account,
            symbol,
        ) {
            1int
        } else {
            0int
        }
    }
}

/// The position rows after adding `delta` to the position of `account` in
/// `symbol`: the row is updated, or created holding `delta`; `None` if the
/// position leaves `i128`.
pub open spec fn position_with(ps: Seq<Position>, account: AccountId, symbol: String, delta: int) -> Option<Seq<Position>> {
    let p = positions_below(ps, account, symbol@);
    if p < ps.len() && ps[p].account_id == account && ps[p].symbol@ == symbol@ {
        let c = ps[p].position + delta;
        if fits_i128(c) {
            Some(ps.update(p, Position { position: c as i128, ..ps[p] }))
        } else {
            None
        }
    } else if fits_i128(delta) {
        Some(ps.insert(p, Position { account_id: account, symbol, position: delta as i128 }))
    } else {
        None
    }
}

/// Balances and positions after settling trade `t`: the buyer pays its value
/// and gains its quantity, the seller receives the value and gives the quantity.
pub open spec fn settle(bs: Seq<Balance>, ps: Seq<Position>, t: Trade) -> Option<(Seq<Balance>, Seq<Position>)> {
    match cash_with(bs, t.buy_account, -t.value) {
        None => None,
        Some(b1) => match position_with(ps, t.buy_account, t.symbol, t.quantity as int) {
            None => None,
            Some(p1) => match cash_with(b1, t.sell_account, t.value as int) {
                None => None,
                Some(b2) => match position_with(p1, t.sell_account, t.symbol, -t.quantity) {
                    None => None,
                    Some(p2) => Some((b2, p2)),
                },
            },
        },
    }
}

/// Balances and positions after settling each of `ts` in turn; `None` if any
/// step leaves the range of `i128`.
pub open spec fn settle_all(bs: Seq<Balance>, ps: Seq<Position>, ts: Seq<Trade>) -> Option<(Seq<Balance>, Seq<Position>)>
    decreases ts.len(),
{
    if ts.len() == 0 {
        Some((bs, ps))
    } else {
        match settle_all(bs, ps, ts.drop_last()) {
            None => None,
            Some(st) => settle(st.0, st.1, ts.last()),
        }
    }
}


// ---------------------------------------------------------------------------
// Invariant of the tables
// ---------------------------------------------------------------------------

/// Some balance row belongs to `account`.
pub open spec fn has_balance(bs: Seq<Balance>, account: AccountId) -> bool {
    exists|i: int| 0 <= i < bs.len() && (#[trigger] bs[i]).account_id == account
}

/// Every account that holds a position or took part in a trade has a balance row.
pub open spec fn accounts_covered(bs: Seq<Balance>, ps: Seq<Position>, ts: Seq<Trade>) -> bool {
    &&& forall|i: int| 0 <= i < ps.len() ==> has_balance(bs, (#[trigger] ps[i]).account_id)
    &&& forall|i: int|
        0 <= i < ts.len() ==> has_balance(bs, (#[trigger] ts[i]).buy_account) && has_balance(
            bs,
            ts[i].sell_account,
        )
}

/// Rows of a position key below (`account`, `symbol`) are exactly those before `positions_below`.
pub proof fn lemma_positions_below(ps: Seq<Position>, account: AccountId, symbol: Seq<char>)
    requires
        positions_ascending(ps),
    ensures
        0 <= positions_below(ps, account, symbol) <= ps.len(),
        forall|i: int|
            0 <= i < positions_below(ps, account, symbol) ==> position_key_lt(
                (#[trigger] ps[i]).account_id,
                ps[i].symbol@,
                account,
                symbol,
            ),
        forall|i: int|
            positions_below(ps, account, symbol) <= i < ps.len() ==> !position_key_lt(
                (#[trigger] ps[i]).account_id,
                ps[i].symbol@,
                account,
                symbol,
            ),
    decreases ps.len(),
{
    if ps.len() > 0 {
        let p = ps.drop_last();
        assert(positions_ascending(p)) by {
            assert forall|i: int, j: int| 0 <= i < j < p.len() implies position_key_lt(
                (#[trigger] p[i]).account_id,
                p[i].symbol@,
                (#[trigger] p[j]).account_id,
                p[j].symbol@,
            ) by {
                assert(p[i] == ps[i] && p[j] == ps[j]);
            }
        }
        lemma_positions_below(p, account, symbol);
        let n = positions_below(ps, account, symbol);
        assert forall|i: int| 0 <= i < n implies position_key_lt(
            (#[trigger] ps[i]).account_id,
            ps[i].symbol@,
            account,
            symbol,
        ) by {
            let l = ps.last();
            if i < ps.len() - 1 {
                assert(ps[i] == p[i]);
                if i >= positions_below(p, account, symbol) {
                    assert(position_key_lt(ps[i].account_id, ps[i].symbol@, l.account_id, l.symbol@));
                    lemma_key_lt_transitive(ps[i].account_id, ps[i].symbol@, l.account_id, l.symbol@, account, symbol);
                }
            }
        }
        assert forall|i: int| n <= i < ps.len() implies !position_key_lt(
            (#[trigger] ps[i]).account_id,
            ps[i].symbol@,
            account,
            symbol,
        ) by {
            if i < ps.len() - 1 {
                assert(ps[i] == p[i]);
                let l = ps.last();
                if position_key_lt(l.account_id, l.symbol@, account, symbol) {
                    assert(position_key_lt(ps[i].account_id, ps[i].symbol@, l.account_id, l.symbol@));
                    lemma_key_lt_transitive(ps[i].account_id, ps[i].symbol@, l.account_id, l.symbol@, account, symbol);
                }
            } else {
                let l = ps.last();
                let k = positions_below(p, account, symbol);
                if position_key_lt(l.account_id, l.symbol@, account, symbol) {
                    assert(k < p.len());
                    assert(p[k] == ps[k]);
                    assert(position_key_lt(ps[k].account_id, ps[k].symbol@, l.account_id, l.symbol@));
                    lemma_key_lt_transitive(ps[k].account_id, ps[k].symbol@, l.account_id, l.symbol@, account, symbol);
                }
            }
        }
    }
}

/// `cash_with` keeps the balances ascending, keeps every account, and adds `account`.
proof fn lemma_cash_with(bs: Seq<Balance>, account: AccountId, delta: int)
    requires
        ascending(balance_keys(bs)),
        cash_with(bs, account, delta) is Some,
    ensures
        ({
            let b2 = cash_with(bs, account, delta).unwrap();
            &&& ascending(balance_keys(b2))
            &&& has_balance(b2, account)
            &&& forall|a: AccountId| has_balance(bs, a) ==> has_balance(b2, a)
            &&& forall|a: AccountId| has_balance(b2, a) ==> has_balance(bs, a) || a == account
        }),
{
    let keys = balance_keys(bs);
    lemma_count_below(keys, account as int);
    let p = count_below(keys, account as int);
    let b2 = cash_with(bs, account, delta).unwrap();
    if p < bs.len() && bs[p].account_id == account {
        assert(balance_keys(b2) =~= keys);
        assert(b2[p].account_id == account);
        assert forall|a: AccountId| has_balance(bs, a) implies has_balance(b2, a) by {
            let i = choose|i: int| 0 <= i < bs.len() && (#[trigger] bs[i]).account_id == a;
            assert(b2[i].account_id == a);
        }
        assert forall|a: AccountId| has_balance(b2, a) implies has_balance(bs, a) || a == account by {
            let i = choose|i: int| 0 <= i < b2.len() && (#[trigger] b2[i]).account_id == a;
            assert(bs[i].account_id == a);
        }
    } else {
        assert forall|i: int| 0 <= i < keys.len() implies #[trigger] keys[i] != account as int by {
            if i > p {
                assert(keys[p] < keys[i]);
            }
        }
        lemma_insert_ascending(keys, account as int);
        assert(balance_keys(b2) =~= keys.insert(p, account as int));
        assert(b2[p].account_id == account);
        assert forall|a: AccountId| has_balance(bs, a) implies has_balance(b2, a) by {
            let i = choose|i: int| 0 <= i < bs.len() && (#[trigger] bs[i]).account_id == a;
            if i < p {
                assert(b2[i].account_id == a);
            } else {
                assert(b2[i + 1].account_id == a);
            }
        }
        assert forall|a: AccountId| has_balance(b2, a) implies has_balance(bs, a) || a == account by {
            let i = choose|i: int| 0 <= i < b2.len() && (#[trigger] b2[i]).account_id == a;
            if i < p {
                assert(bs[i].account_id == a);
            } else if i > p {
                assert(bs[i - 1].account_id == a);
            }
        }
    }
}

/// `position_with` keeps the positions ascending, and adds rows only for `account`.
proof fn lemma_position_with(ps: Seq<Position>, account: AccountId, symbol: String, delta: int)
    requires
        positions_ascending(ps),
        position_with(ps, account, symbol, delta) is Some,
    ensures
        ({
            let p2 = position_with(ps, account, symbol, delta).unwrap();
            &&& positions_ascending(p2)
            &&& forall|i: int|
                0 <= i < p2.len() ==> (#[trigger] p2[i]).account_id == account || exists|j: int|
                    0 <= j < ps.len() && ps[j].account_id == p2[i].account_id
        }),
{
    lemma_positions_below(ps, account, symbol@);
    let p = positions_below(ps, account, symbol@);
    let p2 = position_with(ps, account, symbol, delta).unwrap();
    if p < ps.len() && ps[p].account_id == account && ps[p].symbol@ == symbol@ {
        assert forall|i: int, j: int| 0 <= i < j < p2.len() implies position_key_lt(
            (#[trigger] p2[i]).account_id,
            p2[i].symbol@,
            (#[trigger] p2[j]).account_id,
            p2[j].symbol@,
        ) by {
            assert(position_key_lt(ps[i].account_id, ps[i].symbol@, ps[j].account_id, ps[j].symbol@));
        }
        assert forall|i: int| 0 <= i < p2.len() implies (#[trigger] p2[i]).account_id == account
            || exists|j: int| 0 <= j < ps.len() && ps[j].account_id == p2[i].account_id by {
            assert(ps[i].account_id == p2[i].account_id);
        }
    } else {
        let o = Position { account_id: account, symbol, position: delta as i128 };
        assert forall|i: int| 0 <= i < ps.len() implies #[trigger] ps[i].account_id != account
            || ps[i].symbol@ != symbol@ by {
            if ps[i].account_id == account && ps[i].symbol@ == symbol@ {
                if i > p {
                    assert(position_key_lt(ps[p].account_id, ps[p].symbol@, ps[i].account_id, ps[i].symbol@));
                } else if i < p {
                    lemma_key_lt_irreflexive(account, symbol@);
                }
            }
        }
        assert forall|i: int, j: int| 0 <= i < j < p2.len() implies position_key_lt(
            (#[trigger] p2[i]).account_id,
            p2[i].symbol@,
            (#[trigger] p2[j]).account_id,
            p2[j].symbol@,
        ) by {
            if j < p {
                assert(p2[i] == ps[i] && p2[j] == ps[j]);
            } else if j == p {
                assert(p2[i] == ps[i] && p2[j] == o);
            } else if i < p {
                assert(p2[i] == ps[i] && p2[j] == ps[j - 1]);
                assert(position_key_lt(ps[i].account_id, ps[i].symbol@, account, symbol@));
                assert(!position_key_lt(ps[j - 1].account_id, ps[j - 1].symbol@, account, symbol@));
                if ps[j - 1].account_id == account {
                    lemma_str_lt_total(ps[j - 1].symbol@, symbol@);
                    if ps[i].account_id == account {
                        lemma_str_lt_transitive(ps[i].symbol@, symbol@, ps[j - 1].symbol@);
                    }
                }
            } else if i == p {
                assert(p2[i] == o && p2[j] == ps[j - 1]);
                assert(!position_key_lt(ps[j - 1].account_id, ps[j - 1].symbol@, account, symbol@));
                if ps[j - 1].account_id == account {
                    lemma_str_lt_total(ps[j - 1].symbol@, symbol@);
                }
            } else {
                assert(p2[i] == ps[i - 1] && p2[j] == ps[j - 1]);
            }
        }
        assert forall|i: int| 0 <= i < p2.len() implies (#[trigger] p2[i]).account_id == account
            || exists|j: int| 0 <= j < ps.len() && ps[j].account_id == p2[i].account_id by {
            if i < p {
                assert(ps[i].account_id == p2[i].account_id);
            } else if i > p {
                assert(ps[i - 1].account_id == p2[i].account_id);
            }
        }
    }
}


/// Settling a trade keeps the tables ordered and covered, keeps every account,
/// and gives both parties a balance row.
proof fn lemma_settle(bs: Seq<Balance>, ps: Seq<Position>, t: Trade)
    requires
        ascending(balance_keys(bs)),
        positions_ascending(ps),
        forall|i: int| 0 <= i < ps.len() ==> has_balance(bs, (#[trigger] ps[i]).account_id),
        settle(bs, ps, t) is Some,
    ensures
        ({
            let (b2, p2) = settle(bs, ps, t).unwrap();
            &&& ascending(balance_keys(b2))
            &&& positions_ascending(p2)
            &&& forall|i: int| 0 <= i < p2.len() ==> has_balance(b2, (#[trigger] p2[i]).account_id)
            &&& has_balance(b2, t.buy_account)
            &&& has_balance(b2, t.sell_account)
            &&& forall|a: AccountId| has_balance(bs, a) ==> has_balance(b2, a)
        }),
{
    let b1 = cash_with(bs, t.buy_account, -t.value).unwrap();
    lemma_cash_with(bs, t.buy_account, -t.value);
    let p1 = position_with(ps, t.buy_account, t.symbol, t.quantity as int).unwrap();
    lemma_position_with(ps, t.buy_account, t.symbol, t.quantity as int);
    let b2 = cash_with(b1, t.sell_account, t.value as int).unwrap();
    lemma_cash_with(b1, t.sell_account, t.value as int);
    let p2 = position_with(p1, t.sell_account, t.symbol, -t.quantity).unwrap();
    lemma_position_with(p1, t.sell_account, t.symbol, -t.quantity);
    assert forall|i: int| 0 <= i < p1.len() implies has_balance(b1, (#[trigger] p1[i]).account_id) by {
        if p1[i].account_id != t.buy_account {
            let j = choose|j: int| 0 <= j < ps.len() && ps[j].account_id == p1[i].account_id;
            assert(has_balance(bs, ps[j].account_id));
        }
    }
    assert forall|i: int| 0 <= i < p2.len() implies has_balance(b2, (#[trigger] p2[i]).account_id) by {
        if p2[i].account_id != t.sell_account {
            let j = choose|j: int| 0 <= j < p1.len() && p1[j].account_id == p2[i].account_id;
            assert(has_balance(b1, p1[j].account_id));
        }
    }
}

/// Settling a sequence of trades keeps the tables ordered and covered, keeps
/// every account, and gives every party of every trade a balance row.
proof fn lemma_settle_all(bs: Seq<Balance>, ps: Seq<Position>, ts: Seq<Trade>)
    requires
        ascending(balance_keys(bs)),
        positions_ascending(ps),
        forall|i: int| 0 <= i < ps.len() ==> has_balance(bs, (#[trigger] ps[i]).account_id),
        settle_all(bs, ps, ts) is Some,
    ensures
        ({
            let (b2, p2) = settle_all(bs, ps, ts).unwrap();
            &&& ascending(balance_keys(b2))
            &&& positions_ascending(p2)
            &&& forall|i: int| 0 <= i < p2.len() ==> has_balance(b2, (#[trigger] p2[i]).account_id)
            &&& forall|i: int|
                0 <= i < ts.len() ==> has_balance(b2, (#[trigger] ts[i]).buy_account) && has_balance(
                    b2,
                    ts[i].sell_account,
                )
            &&& forall|a: AccountId| has_balance(bs, a) ==> has_balance(b2, a)
        }),
    decreases ts.len(),
{
    if ts.len() > 0 {
        let init = ts.drop_last();
        lemma_settle_all(bs, ps, init);
        let st = settle_all(bs, ps, init).unwrap();
        lemma_settle(st.0, st.1, ts.last());
        let b2 = settle_all(bs, ps, ts).unwrap().0;
        assert forall|i: int| 0 <= i < ts.len() implies has_balance(b2, (#[trigger] ts[i]).buy_account)
            && has_balance(b2, ts[i].sell_account) by {
            if i < ts.len() - 1 {
                assert(ts[i] == init[i]);
            }
        }
    }
}

/// Once a prefix of the trades cannot be settled, neither can all of them.
proof fn lemma_settle_all_stuck(bs: Seq<Balance>, ps: Seq<Position>, ts: Seq<Trade>, k: int)
    requires
        0 <= k <= ts.len(),
        settle_all(bs, ps, ts.take(k)) is None,
    ensures
        settle_all(bs, ps, ts) is None,
    decreases ts.len(),
{
    if k == ts.len() {
        assert(ts.take(k) == ts);
    } else {
        assert(ts.drop_last().take(k) == ts.take(k));
        lemma_settle_all_stuck(bs, ps, ts.drop_last(), k);
    }
}

/// Recording trades keeps the trade rows in ascending id order, and every row
/// afterwards was there before or is one of the recorded trades.
proof fn lemma_trades_after(ts: Seq<Trade>, new: Seq<Trade>)
    requires
        ascending(trade_keys(ts)),
    ensures
        ascending(trade_keys(trades_after(ts, new))),
        forall|i: int|
            0 <= i < trades_after(ts, new).len() ==> ts.contains(#[trigger] trades_after(ts, new)[i])
                || new.contains(trades_after(ts, new)[i]),
    decreases new.len(),
{
    if new.len() > 0 {
        let init = new.drop_last();
        lemma_trades_after(ts, init);
        let mid = trades_after(ts, init);
        let t = new.last();
        let keys = trade_keys(mid);
        lemma_count_below(keys, t.id as int);
        let p = count_below(keys, t.id as int);
        let out = trades_after(ts, new);
        assert forall|x: Trade| init.contains(x) implies new.contains(x) by {
            let j = choose|j: int| 0 <= j < init.len() && init[j] == x;
            assert(new[j] == init[j]);
        }
        if p < mid.len() && mid[p].id == t.id {
            assert(out == mid);
        } else {
            assert forall|i: int| 0 <= i < keys.len() implies #[trigger] keys[i] != t.id as int by {
                if i > p {
                    assert(keys[p] < keys[i]);
                }
            }
            lemma_insert_ascending(keys, t.id as int);
            assert(trade_keys(out) =~= keys.insert(p, t.id as int));
            assert forall|i: int| 0 <= i < out.len() implies ts.contains(#[trigger] out[i])
                || new.contains(out[i]) by {
                if i < p {
                    assert(out[i] == mid[i]);
                } else if i > p {
                    assert(out[i] == mid[i - 1]);
                } else {
                    assert(new[new.len() - 1] == out[i]);
                }
            }
        }
    } else {
        assert forall|i: int| 0 <= i < ts.len() implies ts.contains(#[trigger] trades_after(ts, new)[i])
            || new.contains(trades_after(ts, new)[i]) by {
            assert(ts[i] == trades_after(ts, new)[i]);
        }
    }
}

// ---------------------------------------------------------------------------
// Searching the tables
// ---------------------------------------------------------------------------

/// Where a trade with id `id` is, or would go.
fn trade_slot(ts: &Vec<Trade>, id: u64) -> (p: usize)
    requires
        ascending(trade_keys(ts@)),
    ensures
        p == count_below(trade_keys(ts@), id as int),
        p <= ts@.len(),
{
    let ghost keys = trade_keys(ts@);
    proof {
        lemma_count_below(keys, id as int);
    }
    let mut lo: usize = 0;
    let mut hi: usize = ts.len();
    while lo < hi
        invariant
            lo <= hi <= ts@.len(),
            keys == trade_keys(ts@),
            ascending(keys),
            forall|i: int| 0 <= i < lo ==> #[trigger] keys[i] < id,
            forall|i: int| hi <= i < ts@.len() ==> #[trigger] keys[i] >= id,
        decreases hi - lo,
    {
        let mid = lo + (hi - lo) / 2;
        if ts[mid].id < id {
            assert forall|i: int| 0 <= i < mid + 1 implies #[trigger] keys[i] < id by {
                if i < mid {
                    assert(keys[i] < keys[mid as int]);
                }
            }
            lo = mid + 1;
        } else {
            assert forall|i: int| mid <= i < ts@.len() implies #[trigger] keys[i] >= id by {
                if i > mid {
                    assert(keys[mid as int] < keys[i]);
                }
            }
            hi = mid;
        }
    }
    let ghost c = count_below(keys, id as int);
    assert(lo == c) by {
        if lo < c {
            assert(keys[lo as int] < id);
        } else if lo > c {
            assert(keys[c] < id);
        }
    }
    lo
}

/// Where the balance row of `account` is, or would go.
fn balance_slot(bs: &Vec<Balance>, account: AccountId) -> (p: usize)
    requires
        ascending(balance_keys(bs@)),
    ensures
        p == count_below(balance_keys(bs@), account as int),
        p <= bs@.len(),
{
    let ghost keys = balance_keys(bs@);
    proof {
        lemma_count_below(keys, account as int);
    }
    let mut lo: usize = 0;
    let mut hi: usize = bs.len();
    while lo < hi
        invariant
            lo <= hi <= bs@.len(),
            keys == balance_keys(bs@),
            ascending(keys),
            forall|i: int| 0 <= i < lo ==> #[trigger] keys[i] < account,
            forall|i: int| hi <= i < bs@.len() ==> #[trigger] keys[i] >= account,
        decreases hi - lo,
    {
        let mid = lo + (hi - lo) / 2;
        if bs[mid].account_id < account {
            assert forall|i: int| 0 <= i < mid + 1 implies #[trigger] keys[i] < account by {
                if i < mid {
                    assert(keys[i] < keys[mid as int]);
                }
            }
            lo = mid + 1;
        } else {
            assert forall|i: int| mid <= i < bs@.len() implies #[trigger] keys[i] >= account by {
                if i > mid {
                    assert(keys[mid as int] < keys[i]);
                }
            }
            hi = mid;
        }
    }
    let ghost c = count_below(keys, account as int);
    assert(lo == c) by {
        if lo < c {
            assert(keys[lo as int] < account);
        } else if lo > c {
            assert(keys[c] < account);
        }
    }
    lo
}

/// Decides `position_key_lt` for a row and a key.
fn position_key_less(row: &Position, account: AccountId, symbol: &String) -> (r: bool)
    ensures
        r == position_key_lt(row.account_id, row.symbol@, account, symbol@),
{
    row.account_id < account || (row.account_id == account && str_less(row.symbol.as_str(), symbol.as_str()))
}

/// Where the position row of (`account`, `symbol`) is, or would go.
fn position_slot(ps: &Vec<Position>, account: AccountId, symbol: &String) -> (p: usize)
    requires
        positions_ascending(ps@),
    ensures
        p == positions_below(ps@, account, symbol@),
        p <= ps@.len(),
{
    proof {
        lemma_positions_below(ps@, account, symbol@);
    }
    let mut lo: usize = 0;
    let mut hi: usize = ps.len();
    while lo < hi
        invariant
            lo <= hi <= ps@.len(),
            positions_ascending(ps@),
            forall|i: int|
                0 <= i < lo ==> position_key_lt(
                    (#[trigger] ps@[i]).account_id,
                    ps@[i].symbol@,
                    account,
                    symbol@,
                ),
            forall|i: int|
                hi <= i < ps@.len() ==> !position_key_lt(
                    (#[trigger] ps@[i]).account_id,
                    ps@[i].symbol@,
                    account,
                    symbol@,
                ),
        decreases hi - lo,
    {
        let mid = lo + (hi - lo) / 2;
        if position_key_less(&ps[mid], account, symbol) {
            assert forall|i: int| 0 <= i < mid + 1 implies position_key_lt(
                (#[trigger] ps@[i]).account_id,
                ps@[i].symbol@,
                account,
                symbol@,
            ) by {
                if i < mid {
                    lemma_key_lt_transitive(
                        ps@[i].account_id,
                        ps@[i].symbol@,
                        ps@[mid as int].account_id,
                        ps@[mid as int].symbol@,
                        account,
                        symbol@,
                    );
                }
            }
            lo = mid + 1;
        } else {
            assert forall|i: int| mid <= i < ps@.len() implies !position_key_lt(
                (#[trigger] ps@[i]).account_id,
                ps@[i].symbol@,
                account,
                symbol@,
            ) by {
                if i > mid && position_key_lt(ps@[i].account_id, ps@[i].symbol@, account, symbol@) {
                    lemma_key_lt_transitive(
                        ps@[mid as int].account_id,
                        ps@[mid as int].symbol@,
                        ps@[i].account_id,
                        ps@[i].symbol@,
                        account,
                        symbol@,
                    );
                }
            }
            hi = mid;
        }
    }
    let ghost c = positions_below(ps@, account, symbol@);
    assert(lo == c) by {
        if lo < c {
            assert(position_key_lt(ps@[lo as int].account_id, ps@[lo as int].symbol@, account, symbol@));
        } else if lo > c {
            assert(position_key_lt(ps@[c].account_id, ps@[c].symbol@, account, symbol@));
        }
    }
    lo
}

// ---------------------------------------------------------------------------
// Signed arithmetic
// ---------------------------------------------------------------------------

/// `x + amount`, or `x - amount` when `negative`, if it fits in `i128`.
fn offset_i128(x: i128, amount: u128, negative: bool) -> (r: Option<i128>)
    ensures
        ({
            let exact = if negative {
                x - amount
            } else {
                x + amount
            };
            match r {
                Some(v) => v == exact,
                None => !fits_i128(exact),
            }
        }),
{
    if amount <= 0x7fff_ffff_ffff_ffff_ffff_ffff_ffff_ffffu128 {
        let a = amount as i128;
        if negative {
            x.checked_sub(a)
        } else {
            x.checked_add(a)
        }
    } else {
        let d: i128 = (amount - 0x8000_0000_0000_0000_0000_0000_0000_0000u128) as i128;
        if negative {
            if x >= d {
                Some((x - d) + i128::MIN)
            } else {
                None
            }
        } else {
            if x < -d {
                Some((x + d) - i128::MIN)
            } else {
                None
            }
        }
    }
}

/// Applies `cash_with` in place, unless the cash would leave `i128`.
fn add_cash(bs: &mut Vec<Balance>, account: AccountId, amount: u128, negative: bool) -> (ok: bool)
    requires
        ascending(balance_keys(old(bs)@)),
    ensures
        ({
            let delta = if negative {
                -amount
            } else {
                amount as int
            };
            &&& ok == cash_with(old(bs)@, account, delta) is Some
            &&& ok ==> final(bs)@ == cash_with(old(bs)@, account, delta).unwrap()
            &&& !ok ==> final(bs)@ == old(bs)@
        }),
{
    let p = balance_slot(bs, account);
    if p < bs.len() && bs[p].account_id == account {
        match offset_i128(bs[p].cash, amount, negative) {
            Some(c) => {
                bs.set(p, Balance { account_id: account, cash: c });
                true
            },
            None => false,
        }
    } else {
        match offset_i128(0, amount, negative) {
            Some(c) => {
                bs.insert(p, Balance { account_id: account, cash: c });
                true
            },
            None => false,
        }
    }
}

/// Applies `position_with` in place, unless the position would leave `i128`.
fn add_position(ps: &mut Vec<Position>, account: AccountId, symbol: &String, quantity: u64, negative: bool) -> (ok: bool)
    requires
        positions_ascending(old(ps)@),
    ensures
        ({
            let delta = if negative {
                -quantity
            } else {
                quantity as int
            };
            &&& ok == position_with(old(ps)@, account, *symbol, delta) is Some
            &&& ok ==> final(ps)@ == position_with(old(ps)@, account, *symbol, delta).unwrap()
            &&& !ok ==> final(ps)@ == old(ps)@
        }),
{
    let p = position_slot(ps, account, symbol);
    if p < ps.len() && ps[p].account_id == account && str_equal(ps[p].symbol.as_str(), symbol.as_str()) {
        match offset_i128(ps[p].position, quantity as u128, negative) {
            Some(c) => {
                let mut row = ps[p].clone();
                row.position = c;
                ps.set(p, row);
                true
            },
            None => false,
        }
    } else {
        match offset_i128(0, quantity as u128, negative) {
            Some(c) => {
                ps.insert(p, Position { account_id: account, symbol: symbol.clone(), position: c });
                true
            },
            None => false,
        }
    }
}


// ---------------------------------------------------------------------------
// Queries
// ---------------------------------------------------------------------------

/// The symbol filter of a query, as characters.
pub open spec fn symbol_filter(symbol: Option<&str>) -> Option<Seq<char>> {
    match symbol {
        Some(s) => Some(s@),
        None => None,
    }
}

/// Trade `t` passes the filters: its symbol equals `symbol`, and `account` is
/// its buyer or its seller (an absent filter passes every trade).
pub open spec fn selects(t: Trade, symbol: Option<Seq<char>>, account: Option<AccountId>) -> bool {
    &&& match symbol {
        Some(s) => t.symbol@ == s,
        None => true,
    }
    &&& match account {
        Some(a) => t.buy_account == a || t.sell_account == a,
        None => true,
    }
}

/// The trades of `ts` that pass the filters, last first.
pub open spec fn newest_first(ts: Seq<Trade>, symbol: Option<Seq<char>>, account: Option<AccountId>) -> Seq<Trade>
    decreases ts.len(),
{
    if ts.len() == 0 {
        Seq::empty()
    } else {
        let rest = newest_first(ts.drop_last(), symbol, account);
        if selects(ts.last(), symbol, account) {
            seq![ts.last()] + rest
        } else {
            rest
        }
    }
}

/// At most `limit` elements of `s` from the front (all of them without a limit).
pub open spec fn limited<A>(s: Seq<A>, limit: Option<usize>) -> Seq<A> {
    match limit {
        Some(n) => if n < s.len() {
            s.take(n as int)
        } else {
            s
        },
        None => s,
    }
}

/// The cash of `account`: its balance row, or zero when it has none.
pub open spec fn cash_of(bs: Seq<Balance>, account: AccountId) -> int {
    let p = count_below(balance_keys(bs), account as int);
    if p < bs.len() && bs[p].account_id == account {
        bs[p].cash as int
    } else {
        0
    }
}

/// The position rows of `account`, in table order (by symbol).
pub open spec fn positions_of(ps: Seq<Position>, account: AccountId) -> Seq<PositionView>
    decreases ps.len(),
{
    if ps.len() == 0 {
        Seq::empty()
    } else {
        let rest = positions_of(ps.drop_last(), account);
        if ps.last().account_id == account {
            rest.push(PositionView { symbol: ps.last().symbol, position: ps.last().position })
        } else {
            rest
        }
    }
}

/// Number of trades in which `account` is the buyer or the seller.
pub open spec fn trade_count(ts: Seq<Trade>, account: AccountId) -> int
    decreases ts.len(),
{
    if ts.len() == 0 {
        0
    } else {
        trade_count(ts.drop_last(), account) + if ts.last().buy_account == account
            || ts.last().sell_account == account {
            1int
        } else {
            0int
        }
    }
}

/// The snapshot stored for `symbol`, if any.
pub open spec fn snapshot_for(rows: Seq<OrderBookView>, symbol: Seq<char>) -> Option<OrderBookView> {
    if exists|i: int| 0 <= i < rows.len() && (#[trigger] rows[i]).symbol@ == symbol {
        Some(rows[choose|i: int| 0 <= i < rows.len() && (#[trigger] rows[i]).symbol@ == symbol])
    } else {
        None
    }
}

/// No two snapshots are of the same symbol.
pub open spec fn symbols_unique(rows: Seq<OrderBookView>) -> bool {
    forall|i: int, j: int|
        0 <= i < j < rows.len() ==> (#[trigger] rows[i]).symbol@ != (#[trigger] rows[j]).symbol@
}

// ---------------------------------------------------------------------------
// Conservation
// ---------------------------------------------------------------------------

/// Total cash over all balance rows.
pub open spec fn total_cash(bs: Seq<Balance>) -> int
    decreases bs.len(),
{
    if bs.len() == 0 {
        0
    } else {
        total_cash(bs.drop_last()) + bs.last().cash
    }
}

/// Total position in `symbol` over all position rows.
pub open spec fn total_position(ps: Seq<Position>, symbol: Seq<char>) -> int
    decreases ps.len(),
{
    if ps.len() == 0 {
        0
    } else {
        total_position(ps.drop_last(), symbol) + if ps.last().symbol@ == symbol {
            ps.last().position as int
        } else {
            0
        }
    }
}

proof fn lemma_total_cash_update(bs: Seq<Balance>, p: int, row: Balance)
    requires
        0 <= p < bs.len(),
    ensures
        total_cash(bs.update(p, row)) == total_cash(bs) - bs[p].cash + row.cash,
    decreases bs.len(),
{
    let u = bs.update(p, row);
    if p == bs.len() - 1 {
        assert(u.drop_last() == bs.drop_last());
    } else {
        lemma_total_cash_update(bs.drop_last(), p, row);
        assert(u.drop_last() == bs.drop_last().update(p, row));
    }
}

proof fn lemma_total_cash_insert(bs: Seq<Balance>, p: int, row: Balance)
    requires
        0 <= p <= bs.len(),
    ensures
        total_cash(bs.insert(p, row)) == total_cash(bs) + row.cash,
    decreases bs.len(),
{
    let u = bs.insert(p, row);
    if p == bs.len() {
        assert(u.drop_last() == bs);
    } else {
        lemma_total_cash_insert(bs.drop_last(), p, row);
        assert(u.drop_last() == bs.drop_last().insert(p, row));
    }
}

proof fn lemma_total_position_update(ps: Seq<Position>, p: int, row: Position, symbol: Seq<char>)
    requires
        0 <= p < ps.len(),
        row.symbol@ == ps[p].symbol@,
    ensures
        total_position(ps.update(p, row), symbol) == total_position(ps, symbol) + if row.symbol@
            == symbol {
            row.position - ps[p].position
        } else {
            0
        },
    decreases ps.len(),
{
    let u = ps.update(p, row);
    if p == ps.len() - 1 {
        assert(u.drop_last() == ps.drop_last());
    } else {
        lemma_total_position_update(ps.drop_last(), p, row, symbol);
        assert(u.drop_last() == ps.drop_last().update(p, row));
    }
}

proof fn lemma_total_position_insert(ps: Seq<Position>, p: int, row: Position, symbol: Seq<char>)
    requires
        0 <= p <= ps.len(),
    ensures
        total_position(ps.insert(p, row), symbol) == total_position(ps, symbol) + if row.symbol@
            == symbol {
            row.position as int
        } else {
            0
        },
    decreases ps.len(),
{
    let u = ps.insert(p, row);
    if p == ps.len() {
        assert(u.drop_last() == ps);
    } else {
        lemma_total_position_insert(ps.drop_last(), p, row, symbol);
        assert(u.drop_last() == ps.drop_last().insert(p, row));
    }
}

proof fn lemma_cash_with_total(bs: Seq<Balance>, account: AccountId, delta: int)
    requires
        ascending(balance_keys(bs)),
        cash_with(bs, account, delta) is Some,
    ensures
        total_cash(cash_with(bs, account, delta).unwrap()) == total_cash(bs) + delta,
{
    let keys = balance_keys(bs);
    lemma_count_below(keys, account as int);
    let p = count_below(keys, account as int);
    if p < bs.len() && bs[p].account_id == account {
        lemma_total_cash_update(bs, p, Balance { account_id: account, cash: (bs[p].cash + delta) as i128 });
    } else {
        lemma_total_cash_insert(bs, p, Balance { account_id: account, cash: delta as i128 });
    }
}

proof fn lemma_position_with_total(ps: Seq<Position>, account: AccountId, symbol: String, delta: int, s: Seq<char>)
    requires
        positions_ascending(ps),
        position_with(ps, account, symbol, delta) is Some,
    ensures
        total_position(position_with(ps, account, symbol, delta).unwrap(), s) == total_position(ps, s)
            + if symbol@ == s {
            delta
        } else {
            0
        },
{
    lemma_positions_below(ps, account, symbol@);
    let p = positions_below(ps, account, symbol@);
    if p < ps.len() && ps[p].account_id == account && ps[p].symbol@ == symbol@ {
        lemma_total_position_update(ps, p, Position { position: (ps[p].position + delta) as i128, ..ps[p] }, s);
    } else {
        lemma_total_position_insert(ps, p, Position { account_id: account, symbol, position: delta as i128 }, s);
    }
}

/// Settlement is zero-sum: settling trades leaves the total cash over all
/// accounts, and the total position in every symbol, unchanged; what a buyer
/// pays the seller receives, and what the seller gives the buyer gains.
pub proof fn law_settlement_is_zero_sum(bs: Seq<Balance>, ps: Seq<Position>, ts: Seq<Trade>, symbol: Seq<char>)
    requires
        ascending(balance_keys(bs)),
        positions_ascending(ps),
        forall|i: int| 0 <= i < ps.len() ==> has_balance(bs, (#[trigger] ps[i]).account_id),
        settle_all(bs, ps, ts) is Some,
    ensures
        total_cash(settle_all(bs, ps, ts).unwrap().0) == total_cash(bs),
        total_position(settle_all(bs, ps, ts).unwrap().1, symbol) == total_position(ps, symbol),
    decreases ts.len(),
{
    if ts.len() > 0 {
        let init = ts.drop_last();
        law_settlement_is_zero_sum(bs, ps, init, symbol);
        lemma_settle_all(bs, ps, init);
        let (b0, p0) = settle_all(bs, ps, init).unwrap();
        let t = ts.last();
        lemma_cash_with(b0, t.buy_account, -t.value);
        lemma_cash_with_total(b0, t.buy_account, -t.value);
        let b1 = cash_with(b0, t.buy_account, -t.value).unwrap();
        lemma_cash_with_total(b1, t.sell_account, t.value as int);
        lemma_position_with(p0, t.buy_account, t.symbol, t.quantity as int);
        lemma_position_with_total(p0, t.buy_account, t.symbol, t.quantity as int, symbol);
        let p1 = position_with(p0, t.buy_account, t.symbol, t.quantity as int).unwrap();
        lemma_position_with_total(p1, t.sell_account, t.symbol, -t.quantity, symbol);
    }
}

/// Read newest first, trades in ascending id order come in strictly
/// descending id order, and each of them is a row of the table.
pub proof fn lemma_newest_first_descending(ts: Seq<Trade>, symbol: Option<Seq<char>>, account: Option<AccountId>)
    requires
        ascending(trade_keys(ts)),
    ensures
        forall|i: int, j: int|
            0 <= i < j < newest_first(ts, symbol, account).len() ==> (#[trigger] newest_first(ts, symbol, account)[i]).id
                > (#[trigger] newest_first(ts, symbol, account)[j]).id,
        forall|i: int|
            0 <= i < newest_first(ts, symbol, account).len() ==> exists|k: int|
                0 <= k < ts.len() && #[trigger] newest_first(ts, symbol, account)[i] == ts[k],
    decreases ts.len(),
{
    if ts.len() > 0 {
        let p = ts.drop_last();
        assert(ascending(trade_keys(p))) by {
            assert forall|i: int, j: int| 0 <= i < j < trade_keys(p).len() implies #[trigger] trade_keys(p)[i]
                < #[trigger] trade_keys(p)[j] by {
                assert(trade_keys(p)[i] == trade_keys(ts)[i] && trade_keys(p)[j] == trade_keys(ts)[j]);
            }
        }
        lemma_newest_first_descending(p, symbol, account);
        let rest = newest_first(p, symbol, account);
        let nf = newest_first(ts, symbol, account);
        if selects(ts.last(), symbol, account) {
            assert(nf == seq![ts.last()] + rest);
            assert forall|i: int| 0 <= i < nf.len() implies exists|k: int| 0 <= k < ts.len() && #[trigger] nf[i] == ts[k] by {
                if i == 0 {
                    assert(nf[0] == ts[ts.len() - 1]);
                } else {
                    assert(nf[i] == rest[i - 1]);
                    let k = choose|k: int| 0 <= k < p.len() && rest[i - 1] == p[k];
                    assert(p[k] == ts[k]);
                }
            }
            assert forall|i: int, j: int| 0 <= i < j < nf.len() implies (#[trigger] nf[i]).id > (#[trigger] nf[j]).id by {
                assert(nf[j] == rest[j - 1]);
                if i == 0 {
                    let k = choose|k: int| 0 <= k < p.len() && rest[j - 1] == p[k];
                    assert(p[k] == ts[k]);
                    assert(trade_keys(ts)[k] < trade_keys(ts)[ts.len() - 1]);
                } else {
                    assert(nf[i] == rest[i - 1]);
                }
            }
        } else {
            assert forall|i: int| 0 <= i < nf.len() implies exists|k: int| 0 <= k < ts.len() && #[trigger] nf[i] == ts[k] by {
                let k = choose|k: int| 0 <= k < p.len() && rest[i] == p[k];
                assert(p[k] == ts[k]);
            }
        }
    }
}

/// The positions of one account read from rows that all sort below the key
/// (`b`, `t`) themselves sort below it.
proof fn lemma_positions_of_below(ps: Seq<Position>, account: AccountId, b: AccountId, t: Seq<char>)
    requires
        forall|k: int| 0 <= k < ps.len() ==> position_key_lt((#[trigger] ps[k]).account_id, ps[k].symbol@, b, t),
    ensures
        forall|i: int|
            0 <= i < positions_of(ps, account).len() ==> position_key_lt(
                account,
                (#[trigger] positions_of(ps, account)[i]).symbol@,
                b,
                t,
            ),
    decreases ps.len(),
{
    if ps.len() > 0 {
        let p = ps.drop_last();
        assert forall|k: int| 0 <= k < p.len() implies position_key_lt((#[trigger] p[k]).account_id, p[k].symbol@, b, t) by {
            assert(p[k] == ps[k]);
        }
        lemma_positions_of_below(p, account, b, t);
        let rest = positions_of(p, account);
        let po = positions_of(ps, account);
        assert forall|i: int| 0 <= i < po.len() implies position_key_lt(account, (#[trigger] po[i]).symbol@, b, t) by {
            if i < rest.len() {
                assert(po[i] == rest[i]);
            } else {
                assert(ps[ps.len() - 1].account_id == account);
            }
        }
    }
}

/// The positions of one account, read in table order, come in strictly
/// ascending symbol order.
pub proof fn lemma_positions_of_ascending(ps: Seq<Position>, account: AccountId)
    requires
        positions_ascending(ps),
    ensures
        forall|i: int, j: int|
            0 <= i < j < positions_of(ps, account).len() ==> str_lt(
                (#[trigger] positions_of(ps, account)[i]).symbol@,
                (#[trigger] positions_of(ps, account)[j]).symbol@,
            ),
    decreases ps.len(),
{
    if ps.len() > 0 {
        let p = ps.drop_last();
        let last = ps[ps.len() - 1];
        assert(positions_ascending(p)) by {
            assert forall|i: int, j: int| 0 <= i < j < p.len() implies position_key_lt(
                (#[trigger] p[i]).account_id,
                p[i].symbol@,
                (#[trigger] p[j]).account_id,
                p[j].symbol@,
            ) by {
                assert(p[i] == ps[i] && p[j] == ps[j]);
            }
        }
        lemma_positions_of_ascending(p, account);
        assert forall|k: int| 0 <= k < p.len() implies position_key_lt(
            (#[trigger] p[k]).account_id,
            p[k].symbol@,
            last.account_id,
            last.symbol@,
        ) by {
            assert(p[k] == ps[k]);
        }
        lemma_positions_of_below(p, account, last.account_id, last.symbol@);
        let rest = positions_of(p, account);
        let po = positions_of(ps, account);
        if last.account_id == account {
            assert forall|i: int, j: int| 0 <= i < j < po.len() implies str_lt(
                (#[trigger] po[i]).symbol@,
                (#[trigger] po[j]).symbol@,
            ) by {
                assert(po[i] == rest[i]);
                if j < rest.len() {
                    assert(po[j] == rest[j]);
                } else {
                    assert(position_key_lt(account, rest[i].symbol@, last.account_id, last.symbol@));
                }
            }
        }
    }
}

/// `v` has a portfolio of `account`.
pub open spec fn lists_account(v: Seq<AccountPortfolio>, account: AccountId) -> bool {
    exists|i: int| 0 <= i < v.len() && (#[trigger] v[i]).account_id == account
}

/// Reading newest first keeps exactly the rows that pass the filters.
proof fn lemma_newest_first_members(ts: Seq<Trade>, symbol: Option<Seq<char>>, account: Option<AccountId>)
    ensures
        newest_first(ts, symbol, account).len() <= ts.len(),
        forall|i: int|
            0 <= i < newest_first(ts, symbol, account).len() ==> selects(
                #[trigger] newest_first(ts, symbol, account)[i],
                symbol,
                account,
            ) && ts.contains(newest_first(ts, symbol, account)[i]),
        forall|k: int|
            0 <= k < ts.len() && selects(#[trigger] ts[k], symbol, account) ==> newest_first(ts, symbol, account).contains(
                ts[k],
            ),
    decreases ts.len(),
{
    if ts.len() > 0 {
        let p = ts.drop_last();
        lemma_newest_first_members(p, symbol, account);
        let rest = newest_first(p, symbol, account);
        let nf = newest_first(ts, symbol, account);
        let t = ts.last();
        if selects(t, symbol, account) {
            assert(nf == seq![t] + rest);
            assert forall|i: int| 0 <= i < nf.len() implies selects(#[trigger] nf[i], symbol, account) && ts.contains(nf[i]) by {
                if i == 0 {
                    assert(ts[ts.len() - 1] == t);
                } else {
                    assert(nf[i] == rest[i - 1]);
                    assert(p.contains(rest[i - 1]));
                    let m = choose|m: int| 0 <= m < p.len() && p[m] == rest[i - 1];
                    assert(ts[m] == p[m]);
                }
            }
            assert forall|k: int| 0 <= k < ts.len() && selects(#[trigger] ts[k], symbol, account) implies nf.contains(ts[k]) by {
                if k == ts.len() - 1 {
                    assert(nf[0] == ts[k]);
                } else {
                    assert(ts[k] == p[k]);
                    assert(rest.contains(p[k]));
                    let m = choose|m: int| 0 <= m < rest.len() && rest[m] == p[k];
                    assert(nf[m + 1] == rest[m]);
                }
            }
        } else {
            assert forall|i: int| 0 <= i < nf.len() implies selects(#[trigger] nf[i], symbol, account) && ts.contains(nf[i]) by {
                assert(p.contains(rest[i]));
                let m = choose|m: int| 0 <= m < p.len() && p[m] == rest[i];
                assert(ts[m] == p[m]);
            }
            assert forall|k: int| 0 <= k < ts.len() && selects(#[trigger] ts[k], symbol, account) implies nf.contains(ts[k]) by {
                assert(k != ts.len() - 1);
                assert(ts[k] == p[k]);
            }
        }
    }
}

/// Filtering trades: reading the rows newest first with a symbol and an
/// account gives only trades of that symbol (when one is asked for) in which
/// that account bought or sold (when one is asked for), both filters holding
/// at once; each is a row, and every row passing both filters is given.
pub proof fn law_trade_filters(ts: Seq<Trade>, symbol: Option<Seq<char>>, account: Option<AccountId>)
    ensures
        newest_first(ts, symbol, account).len() <= ts.len(),
        forall|i: int|
            0 <= i < newest_first(ts, symbol, account).len() ==> {
                let t = #[trigger] newest_first(ts, symbol, account)[i];
                &&& symbol is Some ==> t.symbol@ == symbol->0
                &&& account is Some ==> t.buy_account == account->0 || t.sell_account == account->0
                &&& ts.contains(t)
            },
        forall|k: int|
            0 <= k < ts.len() && (symbol is Some ==> (#[trigger] ts[k]).symbol@ == symbol->0) && (account is Some
                ==> ts[k].buy_account == account->0 || ts[k].sell_account == account->0) ==> newest_first(
                ts,
                symbol,
                account,
            ).contains(ts[k]),
{
    lemma_newest_first_members(ts, symbol, account);
}

/// Both filters together select exactly the trades that each filter alone
/// selects: a trade is read with symbol `s` and account `a` exactly when it is
/// read with `s` alone and with `a` alone.
pub proof fn law_both_filters_intersect(ts: Seq<Trade>, s: Seq<char>, a: AccountId, t: Trade)
    ensures
        newest_first(ts, Some(s), Some(a)).contains(t) <==> newest_first(ts, Some(s), None).contains(t)
            && newest_first(ts, None, Some(a)).contains(t),
{
    law_trade_filters(ts, Some(s), Some(a));
    law_trade_filters(ts, Some(s), None);
    law_trade_filters(ts, None, Some(a));
    let both = newest_first(ts, Some(s), Some(a));
    let by_sym = newest_first(ts, Some(s), None);
    let by_acc = newest_first(ts, None, Some(a));
    if both.contains(t) {
        let i = choose|i: int| 0 <= i < both.len() && both[i] == t;
        assert(ts.contains(both[i]));
        let k = choose|k: int| 0 <= k < ts.len() && ts[k] == t;
        assert(by_sym.contains(ts[k]));
        assert(by_acc.contains(ts[k]));
    }
    if by_sym.contains(t) && by_acc.contains(t) {
        let i = choose|i: int| 0 <= i < by_sym.len() && by_sym[i] == t;
        let j = choose|j: int| 0 <= j < by_acc.len() && by_acc[j] == t;
        assert(ts.contains(by_sym[i]));
        assert(by_acc[j].buy_account == a || by_acc[j].sell_account == a);
        let k = choose|k: int| 0 <= k < ts.len() && ts[k] == t;
        assert(both.contains(ts[k]));
    }
}

/// Without filters, reading newest first is reading the rows backwards.
pub proof fn lemma_newest_first_unfiltered(ts: Seq<Trade>)
    ensures
        newest_first(ts, None, None) == ts.reverse(),
    decreases ts.len(),
{
    if ts.len() > 0 {
        lemma_newest_first_unfiltered(ts.drop_last());
        assert(seq![ts.last()] + ts.drop_last().reverse() =~= ts.reverse());
    }
}

/// The ledger's round trip: recording trades with distinct ids into an empty
/// trade table stores each of them once, and nothing else, in ascending id
/// order; read back without filters they come newest (highest id) first.
pub proof fn law_recorded_trades_read_back(ts: Seq<Trade>)
    requires
        forall|i: int, j: int| 0 <= i < j < ts.len() ==> (#[trigger] ts[i]).id != (#[trigger] ts[j]).id,
    ensures
        trades_after(Seq::empty(), ts).len() == ts.len(),
        forall|j: int| 0 <= j < ts.len() ==> trades_after(Seq::empty(), ts).contains(#[trigger] ts[j]),
        forall|i: int|
            0 <= i < ts.len() ==> ts.contains(#[trigger] trades_after(Seq::<Trade>::empty(), ts)[i]),
        ascending(trade_keys(trades_after(Seq::empty(), ts))),
        newest_first(trades_after(Seq::empty(), ts), None, None) == trades_after(Seq::empty(), ts).reverse(),
        forall|i: int, j: int|
            0 <= i < j < ts.len() ==> (#[trigger] newest_first(trades_after(Seq::empty(), ts), None, None)[i]).id
                > (#[trigger] newest_first(trades_after(Seq::empty(), ts), None, None)[j]).id,
    decreases ts.len(),
{
    let rows = trades_after(Seq::empty(), ts);
    if ts.len() == 0 {
        assert(trade_keys(rows) =~= Seq::<int>::empty());
    } else {
        let p = ts.drop_last();
        let t = ts.last();
        assert forall|i: int, j: int| 0 <= i < j < p.len() implies (#[trigger] p[i]).id != (#[trigger] p[j]).id by {
            assert(p[i] == ts[i] && p[j] == ts[j]);
        }
        law_recorded_trades_read_back(p);
        let r0 = trades_after(Seq::empty(), p);
        let keys = trade_keys(r0);
        assert forall|i: int| 0 <= i < keys.len() implies #[trigger] keys[i] != t.id as int by {
            assert(p.contains(r0[i]));
            let m = choose|m: int| 0 <= m < p.len() && p[m] == r0[i];
            assert(ts[m] == p[m]);
            assert(ts[m].id != ts[ts.len() - 1].id);
        }
        lemma_count_below(keys, t.id as int);
        let pos = count_below(keys, t.id as int);
        assert(!(pos < r0.len() && r0[pos].id == t.id)) by {
            if pos < r0.len() {
                assert(keys[pos] == r0[pos].id);
            }
        }
        assert(rows == r0.insert(pos, t));
        lemma_insert_ascending(keys, t.id as int);
        assert(trade_keys(rows) =~= keys.insert(pos, t.id as int));
        assert forall|j: int| 0 <= j < ts.len() implies rows.contains(#[trigger] ts[j]) by {
            if j == ts.len() - 1 {
                assert(rows[pos] == t);
            } else {
                assert(ts[j] == p[j]);
                assert(r0.contains(p[j]));
                let m = choose|m: int| 0 <= m < r0.len() && r0[m] == p[j];
                if m < pos {
                    assert(rows[m] == r0[m]);
                } else {
                    assert(rows[m + 1] == r0[m]);
                }
            }
        }
        assert forall|i: int| 0 <= i < ts.len() implies ts.contains(#[trigger] rows[i]) by {
            if i == pos {
                assert(ts[ts.len() - 1] == t);
            } else {
                let i0 = if i < pos { i } else { i - 1 };
                assert(rows[i] == r0[i0]);
                assert(p.contains(r0[i0]));
                let m = choose|m: int| 0 <= m < p.len() && p[m] == r0[i0];
                assert(ts[m] == p[m]);
            }
        }
    }
    lemma_newest_first_unfiltered(rows);
    lemma_newest_first_descending(rows, None, None);
}

// ---------------------------------------------------------------------------
// The database
// ---------------------------------------------------------------------------

/// The ledger of the matching engine: executed trades, account cash balances,
/// account positions per symbol, and the latest book snapshot per symbol.
pub struct Database {
    trades: Vec<Trade>,
    balances: Vec<Balance>,
    positions: Vec<Position>,
    snapshots: Vec<OrderBookView>,
}

/// The portfolio `p` reports `account` as the tables hold it.
pub open spec fn reports(p: AccountPortfolio, bs: Seq<Balance>, ps: Seq<Position>, ts: Seq<Trade>, account: AccountId) -> bool {
    &&& p.account_id == account
    &&& p.cash == cash_of(bs, account)
    &&& p.positions@ == positions_of(ps, account)
    &&& p.trades_count == trade_count(ts, account)
}

impl Database {
    /// The trade rows, by ascending id.
    pub closed spec fn trade_rows(&self) -> Seq<Trade> {
        self.trades@
    }

    /// The balance rows, by ascending account.
    pub closed spec fn balance_rows(&self) -> Seq<Balance> {
        self.balances@
    }

    /// The position rows, by ascending account and then symbol.
    pub closed spec fn position_rows(&self) -> Seq<Position> {
        self.positions@
    }

    /// The stored book snapshots.
    pub closed spec fn snapshot_rows(&self) -> Seq<OrderBookView> {
        self.snapshots@
    }

    /// The tables' invariant: rows in key order with unique keys, every account
    /// with a position or a trade has a balance row, one snapshot per symbol,
    /// and the ledger is balanced: cash sums to zero over all accounts, and so
    /// does the position in every symbol.
    pub closed spec fn wf(&self) -> bool {
        &&& ascending(trade_keys(self.trades@))
        &&& ascending(balance_keys(self.balances@))
        &&& positions_ascending(self.positions@)
        &&& accounts_covered(self.balances@, self.positions@, self.trades@)
        &&& symbols_unique(self.snapshots@)
        &&& total_cash(self.balances@) == 0
        &&& forall|s: Seq<char>| #[trigger] total_position(self.positions@, s) == 0
    }

    /// The ledger is zero-sum: whatever trades were recorded, the cash of all
    /// accounts sums to zero, and so does every symbol's position over all
    /// accounts (each trade moves cash and quantity between its two parties).
    pub proof fn law_ledger_is_zero_sum(&self, symbol: Seq<char>)
        requires
            self.wf(),
        ensures
            total_cash(self.balance_rows()) == 0,
            total_position(self.position_rows(), symbol) == 0,
    {
    }

    /// Every party to a recorded trade has an account in the ledger, so the
    /// listing of all accounts includes it.
    pub proof fn law_every_trader_has_an_account(&self, i: int)
        requires
            self.wf(),
            0 <= i < self.trade_rows().len(),
        ensures
            has_balance(self.balance_rows(), self.trade_rows()[i].buy_account),
            has_balance(self.balance_rows(), self.trade_rows()[i].sell_account),
    {
    }

    /// The tables are kept in key order: trades by strictly ascending id,
    /// balances by strictly ascending account, positions by account and then
    /// symbol; and every account with a position or a trade has a balance row.
    pub proof fn lemma_rows_in_key_order(&self)
        requires
            self.wf(),
        ensures
            ascending(trade_keys(self.trade_rows())),
            ascending(balance_keys(self.balance_rows())),
            positions_ascending(self.position_rows()),
            accounts_covered(self.balance_rows(), self.position_rows(), self.trade_rows()),
    {
    }

    /// An empty ledger.
    pub fn new() -> (db: Self)
        ensures
            db.wf(),
            db.trade_rows() == Seq::<Trade>::empty(),
            db.balance_rows() == Seq::<Balance>::empty(),
            db.position_rows() == Seq::<Position>::empty(),
            db.snapshot_rows() == Seq::<OrderBookView>::empty(),
    {
        Database { trades: Vec::new(), balances: Vec::new(), positions: Vec::new(), snapshots: Vec::new() }
    }

    /// Records trades and settles them as one transaction: each trade is added
    /// unless its id is recorded already, and every trade (recorded before or
    /// not) moves its value from the buyer's cash to the seller's and its
    /// quantity from the seller's position to the buyer's. If any balance or
    /// position would leave `i128`, nothing changes and `Overflow` is returned.
    pub fn record_trades(&mut self, trades: &[Trade]) -> (r: Result<(), DbError>)
        requires
            old(self).wf(),
        ensures
            final(self).wf(),
            final(self).snapshot_rows() == old(self).snapshot_rows(),
            total_cash(final(self).balance_rows()) == total_cash(old(self).balance_rows()),
            forall|s: Seq<char>|
                #[trigger] total_position(final(self).position_rows(), s) == total_position(
                    old(self).position_rows(),
                    s,
                ),
            match settle_all(old(self).balance_rows(), old(self).position_rows(), trades@) {
                Some(st) => {
                    &&& r == Ok::<(), DbError>(())
                    &&& final(self).balance_rows() == st.0
                    &&& final(self).position_rows() == st.1
                    &&& final(self).trade_rows() == trades_after(old(self).trade_rows(), trades@)
                },
                None => {
                    &&& r == Err::<(), DbError>(DbError::Overflow)
                    &&& final(self).balance_rows() == old(self).balance_rows()
                    &&& final(self).position_rows() == old(self).position_rows()
                    &&& final(self).trade_rows() == old(self).trade_rows()
                },
            },
    {
        if trades.len() == 0 {
            proof {
                assert(trades@ =~= Seq::<Trade>::empty());
            }
            return Ok(());
        }
        let ghost b0 = self.balances@;
        let ghost p0 = self.positions@;
        let mut bs = self.balances.clone();
        let mut ps = self.positions.clone();
        assert(bs@ == b0);
        assert(ps@ == p0);
        let mut i: usize = 0;
        while i < trades.len()
            invariant
                i <= trades@.len(),
                settle_all(b0, p0, trades@.take(i as int)) == Some((bs@, ps@)),
                ascending(balance_keys(b0)),
                positions_ascending(p0),
                forall|k: int| 0 <= k < p0.len() ==> has_balance(b0, (#[trigger] p0[k]).account_id),
                ascending(balance_keys(bs@)),
                positions_ascending(ps@),
                old(self).wf(),
                self.trades@ == old(self).trades@,
                self.balances@ == old(self).balances@,
                self.positions@ == old(self).positions@,
                self.snapshots@ == old(self).snapshots@,
                b0 == old(self).balances@,
                p0 == old(self).positions@,
            decreases trades@.len() - i,
        {
            let t = &trades[i];
            let ghost pre = trades@.take(i as int);
            let ghost cur = trades@.take(i as int + 1);
            assert(cur.drop_last() == pre);
            assert(cur.last() == *t);
            let ghost bs0 = bs@;
            let ghost ps0 = ps@;
            let mut ok = add_cash(&mut bs, t.buy_account, t.value, true);
            proof {
                if ok {
                    lemma_cash_with(bs0, t.buy_account, -t.value);
                }
            }
            let ghost bs1 = bs@;
            if ok {
                ok = add_position(&mut ps, t.buy_account, &t.symbol, t.quantity, false);
                proof {
                    if ok {
                        lemma_position_with(ps0, t.buy_account, t.symbol, t.quantity as int);
                    }
                }
            }
            let ghost ps1 = ps@;
            if ok {
                ok = add_cash(&mut bs, t.sell_account, t.value, false);
                proof {
                    if ok {
                        lemma_cash_with(bs1, t.sell_account, t.value as int);
                    }
                }
            }
            if ok {
                ok = add_position(&mut ps, t.sell_account, &t.symbol, t.quantity, true);
                proof {
                    if ok {
                        lemma_position_with(ps1, t.sell_account, t.symbol, -t.quantity);
                    }
                }
            }
            if !ok {
                proof {
                    assert(settle(bs0, ps0, *t) is None);
                    lemma_settle_all_stuck(b0, p0, trades@, i as int + 1);
                }
                return Err(DbError::Overflow);
            }
            proof {
                assert(settle(bs0, ps0, *t) == Some((bs@, ps@)));
            }
            i = i + 1;
        }
        proof {
            assert(trades@.take(trades@.len() as int) == trades@);
            lemma_settle_all(b0, p0, trades@);
            assert forall|s: Seq<char>| #[trigger] total_position(ps@, s) == total_position(p0, s) by {
                law_settlement_is_zero_sum(b0, p0, trades@, s);
            }
            law_settlement_is_zero_sum(b0, p0, trades@, Seq::empty());
        }
        let ghost t0 = self.trades@;
        let mut j: usize = 0;
        while j < trades.len()
            invariant
                j <= trades@.len(),
                self.trades@ == trades_after(t0, trades@.take(j as int)),
                ascending(trade_keys(t0)),
                ascending(trade_keys(self.trades@)),
                self.balances@ == b0,
                self.positions@ == p0,
                self.snapshots@ == old(self).snapshots@,
            decreases trades@.len() - j,
        {
            let t = &trades[j];
            let ghost cur = trades@.take(j as int + 1);
            assert(cur.drop_last() == trades@.take(j as int));
            assert(cur.last() == *t);
            let p = trade_slot(&self.trades, t.id);
            if p < self.trades.len() && self.trades[p].id == t.id {
            } else {
                self.trades.insert(p, t.clone());
            }
            proof {
                lemma_trades_after(t0, cur);
            }
            j = j + 1;
        }
        proof {
            assert(trades@.take(trades@.len() as int) == trades@);
            lemma_trades_after(t0, trades@);
        }
        self.balances = bs;
        self.positions = ps;
        proof {
            let tf = self.trades@;
            let bf = self.balances@;
            assert forall|k: int| 0 <= k < tf.len() implies has_balance(bf, (#[trigger] tf[k]).buy_account)
                && has_balance(bf, tf[k].sell_account) by {
                if t0.contains(tf[k]) {
                    let m = choose|m: int| 0 <= m < t0.len() && t0[m] == tf[k];
                    assert(has_balance(b0, t0[m].buy_account) && has_balance(b0, t0[m].sell_account));
                } else {
                    let m = choose|m: int| 0 <= m < trades@.len() && trades@[m] == tf[k];
                    assert(has_balance(bf, trades@[m].buy_account));
                }
            }
        }
        Ok(())
    }

    /// Trade history, most recent (highest id) first, optionally only trades of
    /// `symbol` (exact match) and only trades in which `account` bought or sold,
    /// at most `limit` of them.
    pub fn get_trades(&self, symbol: Option<&str>, account: Option<AccountId>, limit: Option<usize>) -> (r: Result<Vec<Trade>, DbError>)
        ensures
            r is Ok,
            r.unwrap()@ == limited(newest_first(self.trade_rows(), symbol_filter(symbol), account), limit),
            self.wf() ==> forall|i: int, j: int|
                0 <= i < j < r.unwrap()@.len() ==> (#[trigger] r.unwrap()@[i]).id > (#[trigger] r.unwrap()@[j]).id,
            forall|i: int|
                0 <= i < r.unwrap()@.len() ==> {
                    let t = #[trigger] r.unwrap()@[i];
                    &&& (match symbol {
                        Some(s) => t.symbol@ == s@,
                        None => true,
                    })
                    &&& (match account {
                        Some(a) => t.buy_account == a || t.sell_account == a,
                        None => true,
                    })
                    &&& self.trade_rows().contains(t)
                },
    {
        let ghost ts = self.trades@;
        let ghost sym = symbol_filter(symbol);
        let mut out: Vec<Trade> = Vec::new();
        let mut i: usize = self.trades.len();
        assert(ts.take(i as int) == ts);
        loop
            invariant
                i <= ts.len(),
                ts == self.trades@,
                sym == symbol_filter(symbol),
                newest_first(ts, sym, account) == out@ + newest_first(ts.take(i as int), sym, account),
                match limit {
                    Some(n) => out@.len() <= n,
                    None => true,
                },
            ensures
                newest_first(ts, sym, account) == out@ + newest_first(ts.take(i as int), sym, account),
                i == 0 || (limit is Some && out@.len() == limit.unwrap()),
                match limit {
                    Some(n) => out@.len() <= n,
                    None => true,
                },
            decreases i,
        {
            if i == 0 {
                break;
            }
            match limit {
                Some(n) => {
                    if out.len() >= n {
                        break;
                    }
                },
                None => {},
            }
            i = i - 1;
            let t = &self.trades[i];
            let sym_ok = match symbol {
                Some(s) => str_equal(t.symbol.as_str(), s),
                None => true,
            };
            let acc_ok = match account {
                Some(a) => t.buy_account == a || t.sell_account == a,
                None => true,
            };
            proof {
                let cur = ts.take(i as int + 1);
                assert(cur.drop_last() == ts.take(i as int));
                assert(cur.last() == *t);
            }
            if sym_ok && acc_ok {
                let ghost before = out@;
                out.push(t.clone());
                proof {
                    let rest = newest_first(ts.take(i as int), sym, account);
                    assert(before + (seq![*t] + rest) == out@ + rest);
                }
            }
        }
        proof {
            let all = newest_first(ts, sym, account);
            if i == 0 {
                assert(ts.take(0) =~= Seq::<Trade>::empty());
                assert(all == out@);
            } else {
                let n = limit.unwrap();
                assert(all.take(n as int) == out@);
            }
            law_trade_filters(ts, sym, account);
            assert forall|a: int| 0 <= a < out@.len() implies out@[a] == all[a] by {}
            if self.wf() {
                lemma_newest_first_descending(ts, sym, account);
                assert forall|a: int, b: int| 0 <= a < b < out@.len() implies (#[trigger] out@[a]).id
                    > (#[trigger] out@[b]).id by {
                    assert(out@[a] == all[a] && out@[b] == all[b]);
                }
            }
        }
        Ok(out)
    }

    /// The portfolio of `account`: its cash (zero without a balance row), its
    /// positions in symbol order, and the number of trades it took part in.
    pub fn get_account_portfolio(&self, account_id: AccountId) -> (r: Result<AccountPortfolio, DbError>)
        requires
            self.wf(),
        ensures
            r is Ok,
            reports(r.unwrap(), self.balance_rows(), self.position_rows(), self.trade_rows(), account_id),
            forall|i: int, j: int|
                0 <= i < j < r.unwrap().positions@.len() ==> str_lt(
                    (#[trigger] r.unwrap().positions@[i]).symbol@,
                    (#[trigger] r.unwrap().positions@[j]).symbol@,
                ),
    {
        proof {
            lemma_positions_of_ascending(self.positions@, account_id);
        }
        let p = balance_slot(&self.balances, account_id);
        let cash: i128 = if p < self.balances.len() && self.balances[p].account_id == account_id {
            self.balances[p].cash
        } else {
            0
        };
        let mut positions: Vec<PositionView> = Vec::new();
        let mut i: usize = 0;
        while i < self.positions.len()
            invariant
                i <= self.positions@.len(),
                positions@ == positions_of(self.positions@.take(i as int), account_id),
            decreases self.positions@.len() - i,
        {
            proof {
                let cur = self.positions@.take(i as int + 1);
                assert(cur.drop_last() == self.positions@.take(i as int));
                assert(cur.last() == self.positions@[i as int]);
            }
            let row = &self.positions[i];
            if row.account_id == account_id {
                positions.push(PositionView { symbol: row.symbol.clone(), position: row.position });
            }
            i = i + 1;
        }
        assert(self.positions@.take(self.positions@.len() as int) == self.positions@);
        let mut count: usize = 0;
        let mut j: usize = 0;
        while j < self.trades.len()
            invariant
                j <= self.trades@.len(),
                count == trade_count(self.trades@.take(j as int), account_id),
                count <= j,
            decreases self.trades@.len() - j,
        {
            proof {
                let cur = self.trades@.take(j as int + 1);
                assert(cur.drop_last() == self.trades@.take(j as int));
                assert(cur.last() == self.trades@[j as int]);
            }
            let t = &self.trades[j];
            if t.buy_account == account_id || t.sell_account == account_id {
                count = count + 1;
            }
            j = j + 1;
        }
        assert(self.trades@.take(self.trades@.len() as int) == self.trades@);
        Ok(AccountPortfolio { account_id, cash, positions, trades_count: count })
    }

    /// The portfolios of every account that has a balance, a position or a
    /// trade, by ascending account id.
    pub fn get_all_accounts(&self) -> (r: Result<Vec<AccountPortfolio>, DbError>)
        requires
            self.wf(),
        ensures
            r is Ok,
            r.unwrap()@.len() == self.balance_rows().len(),
            forall|i: int|
                0 <= i < r.unwrap()@.len() ==> reports(
                    #[trigger] r.unwrap()@[i],
                    self.balance_rows(),
                    self.position_rows(),
                    self.trade_rows(),
                    self.balance_rows()[i].account_id,
                ),
            forall|i: int, j: int|
                0 <= i < j < r.unwrap()@.len() ==> (#[trigger] r.unwrap()@[i]).account_id
                    < (#[trigger] r.unwrap()@[j]).account_id,
            forall|k: int|
                0 <= k < self.position_rows().len() ==> lists_account(
                    r.unwrap()@,
                    (#[trigger] self.position_rows()[k]).account_id,
                ),
            forall|k: int|
                0 <= k < self.trade_rows().len() ==> lists_account(r.unwrap()@, (#[trigger] self.trade_rows()[k]).buy_account)
                    && lists_account(r.unwrap()@, self.trade_rows()[k].sell_account),
    {
        let mut out: Vec<AccountPortfolio> = Vec::new();
        let mut i: usize = 0;
        while i < self.balances.len()
            invariant
                self.wf(),
                i <= self.balances@.len(),
                out@.len() == i,
                forall|k: int|
                    0 <= k < i ==> reports(
                        #[trigger] out@[k],
                        self.balances@,
                        self.positions@,
                        self.trades@,
                        self.balances@[k].account_id,
                    ),
            decreases self.balances@.len() - i,
        {
            let p = self.get_account_portfolio(self.balances[i].account_id);
            match p {
                Ok(portfolio) => {
                    out.push(portfolio);
                },
                Err(_) => {},
            }
            i = i + 1;
        }
        proof {
            let bs = self.balance_rows();
            let ps = self.position_rows();
            let ts = self.trade_rows();
            assert forall|a: int, b: int| 0 <= a < b < out@.len() implies (#[trigger] out@[a]).account_id
                < (#[trigger] out@[b]).account_id by {
                assert(balance_keys(bs)[a] < balance_keys(bs)[b]);
            }
            assert forall|k: int| 0 <= k < ps.len() implies lists_account(out@, (#[trigger] ps[k]).account_id) by {
                assert(has_balance(bs, ps[k].account_id));
                let i = choose|i: int| 0 <= i < bs.len() && (#[trigger] bs[i]).account_id == ps[k].account_id;
                assert(out@[i].account_id == bs[i].account_id);
            }
            assert forall|k: int| 0 <= k < ts.len() implies lists_account(out@, (#[trigger] ts[k]).buy_account)
                && lists_account(out@, ts[k].sell_account) by {
                assert(has_balance(bs, ts[k].buy_account) && has_balance(bs, ts[k].sell_account));
                let i = choose|i: int| 0 <= i < bs.len() && (#[trigger] bs[i]).account_id == ts[k].buy_account;
                assert(out@[i].account_id == bs[i].account_id);
                let i2 = choose|i: int| 0 <= i < bs.len() && (#[trigger] bs[i]).account_id == ts[k].sell_account;
                assert(out@[i2].account_id == bs[i2].account_id);
            }
        }
        Ok(out)
    }

    /// Stores `book` as the snapshot of its symbol, replacing an older one.
    pub fn save_book_snapshot(&mut self, book: &OrderBookView) -> (r: Result<(), DbError>)
        requires
            old(self).wf(),
        ensures
            r is Ok,
            final(self).wf(),
            final(self).trade_rows() == old(self).trade_rows(),
            final(self).balance_rows() == old(self).balance_rows(),
            final(self).position_rows() == old(self).position_rows(),
            snapshot_for(final(self).snapshot_rows(), book.symbol@) is Some,
            snapshot_for(final(self).snapshot_rows(), book.symbol@).unwrap().same_as(book),
            forall|s: Seq<char>|
                s != book.symbol@ ==> snapshot_for(final(self).snapshot_rows(), s) == snapshot_for(
                    old(self).snapshot_rows(),
                    s,
                ),
    {
        let ghost rows = self.snapshots@;
        let mut i: usize = 0;
        while i < self.snapshots.len()
            invariant
                i <= self.snapshots@.len(),
                forall|k: int| 0 <= k < i ==> (#[trigger] self.snapshots@[k]).symbol@ != book.symbol@,
                rows == self.snapshots@,
                old(self).wf(),
                self.trades@ == old(self).trades@,
                self.balances@ == old(self).balances@,
                self.positions@ == old(self).positions@,
                self.snapshots@ == old(self).snapshots@,
            decreases self.snapshots@.len() - i,
        {
            if str_equal(self.snapshots[i].symbol.as_str(), book.symbol.as_str()) {
                let copy = book.clone();
                self.snapshots.set(i, copy);
                proof {
                    let n = self.snapshots@;
                    assert forall|a: int, b: int| 0 <= a < b < n.len() implies (#[trigger] n[a]).symbol@
                        != (#[trigger] n[b]).symbol@ by {
                        assert(rows[a].symbol@ != rows[b].symbol@);
                    }
                    assert(n[i as int].symbol@ == book.symbol@);
                    assert forall|s: Seq<char>| s != book.symbol@ implies snapshot_for(n, s)
                        == snapshot_for(rows, s) by {
                        if exists|k: int| 0 <= k < rows.len() && (#[trigger] rows[k]).symbol@ == s {
                            let k = choose|k: int| 0 <= k < rows.len() && (#[trigger] rows[k]).symbol@ == s;
                            assert(n[k] == rows[k]);
                        }
                        if exists|k: int| 0 <= k < n.len() && (#[trigger] n[k]).symbol@ == s {
                            let k = choose|k: int| 0 <= k < n.len() && (#[trigger] n[k]).symbol@ == s;
                            assert(n[k] == rows[k]);
                        }
                    }
                }
                return Ok(());
            }
            i = i + 1;
        }
        let copy = book.clone();
        self.snapshots.push(copy);
        proof {
            let n = self.snapshots@;
            assert forall|a: int, b: int| 0 <= a < b < n.len() implies (#[trigger] n[a]).symbol@
                != (#[trigger] n[b]).symbol@ by {
                if b < rows.len() {
                    assert(rows[a].symbol@ != rows[b].symbol@);
                } else {
                    assert(n[a] == rows[a]);
                }
            }
            assert(n[rows.len() as int].symbol@ == book.symbol@);
            assert forall|s: Seq<char>| s != book.symbol@ implies snapshot_for(n, s) == snapshot_for(rows, s) by {
                if exists|k: int| 0 <= k < rows.len() && (#[trigger] rows[k]).symbol@ == s {
                    let k = choose|k: int| 0 <= k < rows.len() && (#[trigger] rows[k]).symbol@ == s;
                    assert(n[k] == rows[k]);
                }
                if exists|k: int| 0 <= k < n.len() && (#[trigger] n[k]).symbol@ == s {
                    let k = choose|k: int| 0 <= k < n.len() && (#[trigger] n[k]).symbol@ == s;
                    assert(n[k] == rows[k]);
                }
            }
        }
        Ok(())
    }

    /// The stored snapshot of `symbol`, if any.
    pub fn get_book_snapshot(&self, symbol: &str) -> (r: Result<Option<OrderBookView>, DbError>)
        requires
            self.wf(),
        ensures
            r is Ok,
            r.unwrap() is Some <==> snapshot_for(self.snapshot_rows(), symbol@) is Some,
            r.unwrap() is Some ==> r.unwrap().unwrap().same_as(&snapshot_for(self.snapshot_rows(), symbol@).unwrap()),
    {
        let mut i: usize = 0;
        while i < self.snapshots.len()
            invariant
                i <= self.snapshots@.len(),
                forall|k: int| 0 <= k < i ==> (#[trigger] self.snapshots@[k]).symbol@ != symbol@,
                self.wf(),
            decreases self.snapshots@.len() - i,
        {
            if str_equal(self.snapshots[i].symbol.as_str(), symbol) {
                proof {
                    let rows = self.snapshots@;
                    let k = choose|k: int| 0 <= k < rows.len() && (#[trigger] rows[k]).symbol@ == symbol@;
                    if k != i {
                        assert(rows[k].symbol@ != rows[i as int].symbol@);
                    }
                }
                return Ok(Some(self.snapshots[i].clone()));
            }
            i = i + 1;
        }
        Ok(None)
    }
}

/// A read gives back what a write stored: when the stored snapshot of a
/// symbol is the one saved, and a read returns the stored one, the read
/// returns the one saved.
pub proof fn law_snapshot_read_back(rows: Seq<OrderBookView>, saved: OrderBookView, read: OrderBookView)
    requires
        snapshot_for(rows, saved.symbol@) is Some,
        snapshot_for(rows, saved.symbol@).unwrap().same_as(&saved),
        read.same_as(&snapshot_for(rows, saved.symbol@).unwrap()),
    ensures
        read.same_as(&saved),
{
}

} // verus!
