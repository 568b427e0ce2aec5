//! The state of the order feed: the published messages, id assignment, the
//! random order generator and the submission of orders and cancels.
use crate::engine::types::{Price, Quantity};
use crate::feed::random::{random_below, random_ratio, thread_rng};
use crate::feed::{
    initial_mid, is_listed, is_listed_symbol, listed_mid, listed_symbol, symbol_name, AccountId,
    OrderId, OrderMessage, Side, SYMBOL_COUNT,
};
use vstd::prelude::*;
use vstd::string::*;

verus! {

/// How many recent orders the generator keeps as candidates for cancellation.
pub const CANCEL_CANDIDATE_WINDOW: usize = 50;

/// A generated message is a cancel with probability
/// `CANCEL_NUMERATOR / CANCEL_DENOMINATOR` (15%).
pub const CANCEL_NUMERATOR: u32 = 3;

/// See `CANCEL_NUMERATOR`.
pub const CANCEL_DENOMINATOR: u32 = 20;

/// Mid prices are kept in millionths of the quote token; one hundredth is this many.
pub const MICROS_PER_CENT: u64 = 10_000;

/// A mid price drifts by a factor in `[1 - 0.002, 1 + 0.002)`, drawn in
/// millionths: the draw is below this bound and centred on half of it.
pub const DRIFT_SPAN: u64 = 4_000;

/// An order is priced at the mid times a factor in `[1 - 0.005, 1 + 0.005)`,
/// drawn in millionths: the draw is below this bound and centred on half of it.
pub const SPREAD_SPAN: u64 = 10_000;

/// The lowest mid price (millionths) at which a generated order is sure to get a
/// positive price: the worst drift and spread take it to 5026 and then 5000
/// millionths, half a hundredth, which rounds up to one hundredth.
pub const MIN_PRICED_MID: u64 = 5037;

/// Order quantities are drawn in `[1.0, 10.0)`, in millionths: `1.0` plus a
/// draw below this bound.
pub const QUANTITY_SPAN: u64 = 9_000_000;

/// The contents of the feed state.
pub struct FeedView {
    pub messages: Seq<OrderMessage>,
    pub next_id: OrderId,
    pub mids: Seq<u64>,
    pub cancel_candidates: Seq<(OrderId, AccountId)>,
    pub num_accounts: u32,
}

/// The message ids increase strictly along the feed.
pub open spec fn ids_increasing(ms: Seq<OrderMessage>) -> bool {
    forall|i: int, j: int| 0 <= i < j < ms.len() ==> (#[trigger] ms[i]).spec_id() < (#[trigger] ms[j]).spec_id()
}

impl FeedView {
    /// Message ids start at 1, increase strictly, and are all below the next
    /// id to assign; every cancel candidate is an id already assigned; there
    /// are at most `CANCEL_CANDIDATE_WINDOW` candidates, one mid price per
    /// listed pair, and at least one account.
    pub open spec fn wf(&self) -> bool {
        &&& ids_increasing(self.messages)
        &&& forall|i: int|
            0 <= i < self.messages.len() ==> 1 <= (#[trigger] self.messages[i]).spec_id() < self.next_id
        &&& self.next_id >= 1
        &&& self.mids.len() == SYMBOL_COUNT
        &&& self.cancel_candidates.len() <= CANCEL_CANDIDATE_WINDOW
        &&& forall|i: int|
            0 <= i < self.cancel_candidates.len() ==> (#[trigger] self.cancel_candidates[i]).0 < self.next_id
        &&& self.num_accounts >= 1
    }
}

/// The state of the order feed.
pub struct FeedState {
    messages: Vec<OrderMessage>,
    next_id: OrderId,
    mids: Vec<u64>,
    cancel_candidates: Vec<(OrderId, AccountId)>,
    num_accounts: u32,
}

impl View for FeedState {
    type V = FeedView;

    closed spec fn view(&self) -> FeedView {
        FeedView {
            messages: self.messages@,
            next_id: self.next_id,
            mids: self.mids@,
            cancel_candidates: self.cancel_candidates@,
            num_accounts: self.num_accounts,
        }
    }
}

/// The random choices behind one generated message.
#[derive(Debug, Clone, Copy, PartialEq, Eq, Structural)]
pub enum Draw {
    /// Cancel the candidate at `index`.
    Cancel { index: usize },
    /// A new order in listed pair `symbol_index`, whose mid first drifts by
    /// `drift`; priced by `spread`; of quantity `1.0` plus `quantity` millionths;
    /// a buy if `buy`; from `account`.
    New { symbol_index: usize, drift: u64, spread: u64, quantity: u64, buy: bool, account: AccountId },
}

/// The draw is within the generator's ranges for state `s`.
pub open spec fn draw_in_range(s: FeedView, d: Draw) -> bool {
    match d {
        Draw::Cancel { index } => index < s.cancel_candidates.len(),
        Draw::New { symbol_index, drift, spread, quantity, account, .. } => {
            &&& symbol_index < SYMBOL_COUNT
            &&& drift < DRIFT_SPAN
            &&& spread < SPREAD_SPAN
            &&& quantity < QUANTITY_SPAN
            &&& account < s.num_accounts
        },
    }
}

/// A mid price (millionths) after drifting by the factor `(10^6 + drift - 2000) / 10^6`,
/// rounded down and capped at `u64::MAX`.
pub open spec fn drifted(mid: u64, drift: u64) -> u64 {
    let x = mid * (1_000_000 + drift - DRIFT_SPAN / 2) / 1_000_000;
    if x <= u64::MAX {
        x as u64
    } else {
        u64::MAX
    }
}

/// The price (hundredths) of an order at mid `mid` (millionths) times the
/// factor `(10^6 + spread - 5000) / 10^6`, rounded half up to a hundredth.
pub open spec fn quoted(mid: u64, spread: u64) -> Price {
    ((mid * (1_000_000 + spread - SPREAD_SPAN / 2) / 1_000_000 + MICROS_PER_CENT / 2) / MICROS_PER_CENT as int) as Price
}

/// The quantity (tenths) of `1.0` plus `q` millionths, rounded half up to a tenth.
pub open spec fn drawn_quantity(q: u64) -> Quantity {
    ((q + 1_000_000 + 50_000) / 100_000) as Quantity
}

/// The side a coin flip picks.
pub open spec fn side_of(buy: bool) -> Side {
    if buy {
        Side::Buy
    } else {
        Side::Sell
    }
}

/// The cancel candidates after a new order `(id, account)` joins them: the
/// oldest leaves once there are more than `CANCEL_CANDIDATE_WINDOW`.
pub open spec fn candidates_with(c: Seq<(OrderId, AccountId)>, id: OrderId, account: AccountId) -> Seq<(OrderId, AccountId)> {
    let p = c.push((id, account));
    if p.len() > CANCEL_CANDIDATE_WINDOW {
        p.drop_first()
    } else {
        p
    }
}

/// The state after generating a message from draw `d`: the next id is used,
/// and either the chosen candidate leaves the candidates (the last takes its
/// place), or the pair's mid drifts and the new order joins the candidates.
pub open spec fn after_draw(s: FeedView, d: Draw) -> FeedView {
    match d {
        Draw::Cancel { index } => FeedView {
            next_id: (s.next_id + 1) as u64,
            cancel_candidates: s.cancel_candidates.update(index as int, s.cancel_candidates.last()).drop_last(),
            ..s
        },
        Draw::New { symbol_index, drift, account, .. } => FeedView {
            next_id: (s.next_id + 1) as u64,
            mids: s.mids.update(symbol_index as int, drifted(s.mids[symbol_index as int], drift)),
            cancel_candidates: candidates_with(s.cancel_candidates, s.next_id, account),
            ..s
        },
    }
}

/// `m` is the message generated from draw `d` in state `s` at `timestamp`.
pub open spec fn drawn_message(s: FeedView, timestamp: u64, d: Draw, m: OrderMessage) -> bool {
    match d {
        Draw::Cancel { index } => m == OrderMessage::Cancel {
            id: s.next_id,
            timestamp,
            account: s.cancel_candidates[index as int].1,
            target_id: s.cancel_candidates[index as int].0,
        },
        Draw::New { symbol_index, drift, spread, quantity, buy, account } => match m {
            OrderMessage::New { id, timestamp: t, account: a, symbol, side, price, quantity: q } => {
                &&& id == s.next_id
                &&& t == timestamp
                &&& a == account
                &&& symbol@ == symbol_name(symbol_index as int)
                &&& side == side_of(buy)
                &&& price == quoted(drifted(s.mids[symbol_index as int], drift), spread)
                &&& q == drawn_quantity(quantity)
            },
            OrderMessage::Cancel { .. } => false,
        },
    }
}

/// Number of messages with an id at most `since`.
pub open spec fn count_up_to(ms: Seq<OrderMessage>, since: OrderId) -> int
    decreases ms.len(),
{
    if ms.len() == 0 {
        0
    } else {
        count_up_to(ms.drop_last(), since) + if ms.last().spec_id() <= since {
            1int
        } else {
            0int
        }
    }
}

/// With increasing ids, the messages up to `since` are exactly a prefix.
pub proof fn lemma_count_up_to(ms: Seq<OrderMessage>, since: OrderId)
    requires
        ids_increasing(ms),
    ensures
        0 <= count_up_to(ms, since) <= ms.len(),
        forall|i: int| 0 <= i < count_up_to(ms, since) ==> (#[trigger] ms[i]).spec_id() <= since,
        forall|i: int| count_up_to(ms, since) <= i < ms.len() ==> (#[trigger] ms[i]).spec_id() > since,
    decreases ms.len(),
{
    if ms.len() > 0 {
        let p = ms.drop_last();
        assert(ids_increasing(p)) by {
            assert forall|i: int, j: int| 0 <= i < j < p.len() implies (#[trigger] p[i]).spec_id()
                < (#[trigger] p[j]).spec_id() by {
                assert(p[i] == ms[i] && p[j] == ms[j]);
            }
        }
        lemma_count_up_to(p, since);
        let n = count_up_to(ms, since);
        assert forall|i: int| 0 <= i < n implies (#[trigger] ms[i]).spec_id() <= since by {
            if i < ms.len() - 1 {
                assert(ms[i] == p[i]);
            }
        }
        assert forall|i: int| n <= i < ms.len() implies (#[trigger] ms[i]).spec_id() > since by {
            if i < ms.len() - 1 {
                assert(ms[i] == p[i]);
                if ms.last().spec_id() <= since {
                    assert(ms[i].spec_id() < ms[ms.len() - 1].spec_id());
                }
            } else {
                let k = count_up_to(p, since);
                if ms.last().spec_id() <= since {
                    assert(k < p.len());
                    assert(p[k] == ms[k]);
                    assert(ms[k].spec_id() < ms[ms.len() - 1].spec_id());
                }
            }
        }
    }
}

/// Polling with the highest id seen gives exactly what was published since:
/// when every message so far has an id at most `since` and a new message with a
/// higher id is published, the messages after `since` are that one alone.
pub proof fn law_poll_since_gives_new_messages(ms: Seq<OrderMessage>, m: OrderMessage, since: OrderId)
    requires
        ids_increasing(ms),
        forall|i: int| 0 <= i < ms.len() ==> (#[trigger] ms[i]).spec_id() <= since,
        since < m.spec_id(),
    ensures
        ms.push(m).skip(count_up_to(ms.push(m), since)) == seq![m],
{
    lemma_count_up_to(ms, since);
    let n = count_up_to(ms, since);
    if n < ms.len() {
        assert(ms[n].spec_id() > since);
    }
    let p = ms.push(m);
    assert(p.drop_last() == ms);
    assert(count_up_to(p, since) == ms.len());
    assert(p.skip(ms.len() as int) =~= seq![m]);
}

/// The generator's messages are within its ranges: a message takes the next
/// id; a new order is in a listed pair, from one of the simulated accounts, for
/// 1.0 to 10.0 units, and its price is positive when the pair's mid price is at
/// least `MIN_PRICED_MID` millionths; a cancel targets a remembered earlier order of the
/// account that placed it.
pub proof fn law_generated_message_ranges(s: FeedView, timestamp: u64, d: Draw, m: OrderMessage)
    requires
        s.wf(),
        draw_in_range(s, d),
        drawn_message(s, timestamp, d, m),
    ensures
        m.spec_id() == s.next_id,
        match m {
            OrderMessage::New { symbol, account, price, quantity, .. } => {
                &&& is_listed(symbol@)
                &&& account < s.num_accounts
                &&& 10 <= quantity <= 100
                &&& (d matches Draw::New { symbol_index, .. } && s.mids[symbol_index as int] >= MIN_PRICED_MID ==> price > 0)
            },
            OrderMessage::Cancel { id, account, target_id, .. } => {
                &&& target_id < id
                &&& d matches Draw::Cancel { index } && s.cancel_candidates[index as int] == (target_id, account)
            },
        },
{
    match d {
        Draw::New { symbol_index, drift, spread, quantity, .. } => {
            assert(is_listed(symbol_name(symbol_index as int)));
            let mid = s.mids[symbol_index as int];
            if mid >= MIN_PRICED_MID {
                let x = mid * (1_000_000 + drift - DRIFT_SPAN / 2) / 1_000_000;
                assert(x >= 5_026) by (nonlinear_arith)
                    requires
                        x == mid * (1_000_000 + drift - 2000) / 1_000_000,
                        mid >= 5_037,
                        drift >= 0,
                ;
                let dm = drifted(mid, drift);
                assert(dm >= 5_026);
                let y = dm * (1_000_000 + spread - SPREAD_SPAN / 2) / 1_000_000;
                assert(y >= 5_000) by (nonlinear_arith)
                    requires
                        y == dm * (1_000_000 + spread - 5000) / 1_000_000,
                        dm >= 5_026,
                        spread >= 0,
                ;
                assert(y <= 2 * 0xffff_ffff_ffff_ffffint) by (nonlinear_arith)
                    requires
                        y == dm * (1_000_000 + spread - 5000) / 1_000_000,
                        dm <= 0xffff_ffff_ffff_ffffint,
                        spread < 10_000,
                ;
                assert((y + 5000) / 10_000 >= 1);
                assert(quoted(dm, spread) > 0);
            }
            assert(10 <= drawn_quantity(quantity) <= 100);
        },
        Draw::Cancel { index } => {},
    }
}

/// A generated order is priced from the mid of the pair it names: if its symbol
/// is pair `i`'s, its price is pair `i`'s mid after drifting, quoted with the
/// drawn spread, and pair `i`'s mid is the one that drifts (the others stay);
/// on a feed whose mids are the initial ones, with neutral drift and spread, it
/// is priced at its own pair's initial mid.
pub proof fn law_generated_order_priced_from_its_pair(s: FeedView, timestamp: u64, d: Draw, m: OrderMessage, i: int)
    requires
        s.wf(),
        draw_in_range(s, d),
        drawn_message(s, timestamp, d, m),
        m is New,
        0 <= i < SYMBOL_COUNT,
        m->New_symbol@ == symbol_name(i),
    ensures
        d is New,
        m->New_price == quoted(drifted(s.mids[i], d->drift), d->spread),
        after_draw(s, d).mids[i] == drifted(s.mids[i], d->drift),
        forall|j: int| 0 <= j < SYMBOL_COUNT && j != i ==> #[trigger] after_draw(s, d).mids[j] == s.mids[j],
        s.mids[i] == initial_mid(i) * MICROS_PER_CENT && d->drift == DRIFT_SPAN / 2 && d->spread == SPREAD_SPAN / 2
            ==> m->New_price == initial_mid(i),
{
    proof_names_distinct();
    match d {
        Draw::New { symbol_index, .. } => {
            assert(symbol_name(symbol_index as int) == symbol_name(i));
            assert(symbol_index == i);
            let mid = s.mids[i];
            if mid == initial_mid(i) * MICROS_PER_CENT && d->drift == DRIFT_SPAN / 2 && d->spread == SPREAD_SPAN / 2 {
                vstd::arithmetic::div_mod::lemma_fundamental_div_mod_converse(
                    mid * 1_000_000int,
                    1_000_000int,
                    mid as int,
                    0,
                );
                assert(drifted(mid, d->drift) == mid);
                let c = initial_mid(i);
                vstd::arithmetic::div_mod::lemma_fundamental_div_mod_converse(
                    c * 10_000 + 5_000,
                    10_000int,
                    c as int,
                    5_000,
                );
            }
        },
        Draw::Cancel { .. } => {},
    }
}

/// The listed pairs have different names.
proof fn proof_names_distinct()
    ensures
        forall|a: int, b: int|
            0 <= a < SYMBOL_COUNT && 0 <= b < SYMBOL_COUNT && a != b ==> symbol_name(a) != symbol_name(b),
{
    reveal_strlit("NEX-USDC");
    reveal_strlit("ETH-USDC");
    reveal_strlit("BTC-USDC");
    assert(symbol_name(0)[0] != symbol_name(1)[0]);
    assert(symbol_name(0)[0] != symbol_name(2)[0]);
    assert(symbol_name(1)[0] != symbol_name(2)[0]);
}

/// The generator's bookkeeping of cancel candidates: a new order joins them
/// as the newest, the oldest leaving once there would be more than
/// `CANCEL_CANDIDATE_WINDOW`; a cancel takes its target out, so there is one
/// candidate fewer; every id stays below the next one to assign.
pub proof fn law_generator_bookkeeping(s: FeedView, d: Draw)
    requires
        s.wf(),
        draw_in_range(s, d),
        s.next_id < u64::MAX,
    ensures
        after_draw(s, d).next_id == s.next_id + 1,
        after_draw(s, d).messages == s.messages,
        after_draw(s, d).cancel_candidates.len() <= CANCEL_CANDIDATE_WINDOW,
        forall|i: int|
            0 <= i < after_draw(s, d).cancel_candidates.len() ==> (#[trigger] after_draw(s, d).cancel_candidates[i]).0
                < after_draw(s, d).next_id,
        match d {
            Draw::New { account, .. } => {
                &&& after_draw(s, d).cancel_candidates.last() == (s.next_id, account)
                &&& after_draw(s, d).cancel_candidates.len() == if s.cancel_candidates.len() < CANCEL_CANDIDATE_WINDOW {
                    s.cancel_candidates.len() + 1int
                } else {
                    CANCEL_CANDIDATE_WINDOW as int
                }
            },
            Draw::Cancel { index } => {
                &&& after_draw(s, d).cancel_candidates.len() == s.cancel_candidates.len() - 1
                &&& forall|i: int|
                    0 <= i < after_draw(s, d).cancel_candidates.len() && i != index ==> #[trigger] after_draw(
                        s,
                        d,
                    ).cancel_candidates[i] == s.cancel_candidates[i]
            },
        },
{
    let a = after_draw(s, d);
    match d {
        Draw::New { account, .. } => {
            let p = s.cancel_candidates.push((s.next_id, account));
            assert forall|i: int| 0 <= i < a.cancel_candidates.len() implies (#[trigger] a.cancel_candidates[i]).0
                < a.next_id by {
                if p.len() > CANCEL_CANDIDATE_WINDOW {
                    assert(a.cancel_candidates[i] == p[i + 1]);
                } else {
                    assert(a.cancel_candidates[i] == p[i]);
                }
            }
        },
        Draw::Cancel { index } => {
            assert forall|i: int| 0 <= i < a.cancel_candidates.len() implies (#[trigger] a.cancel_candidates[i]).0
                < a.next_id by {
                if i == index {
                    assert(a.cancel_candidates[i] == s.cancel_candidates.last());
                } else {
                    assert(a.cancel_candidates[i] == s.cancel_candidates[i]);
                }
            }
        },
    }
}

/// Why an order submission is refused.
#[derive(Debug, Clone, Copy, PartialEq, Eq, Structural)]
pub enum SubmitError {
    /// The symbol is not a listed trading pair.
    UnknownSymbol,
    /// The price or the quantity is not positive.
    NotPositive,
}

impl FeedState {
    /// A new feed with no messages, the first id 1, each pair at its initial
    /// mid price, no cancel candidates, and at least one account.
    pub fn new(num_accounts: u32) -> (s: Self)
        ensures
            s@.wf(),
            s@.messages.len() == 0,
            s@.next_id == 1,
            s@.cancel_candidates.len() == 0,
            s@.num_accounts == if num_accounts == 0 {
                1
            } else {
                num_accounts
            },
            forall|i: int| 0 <= i < SYMBOL_COUNT ==> #[trigger] s@.mids[i] == initial_mid(i) * MICROS_PER_CENT,
    {
        let mut mids: Vec<u64> = Vec::new();
        let mut i: usize = 0;
        while i < SYMBOL_COUNT
            invariant
                i <= SYMBOL_COUNT,
                mids@.len() == i,
                forall|j: int| 0 <= j < i ==> #[trigger] mids@[j] == initial_mid(j) * MICROS_PER_CENT,
            decreases SYMBOL_COUNT - i,
        {
            mids.push(listed_mid(i) * MICROS_PER_CENT);
            i = i + 1;
        }
        FeedState {
            messages: Vec::new(),
            next_id: 1,
            mids,
            cancel_candidates: Vec::new(),
            num_accounts: if num_accounts == 0 {
                1
            } else {
                num_accounts
            },
        }
    }

    /// Every message published so far, in feed order.
    pub fn messages(&self) -> (r: &Vec<OrderMessage>)
        ensures
            r@ == self@.messages,
    {
        &self.messages
    }

    /// Another id can be assigned.
    pub fn can_publish(&self) -> (r: bool)
        ensures
            r == (self@.next_id < u64::MAX),
    {
        self.next_id < u64::MAX
    }

    /// Builds the message for draw `d` and updates the state as `after_draw` says.
    pub fn apply_draw(&mut self, timestamp: u64, d: Draw) -> (m: OrderMessage)
        requires
            old(self)@.wf(),
            draw_in_range(old(self)@, d),
            old(self)@.next_id < u64::MAX,
        ensures
            final(self)@ == after_draw(old(self)@, d),
            drawn_message(old(self)@, timestamp, d, m),
            final(self)@.wf(),
            forall|i: int|
                0 <= i < SYMBOL_COUNT && m is New && m->New_symbol@ == #[trigger] symbol_name(i) ==> {
                    &&& d is New
                    &&& m->New_price == quoted(drifted(old(self)@.mids[i], d->drift), d->spread)
                    &&& final(self)@.mids[i] == drifted(old(self)@.mids[i], d->drift)
                },
    {
        let ghost s0 = self@;
        let id = self.next_id;
        self.next_id = self.next_id + 1;
        let m = match d {
            Draw::Cancel { index } => {
                let (target_id, account) = self.cancel_candidates.swap_remove(index);
                proof {
                    let c = self.cancel_candidates@;
                    assert forall|i: int| 0 <= i < c.len() implies (#[trigger] c[i]).0 < self@.next_id by {
                        if i == index {
                            assert(c[i] == s0.cancel_candidates.last());
                        } else {
                            assert(c[i] == s0.cancel_candidates[i]);
                        }
                    }
                    assert(self@ =~= after_draw(s0, d));
                }
                OrderMessage::Cancel { id, timestamp, account, target_id }
            },
            Draw::New { symbol_index, drift, spread, quantity, buy, account } => {
                let mid = self.mids[symbol_index];
                let factor: u128 = 1_000_000u128 + drift as u128 - (DRIFT_SPAN / 2) as u128;
                assert(mid as u128 * factor <= 0xffff_ffff_ffff_ffffu128 * 1_002_000u128) by (nonlinear_arith)
                    requires
                        mid <= 0xffff_ffff_ffff_ffffu128,
                        factor <= 1_002_000u128,
                ;
                let x: u128 = mid as u128 * factor / 1_000_000u128;
                let new_mid: u64 = if x <= u64::MAX as u128 {
                    x as u64
                } else {
                    u64::MAX
                };
                self.mids.set(symbol_index, new_mid);
                let sfactor: u128 = 1_000_000u128 + spread as u128 - (SPREAD_SPAN / 2) as u128;
                assert(new_mid as u128 * sfactor <= 0xffff_ffff_ffff_ffffu128 * 1_005_000u128) by (nonlinear_arith)
                    requires
                        new_mid <= 0xffff_ffff_ffff_ffffu128,
                        sfactor <= 1_005_000u128,
                ;
                let px: u128 = new_mid as u128 * sfactor / 1_000_000u128;
                assert(px <= 2 * 0xffff_ffff_ffff_ffffu128) by (nonlinear_arith)
                    requires
                        px as int == (new_mid as int) * (sfactor as int) / 1_000_000int,
                        new_mid <= 0xffff_ffff_ffff_ffffu128,
                        sfactor <= 1_005_000u128,
                ;
                let price: u64 = ((px + (MICROS_PER_CENT / 2) as u128) / MICROS_PER_CENT as u128) as u64;
                let qty: u64 = (quantity + 1_000_000 + 50_000) / 100_000;
                let side = if buy {
                    Side::Buy
                } else {
                    Side::Sell
                };
                self.cancel_candidates.push((id, account));
                if self.cancel_candidates.len() > CANCEL_CANDIDATE_WINDOW {
                    self.cancel_candidates.remove(0);
                }
                let symbol = listed_symbol(symbol_index).to_owned();
                proof {
                    let c = self.cancel_candidates@;
                    assert(c == candidates_with(s0.cancel_candidates, id, account));
                    assert forall|i: int| 0 <= i < c.len() implies (#[trigger] c[i]).0 < self@.next_id by {
                        let p = s0.cancel_candidates.push((id, account));
                        if p.len() > CANCEL_CANDIDATE_WINDOW {
                            assert(c[i] == p[i + 1]);
                        } else {
                            assert(c[i] == p[i]);
                        }
                    }
                    assert(self@ =~= after_draw(s0, d));
                }
                OrderMessage::New { id, timestamp, account, symbol, side, price, quantity: qty }
            },
        };
        proof {
            assert forall|i: int|
                0 <= i < SYMBOL_COUNT && m is New && m->New_symbol@ == #[trigger] symbol_name(i) implies {
                    &&& d is New
                    &&& m->New_price == quoted(drifted(s0.mids[i], d->drift), d->spread)
                    &&& self@.mids[i] == drifted(s0.mids[i], d->drift)
                } by {
                law_generated_order_priced_from_its_pair(s0, timestamp, d, m, i);
            }
        }
        m
    }

    /// Generates the next random message: with probability 15% (when there
    /// are candidates) a cancel of a random recent order, otherwise a new limit
    /// order in a random pair whose mid price first drifts a little, priced
    /// randomly around the mid, with a random quantity, side and account.
    pub fn generate_message(&mut self, timestamp: u64) -> (m: OrderMessage)
        requires
            old(self)@.wf(),
            old(self)@.next_id < u64::MAX,
        ensures
            final(self)@.wf(),
            exists|d: Draw|
                draw_in_range(old(self)@, d) && final(self)@ == after_draw(old(self)@, d) && drawn_message(
                    old(self)@,
                    timestamp,
                    d,
                    m,
                ),
    {
        let mut rng = thread_rng();
        let n = self.cancel_candidates.len();
        let d = if n > 0 && random_ratio(&mut rng, CANCEL_NUMERATOR, CANCEL_DENOMINATOR) {
            Draw::Cancel { index: random_below(&mut rng, n as u64) as usize }
        } else {
            let symbol_index = random_below(&mut rng, SYMBOL_COUNT as u64) as usize;
            let drift = random_below(&mut rng, DRIFT_SPAN);
            let spread = random_below(&mut rng, SPREAD_SPAN);
            let quantity = random_below(&mut rng, QUANTITY_SPAN);
            let buy = random_ratio(&mut rng, 1, 2);
            let account = random_below(&mut rng, self.num_accounts as u64) as u32;
            Draw::New { symbol_index, drift, spread, quantity, buy, account }
        };
        self.apply_draw(timestamp, d)
    }

    /// Generates the next random message and publishes it on the feed.
    pub fn publish_generated(&mut self, timestamp: u64) -> (m: OrderMessage)
        requires
            old(self)@.wf(),
            old(self)@.next_id < u64::MAX,
        ensures
            final(self)@.wf(),
            final(self)@.messages == old(self)@.messages.push(m),
            m.spec_id() == old(self)@.next_id,
            final(self)@.next_id == old(self)@.next_id + 1,
    {
        let ghost s0 = self@;
        let m = self.generate_message(timestamp);
        proof {
            let d = choose|d: Draw|
                draw_in_range(s0, d) && self@ == after_draw(s0, d) && drawn_message(s0, timestamp, d, m);
            assert(m.spec_id() == s0.next_id);
        }
        self.publish(m.clone());
        m
    }

    /// Appends a message whose id is above every id published and below the next.
    fn publish(&mut self, m: OrderMessage)
        requires
            old(self)@.wf() || (ids_increasing(old(self)@.messages) && forall|i: int|
                0 <= i < old(self)@.messages.len() ==> 1 <= (#[trigger] old(self)@.messages[i]).spec_id()
                    < old(self)@.next_id - 1),
            old(self)@.next_id >= 2,
            old(self)@.mids.len() == SYMBOL_COUNT,
            old(self)@.cancel_candidates.len() <= CANCEL_CANDIDATE_WINDOW,
            forall|i: int|
                0 <= i < old(self)@.cancel_candidates.len() ==> (#[trigger] old(self)@.cancel_candidates[i]).0
                    < old(self)@.next_id,
            old(self)@.num_accounts >= 1,
            m.spec_id() == old(self)@.next_id - 1,
            forall|i: int| 0 <= i < old(self)@.messages.len() ==> (#[trigger] old(self)@.messages[i]).spec_id() < m.spec_id(),
        ensures
            final(self)@ == (FeedView { messages: old(self)@.messages.push(m), ..old(self)@ }),
            final(self)@.wf(),
    {
        self.messages.push(m);
        proof {
            assert(self@ =~= (FeedView { messages: old(self)@.messages.push(m), ..old(self)@ }));
        }
    }

    /// Submits a new limit order: refused if `symbol` is not a listed pair, or
    /// else if the price or quantity is zero; otherwise it is assigned the next
    /// id and published. Returns the id.
    pub fn submit_order(
        &mut self,
        account: AccountId,
        symbol: String,
        side: Side,
        price: Price,
        quantity: Quantity,
        timestamp: u64,
    ) -> (r: Result<OrderId, SubmitError>)
        requires
            old(self)@.wf(),
            is_listed(symbol@) && price > 0 && quantity > 0 ==> old(self)@.next_id < u64::MAX,
        ensures
            final(self)@.wf(),
            !is_listed(symbol@) ==> r == Err::<OrderId, SubmitError>(SubmitError::UnknownSymbol)
                && final(self)@ == old(self)@,
            is_listed(symbol@) && (price == 0 || quantity == 0) ==> r == Err::<OrderId, SubmitError>(
                SubmitError::NotPositive,
            ) && final(self)@ == old(self)@,
            is_listed(symbol@) && price > 0 && quantity > 0 ==> {
                &&& r == Ok::<OrderId, SubmitError>(old(self)@.next_id)
                &&& final(self)@ == (FeedView {
                    messages: old(self)@.messages.push(
                        OrderMessage::New {
                            id: old(self)@.next_id,
                            timestamp,
                            account,
                            symbol,
                            side,
                            price,
                            quantity,
                        },
                    ),
                    next_id: (old(self)@.next_id + 1) as u64,
                    ..old(self)@
                })
            },
    {
        if !is_listed_symbol(symbol.as_str()) {
            return Err(SubmitError::UnknownSymbol);
        }
        if price == 0 || quantity == 0 {
            return Err(SubmitError::NotPositive);
        }
        let id = self.next_id;
        self.next_id = self.next_id + 1;
        self.publish(OrderMessage::New { id, timestamp, account, symbol, side, price, quantity });
        Ok(id)
    }

    /// Submits a cancel of `target_id`; the feed does not check the target.
    /// Returns the id assigned to the cancel.
    pub fn submit_cancel(&mut self, account: AccountId, target_id: OrderId, timestamp: u64) -> (r: OrderId)
        requires
            old(self)@.wf(),
            old(self)@.next_id < u64::MAX,
        ensures
            final(self)@.wf(),
            r == old(self)@.next_id,
            final(self)@ == (FeedView {
                messages: old(self)@.messages.push(
                    OrderMessage::Cancel { id: old(self)@.next_id, timestamp, account, target_id },
                ),
                next_id: (old(self)@.next_id + 1) as u64,
                ..old(self)@
            }),
    {
        let id = self.next_id;
        self.next_id = self.next_id + 1;
        self.publish(OrderMessage::Cancel { id, timestamp, account, target_id });
        id
    }

    /// Feed messages: with `n`, the last `n` messages; otherwise those with an
    /// id strictly greater than `since` (0 when absent), in feed order.
    pub fn get_orders(&self, since: Option<OrderId>, n: Option<usize>) -> (r: Vec<OrderMessage>)
        requires
            self@.wf(),
        ensures
            match n {
                Some(n) => r@ == self@.messages.skip(
                    if n < self@.messages.len() {
                        self@.messages.len() - n
                    } else {
                        0
                    },
                ),
                None => {
                    let s = match since {
                        Some(s) => s,
                        None => 0,
                    };
                    &&& r@ == self@.messages.skip(count_up_to(self@.messages, s))
                    &&& forall|i: int| 0 <= i < r@.len() ==> (#[trigger] r@[i]).spec_id() > s
                    &&& forall|i: int|
                        0 <= i < self@.messages.len() && (#[trigger] self@.messages[i]).spec_id() > s
                            ==> r@.contains(self@.messages[i])
                },
            },
    {
        let len = self.messages.len();
        let start = match n {
            Some(n) => if n < len {
                len - n
            } else {
                0
            },
            None => {
                let s = match since {
                    Some(s) => s,
                    None => 0,
                };
                self.partition_point(s)
            },
        };
        let mut out: Vec<OrderMessage> = Vec::new();
        let mut i: usize = start;
        while i < len
            invariant
                start <= i <= len,
                len == self.messages@.len(),
                out@ == self.messages@.subrange(start as int, i as int),
            decreases len - i,
        {
            out.push(self.messages[i].clone());
            proof {
                assert(self.messages@.subrange(start as int, i as int + 1) == self.messages@.subrange(
                    start as int,
                    i as int,
                ).push(self.messages@[i as int]));
            }
            i = i + 1;
        }
        proof {
            assert(out@ == self.messages@.skip(start as int));
            if n is None {
                let s = match since {
                    Some(s) => s,
                    None => 0,
                };
                lemma_count_up_to(self.messages@, s);
                assert forall|k: int|
                    0 <= k < self.messages@.len() && (#[trigger] self.messages@[k]).spec_id() > s implies out@.contains(
                    self.messages@[k],
                ) by {
                    assert(out@[k - start] == self.messages@[k]);
                }
            }
        }
        out
    }

    /// Number of messages with id at most `since`, by binary search.
    fn partition_point(&self, since: OrderId) -> (p: usize)
        requires
            self@.wf(),
        ensures
            p == count_up_to(self@.messages, since),
            p <= self@.messages.len(),
    {
        let ghost ms = self.messages@;
        proof {
            lemma_count_up_to(ms, since);
        }
        let mut lo: usize = 0;
        let mut hi: usize = self.messages.len();
        while lo < hi
            invariant
                lo <= hi <= ms.len(),
                ms == self.messages@,
                ids_increasing(ms),
                forall|i: int| 0 <= i < lo ==> (#[trigger] ms[i]).spec_id() <= since,
                forall|i: int| hi <= i < ms.len() ==> (#[trigger] ms[i]).spec_id() > since,
            decreases hi - lo,
        {
            let mid = lo + (hi - lo) / 2;
            if self.messages[mid].id() <= since {
                assert forall|i: int| 0 <= i < mid + 1 implies (#[trigger] ms[i]).spec_id() <= since by {
                    if i < mid {
                        assert(ms[i].spec_id() < ms[mid as int].spec_id());
                    }
                }
                lo = mid + 1;
            } else {
                assert forall|i: int| mid <= i < ms.len() implies (#[trigger] ms[i]).spec_id() > since by {
                    if i > mid {
                        assert(ms[mid as int].spec_id() < ms[i].spec_id());
                    }
                }
                hi = mid;
            }
        }
        let ghost c = count_up_to(ms, since);
        assert(lo == c) by {
            if lo < c {
                assert(ms[lo as int].spec_id() <= since);
            } else if lo > c {
                assert(ms[c].spec_id() <= since);
            }
        }
        lo
    }
}

/// The names of the listed trading pairs.
pub fn symbol_names() -> (r: Vec<String>)
    ensures
        r@.len() == SYMBOL_COUNT,
        forall|i: int| 0 <= i < SYMBOL_COUNT ==> (#[trigger] r@[i])@ == symbol_name(i),
{
    let mut out: Vec<String> = Vec::new();
    let mut i: usize = 0;
    while i < SYMBOL_COUNT
        invariant
            i <= SYMBOL_COUNT,
            out@.len() == i,
            forall|j: int| 0 <= j < i ==> (#[trigger] out@[j])@ == symbol_name(j),
        decreases SYMBOL_COUNT - i,
    {
        out.push(listed_symbol(i).to_owned());
        i = i + 1;
    }
    out
}

} // verus!
