//! The feed consumer's bookkeeping: where to poll, which message ids it has
//! seen, how many polls in a row failed, and the hand-over of polled messages
//! to the matching engine. The polling itself (HTTP, sleeping, logging) is done
//! by the caller, which reports each outcome here.
use crate::engine::matcher::{applied_in_order, message_applied, MatchingEngine};
use crate::engine::types::Trade;
use crate::feed::{OrderId, OrderMessage};
use vstd::prelude::*;
use vstd::string::*;

verus! {

/// `s` without its trailing `/` characters.
pub open spec fn trim_end_slashes(s: Seq<char>) -> Seq<char>
    decreases s.len(),
{
    if s.len() > 0 && s.last() == '/' {
        trim_end_slashes(s.drop_last())
    } else {
        s
    }
}

/// The decimal digit character for `d < 10`.
pub open spec fn digit_char(d: int) -> char {
    ('0' as int + d) as char
}

/// The decimal representation of `n`, without leading zeros.
pub open spec fn decimal(n: nat) -> Seq<char>
    decreases n,
{
    if n < 10 {
        seq![digit_char(n as int)]
    } else {
        decimal(n / 10) + seq![digit_char((n % 10) as int)]
    }
}

/// The highest id among `last` and the ids of `ms`.
pub open spec fn highest_id(last: OrderId, ms: Seq<OrderMessage>) -> OrderId
    decreases ms.len(),
{
    if ms.len() == 0 {
        last
    } else {
        let h = highest_id(last, ms.drop_last());
        if ms.last().spec_id() > h {
            ms.last().spec_id()
        } else {
            h
        }
    }
}

/// The last seen id never goes back: after handing over messages it is at least
/// what it was and at least the id of every message handed over.
pub proof fn law_last_seen_never_decreases(last: OrderId, ms: Seq<OrderMessage>)
    ensures
        highest_id(last, ms) >= last,
        forall|i: int| 0 <= i < ms.len() ==> highest_id(last, ms) >= (#[trigger] ms[i]).spec_id(),
    decreases ms.len(),
{
    if ms.len() > 0 {
        law_last_seen_never_decreases(last, ms.drop_last());
        assert forall|i: int| 0 <= i < ms.len() implies highest_id(last, ms) >= (#[trigger] ms[i]).spec_id() by {
            if i < ms.len() - 1 {
                assert(ms.drop_last()[i] == ms[i]);
            }
        }
    }
}

/// Polls the order feed on behalf of a matching engine.
pub struct FeedConsumer {
    feed_url: String,
    poll_interval_ms: u64,
    last_seen_id: OrderId,
    failure_count: u32,
}

impl FeedConsumer {
    /// The feed's base URL.
    pub closed spec fn spec_feed_url(&self) -> Seq<char> {
        self.feed_url@
    }

    /// The pause between two polls, in milliseconds.
    pub closed spec fn spec_poll_interval_ms(&self) -> u64 {
        self.poll_interval_ms
    }

    /// The highest message id handed to the engine so far (0 before any).
    pub closed spec fn spec_last_seen_id(&self) -> OrderId {
        self.last_seen_id
    }

    /// The number of polls that failed since the last one that succeeded.
    pub closed spec fn spec_failure_count(&self) -> u32 {
        self.failure_count
    }

    /// A consumer of the feed at `feed_url` that polls every `poll_interval_ms`
    /// milliseconds and has seen no message yet.
    pub fn new(feed_url: String, poll_interval_ms: u64) -> (c: Self)
        ensures
            c.spec_feed_url() == feed_url@,
            c.spec_poll_interval_ms() == poll_interval_ms,
            c.spec_last_seen_id() == 0,
            c.spec_failure_count() == 0,
    {
        FeedConsumer { feed_url, poll_interval_ms, last_seen_id: 0, failure_count: 0 }
    }

    /// The pause between two polls, in milliseconds.
    pub fn poll_interval_ms(&self) -> (r: u64)
        ensures
            r == self.spec_poll_interval_ms(),
    {
        self.poll_interval_ms
    }

    /// The highest message id handed to the engine so far.
    pub fn last_seen_id(&self) -> (r: OrderId)
        ensures
            r == self.spec_last_seen_id(),
    {
        self.last_seen_id
    }

    /// The number of polls that failed since the last one that succeeded.
    pub fn failure_count(&self) -> (r: u32)
        ensures
            r == self.spec_failure_count(),
    {
        self.failure_count
    }

    /// The feed's `orders` endpoint: the base URL without trailing slashes,
    /// followed by `/orders`.
    pub fn orders_url(&self) -> (r: String)
        ensures
            r@ == trim_end_slashes(self.spec_feed_url()) + "/orders"@,
    {
        let base = self.feed_url.as_str();
        let mut end: usize = base.unicode_len();
        assert(base@.subrange(0, end as int) =~= base@);
        while end > 0 && base.get_char(end - 1) == '/'
            invariant
                end <= base@.len(),
                trim_end_slashes(base@) == trim_end_slashes(base@.subrange(0, end as int)),
            decreases end,
        {
            proof {
                let p = base@.subrange(0, end as int);
                assert(p.drop_last() =~= base@.subrange(0, end - 1));
            }
            end = end - 1;
        }
        proof {
            let p = base@.subrange(0, end as int);
            assert(trim_end_slashes(p) == p);
        }
        let mut url = String::from_str(base.substring_char(0, end));
        url.append("/orders");
        url
    }

    /// The URL of the next poll: the `orders` endpoint asking for the messages
    /// after the last one seen, `<orders_url>?since=<last_seen_id>`.
    pub fn poll_url(&self) -> (r: String)
        ensures
            r@ == trim_end_slashes(self.spec_feed_url()) + "/orders"@ + "?since="@ + decimal(
                self.spec_last_seen_id() as nat,
            ),
    {
        let mut url = self.orders_url();
        url.append("?since=");
        append_decimal(&mut url, self.last_seen_id);
        url
    }

    /// Records a successful poll. Returns how many polls had failed before it
    /// (0 when the previous poll succeeded too) and clears that count.
    pub fn record_success(&mut self) -> (r: u32)
        ensures
            r == old(self).spec_failure_count(),
            final(self).spec_failure_count() == 0,
            final(self).spec_feed_url() == old(self).spec_feed_url(),
            final(self).spec_poll_interval_ms() == old(self).spec_poll_interval_ms(),
            final(self).spec_last_seen_id() == old(self).spec_last_seen_id(),
    {
        let n = self.failure_count;
        self.failure_count = 0;
        n
    }

    /// Records a failed poll and returns the number of polls that failed in a
    /// row, this one included (the count stops at `u32::MAX`).
    pub fn record_failure(&mut self) -> (r: u32)
        ensures
            r == final(self).spec_failure_count(),
            final(self).spec_failure_count() == if old(self).spec_failure_count() == u32::MAX {
                u32::MAX as int
            } else {
                old(self).spec_failure_count() + 1
            },
            final(self).spec_feed_url() == old(self).spec_feed_url(),
            final(self).spec_poll_interval_ms() == old(self).spec_poll_interval_ms(),
            final(self).spec_last_seen_id() == old(self).spec_last_seen_id(),
    {
        self.failure_count = self.failure_count.saturating_add(1);
        self.failure_count
    }

    /// Hands polled messages to the engine in order and returns how many it
    /// processed: all of them, unless the engine's counters run out of room
    /// first. The last seen id becomes the highest id processed, if higher.
    pub fn deliver(&mut self, engine: &mut MatchingEngine, messages: Vec<OrderMessage>) -> (processed: usize)
        requires
            old(engine).wf(),
        ensures
            final(engine).wf(),
            processed <= messages@.len(),
            processed < messages@.len() ==> !final(engine).has_room(),
            exists|states: Seq<MatchingEngine>, trades: Seq<Seq<Trade>>|
                {
                    &&& applied_in_order(states, trades, messages@.take(processed as int))
                    &&& states[0] == *old(engine)
                    &&& states.last() == *final(engine)
                },
            final(self).spec_last_seen_id() == highest_id(
                old(self).spec_last_seen_id(),
                messages@.take(processed as int),
            ),
            final(self).spec_failure_count() == old(self).spec_failure_count(),
            final(self).spec_feed_url() == old(self).spec_feed_url(),
            final(self).spec_poll_interval_ms() == old(self).spec_poll_interval_ms(),
    {
        let ghost ms = messages@;
        let ghost mut states: Seq<MatchingEngine> = seq![*engine];
        let ghost mut trade_log: Seq<Seq<Trade>> = Seq::empty();
        let mut i: usize = 0;
        while i < messages.len()
            invariant_except_break
                i <= ms.len(),
                ms == messages@,
                engine.wf(),
                applied_in_order(states, trade_log, ms.take(i as int)),
                states[0] == *old(engine),
                states.last() == *engine,
                self.last_seen_id == highest_id(old(self).last_seen_id, ms.take(i as int)),
                self.failure_count == old(self).failure_count,
                self.feed_url == old(self).feed_url,
                self.poll_interval_ms == old(self).poll_interval_ms,
            ensures
                i <= ms.len(),
                engine.wf(),
                i < ms.len() ==> !engine.has_room(),
                applied_in_order(states, trade_log, ms.take(i as int)),
                states[0] == *old(engine),
                states.last() == *engine,
                self.last_seen_id == highest_id(old(self).last_seen_id, ms.take(i as int)),
                self.failure_count == old(self).failure_count,
                self.feed_url == old(self).feed_url,
                self.poll_interval_ms == old(self).poll_interval_ms,
            decreases ms.len() - i,
        {
            if !engine.has_room_for_message() {
                break;
            }
            let m = messages[i].clone();
            let id = m.id();
            let ghost before = *engine;
            let trades = engine.process_message(m);
            proof {
                let p = ms.take(i as int);
                let q = ms.take(i as int + 1);
                assert(q.drop_last() == p);
                assert(q.last() == ms[i as int]);
                let s2 = states.push(*engine);
                let t2 = trade_log.push(trades@);
                assert forall|j: int| 0 <= j < q.len() implies #[trigger] message_applied(
                    s2[j],
                    s2[j + 1],
                    q[j],
                    t2[j],
                ) by {
                    if j < p.len() {
                        assert(s2[j] == states[j] && s2[j + 1] == states[j + 1]);
                        assert(q[j] == p[j] && t2[j] == trade_log[j]);
                        assert(message_applied(states[j], states[j + 1], p[j], trade_log[j]));
                    } else {
                        assert(s2[j] == before);
                    }
                }
                states = s2;
                trade_log = t2;
            }
            if id > self.last_seen_id {
                self.last_seen_id = id;
            }
            i = i + 1;
        }
        i
    }
}

/// The decimal digit `d < 10` as a string.
fn digit_str(d: u64) -> (r: &'static str)
    requires
        d < 10,
    ensures
        r@ == seq![digit_char(d as int)],
{
    proof {
        reveal_strlit("0");
        reveal_strlit("1");
        reveal_strlit("2");
        reveal_strlit("3");
        reveal_strlit("4");
        reveal_strlit("5");
        reveal_strlit("6");
        reveal_strlit("7");
        reveal_strlit("8");
        reveal_strlit("9");
    }
    if d == 0 {
        "0"
    } else if d == 1 {
        "1"
    } else if d == 2 {
        "2"
    } else if d == 3 {
        "3"
    } else if d == 4 {
        "4"
    } else if d == 5 {
        "5"
    } else if d == 6 {
        "6"
    } else if d == 7 {
        "7"
    } else if d == 8 {
        "8"
    } else {
        "9"
    }
}

/// Appends the decimal representation of `n` to `s`.
fn append_decimal(s: &mut String, n: u64)
    ensures
        final(s)@ == old(s)@ + decimal(n as nat),
    decreases n,
{
    if n >= 10 {
        append_decimal(s, n / 10);
    }
    s.append(digit_str(n % 10));
    proof {
        if n >= 10 {
            assert(old(s)@ + decimal(n as nat) =~= old(s)@ + decimal((n / 10) as nat) + seq![
                digit_char((n % 10) as int),
            ]);
        }
    }
}

} // verus!
