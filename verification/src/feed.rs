//! The order feed: the messages it publishes, the listed trading pairs, and
//! the feed's state (see `state`).
use crate::engine::types::Price;
use crate::text::str_equal;
use vstd::prelude::*;
use vstd::string::*;
use std::time::{Duration, SystemTime, SystemTimeError};

pub mod random;
pub mod state;

pub use state::FeedState;

verus! {

/// Number of trading pairs listed on the feed.
pub const SYMBOL_COUNT: usize = 3;

/// The name of listed trading pair `i`.
pub open spec fn symbol_name(i: int) -> Seq<char> {
    if i == 0 {
        "NEX-USDC"@
    } else if i == 1 {
        "ETH-USDC"@
    } else {
        "BTC-USDC"@
    }
}

/// The initial mid price of listed trading pair `i`, in hundredths of the quote
/// token (prices are quoted in the second token of the pair).
pub open spec fn initial_mid(i: int) -> Price {
    if i == 0 {
        1000
    } else if i == 1 {
        10000
    } else {
        100000
    }
}

/// `s` names a listed trading pair.
pub open spec fn is_listed(s: Seq<char>) -> bool {
    exists|i: int| 0 <= i < SYMBOL_COUNT && symbol_name(i) == s
}

/// The name of listed trading pair `i`.
pub fn listed_symbol(i: usize) -> (r: &'static str)
    requires
        i < SYMBOL_COUNT,
    ensures
        r@ == symbol_name(i as int),
{
    if i == 0 {
        "NEX-USDC"
    } else if i == 1 {
        "ETH-USDC"
    } else {
        "BTC-USDC"
    }
}

/// The initial mid price of listed trading pair `i`.
pub fn listed_mid(i: usize) -> (r: Price)
    requires
        i < SYMBOL_COUNT,
    ensures
        r == initial_mid(i as int),
{
    if i == 0 {
        1000
    } else if i == 1 {
        10000
    } else {
        100000
    }
}

/// Decides `is_listed`.
pub fn is_listed_symbol(s: &str) -> (r: bool)
    ensures
        r == is_listed(s@),
{
    let mut i: usize = 0;
    while i < SYMBOL_COUNT
        invariant
            i <= SYMBOL_COUNT,
            forall|j: int| 0 <= j < i ==> symbol_name(j) != s@,
        decreases SYMBOL_COUNT - i,
    {
        if str_equal(listed_symbol(i), s) {
            return true;
        }
        i = i + 1;
    }
    false
}

/// The side of an order in the market.
#[derive(Debug, Clone, Copy, PartialEq, Eq, Structural)]
pub enum Side {
    Buy,
    Sell,
}

/// Account identifiers.
pub type AccountId = u32;

/// Order / message identifiers.
pub type OrderId = u64;

/// Messages published on the order feed.
#[derive(Debug)]
pub enum OrderMessage {
    New {
        id: OrderId,
        timestamp: u64,
        account: AccountId,
        symbol: String,
        side: Side,
        price: u64,
        quantity: u64,
    },
    Cancel { id: OrderId, timestamp: u64, account: AccountId, target_id: OrderId },
}

impl Clone for OrderMessage {
    fn clone(&self) -> (r: Self)
        ensures
            r == *self,
    {
        match self {
            OrderMessage::New { id, timestamp, account, symbol, side, price, quantity } => OrderMessage::New {
                id: *id,
                timestamp: *timestamp,
                account: *account,
                symbol: symbol.clone(),
                side: *side,
                price: *price,
                quantity: *quantity,
            },
            OrderMessage::Cancel { id, timestamp, account, target_id } => OrderMessage::Cancel {
                id: *id,
                timestamp: *timestamp,
                account: *account,
                target_id: *target_id,
            },
        }
    }
}

impl OrderMessage {
    /// The message's own feed sequence id.
    pub open spec fn spec_id(&self) -> OrderId {
        match self {
            OrderMessage::New { id, .. } => *id,
            OrderMessage::Cancel { id, .. } => *id,
        }
    }

    /// Returns the message's own feed sequence ID.
    pub fn id(&self) -> (r: OrderId)
        ensures
            r == self.spec_id(),
    {
        match self {
            OrderMessage::New { id, .. } => *id,
            OrderMessage::Cancel { id, .. } => *id,
        }
    }
}

/// What `str::to_uppercase` returns for a string: the Unicode uppercase mapping
/// of its characters.
pub uninterp spec fn uppercase(s: Seq<char>) -> Seq<char>;

/// Calls `str::to_uppercase`; its result is taken to depend on the characters
/// of `s` alone (the mapping is Unicode's, not the locale's).
#[verifier::external_body]
pub(crate) fn to_uppercase(s: &str) -> (r: String)
    ensures
        r@ == uppercase(s@),
{
    s.to_uppercase()
}

/// The side named by an uppercased word: `BUY`, `BID`, `B` or `SELL`, `ASK`, `S`.
pub open spec fn side_named(u: Seq<char>) -> Option<Side> {
    if u == "BUY"@ || u == "BID"@ || u == "B"@ {
        Some(Side::Buy)
    } else if u == "SELL"@ || u == "ASK"@ || u == "S"@ {
        Some(Side::Sell)
    } else {
        None
    }
}

impl Side {
    /// The side an already uppercased word names.
    pub fn from_uppercase(u: &str) -> (r: Option<Side>)
        ensures
            r == side_named(u@),
    {
        if str_equal(u, "BUY") || str_equal(u, "BID") || str_equal(u, "B") {
            Some(Side::Buy)
        } else if str_equal(u, "SELL") || str_equal(u, "ASK") || str_equal(u, "S") {
            Some(Side::Sell)
        } else {
            None
        }
    }

    /// Parses a side, ignoring case and accepting the shorthands `BID`/`B` and
    /// `ASK`/`S`; otherwise the error says `'<s>' is not a valid side`.
    pub fn parse(s: &str) -> (r: Result<Side, String>)
        ensures
            match side_named(uppercase(s@)) {
                Some(side) => r == Ok::<Side, String>(side),
                None => r is Err && r->Err_0@ == "'"@ + s@ + "' is not a valid side"@,
            },
    {
        let u = to_uppercase(s);
        match Side::from_uppercase(u.as_str()) {
            Some(side) => Ok(side),
            None => {
                let mut msg = String::from_str("'");
                msg.append(s);
                msg.append("' is not a valid side");
                Err(msg)
            },
        }
    }
}

impl core::str::FromStr for Side {
    type Err = String;

    /// As `Side::parse`: the side named by the uppercased word, or the error
    /// `'<s>' is not a valid side`.
    fn from_str(s: &str) -> (r: Result<Side, String>)
        ensures
            match side_named(uppercase(s@)) {
                Some(side) => r == Ok::<Side, String>(side),
                None => r is Err && r->Err_0@ == "'"@ + s@ + "' is not a valid side"@,
            },
    {
        Side::parse(s)
    }
}

/// `std::time::SystemTime`, a point in time; opaque here.
#[verifier::external_type_specification]
#[verifier::external_body]
pub struct ExSystemTime(std::time::SystemTime);

/// `std::time::SystemTimeError`, a time before the reference point; opaque here.
#[verifier::external_type_specification]
#[verifier::external_body]
pub struct ExSystemTimeError(std::time::SystemTimeError);

/// Calls `std::time::SystemTime::now`, the system clock's reading. Nothing is
/// stated of it: the clock decides it.
#[verifier::external_body]
fn system_now() -> SystemTime {
    SystemTime::now()
}

/// Calls `std::time::SystemTime::duration_since` with `UNIX_EPOCH`: the time
/// elapsed since the Unix epoch, or an error for a time before it. Nothing is
/// stated of which comes out: the reading decides it.
#[verifier::external_body]
fn since_unix_epoch(t: &SystemTime) -> Result<Duration, SystemTimeError> {
    t.duration_since(std::time::UNIX_EPOCH)
}

/// Calls `std::time::Duration::as_millis`, the whole milliseconds of `d`.
/// Nothing is stated of it: `Duration` is opaque here.
#[verifier::external_body]
fn duration_millis(d: &Duration) -> u128 {
    d.as_millis()
}

/// The milliseconds reported for a clock reading: the whole milliseconds since
/// the Unix epoch truncated to 64 bits (their remainder modulo 2^64), or 0
/// when the reading is before the epoch (`None`).
pub fn millis_or_zero(ms: Option<u128>) -> (r: u64)
    ensures
        r == match ms {
            Some(m) => (m % 0x1_0000_0000_0000_0000) as u64,
            None => 0,
        },
{
    match ms {
        Some(m) => {
            assert(m as u64 == (m % 0x1_0000_0000_0000_0000) as u64) by (bit_vector);
            m as u64
        },
        None => 0,
    }
}

/// The current Unix time in milliseconds, truncated to 64 bits; 0 when the
/// system clock reads a time before the Unix epoch. The reading itself comes
/// from the clock; `millis_or_zero` turns it into the result.
pub fn now_millis() -> u64 {
    let now = system_now();
    let reading = match since_unix_epoch(&now) {
        Ok(d) => Some(duration_millis(&d)),
        Err(_) => None,
    };
    millis_or_zero(reading)
}

} // verus!
