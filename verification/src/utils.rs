use vstd::prelude::*;
use crate::digits::{digit_char, digit_to_char};

verus! {

/// The recency window in seconds: a message stamped more than this far in
/// the past is stale and silently dropped.
pub const RECENCY_WINDOW_SECS: u64 = 10;

/// Whether a message stamped `timestamp` still counts as fresh at `now`.
pub open spec fn fresh_at(now: u64, timestamp: u64) -> bool {
    now <= timestamp + RECENCY_WINDOW_SECS
}

/// Relies on str::chars (through collect): yields exactly the characters of
/// the string, in order.
#[verifier::external_body]
pub(crate) fn str_chars(s: &str) -> (r: Vec<char>)
    ensures
        r@ == s@,
{
    s.chars().collect()
}

/// Relies on String's FromIterator over char (through collect): builds the
/// string of exactly these characters, in order.
#[verifier::external_body]
pub(crate) fn chars_string(v: &Vec<char>) -> (r: String)
    ensures
        r@ == v@,
{
    v.iter().collect()
}

/// Relies on std::time::SystemTime::now and duration_since: the system
/// clock's seconds since the Unix epoch, or zero if the clock reads earlier
/// than the epoch. Nothing is assumed of the value: callers hand it to
/// verified logic as an argument.
#[verifier::external_body]
pub fn current_timestamp() -> u64 {
    match std::time::SystemTime::now().duration_since(std::time::UNIX_EPOCH) {
        Ok(d) => d.as_secs(),
        Err(_) => 0,
    }
}

/// Whether `timestamp` lies within the recency window of the instant `now`.
pub fn is_recent_at(now: u64, timestamp: u64) -> (r: bool)
    ensures
        r == fresh_at(now, timestamp),
{
    if now <= timestamp {
        true
    } else {
        now - timestamp <= RECENCY_WINDOW_SECS
    }
}

/// Whether `timestamp` lies within the recency window of the clock's
/// current reading. The reading itself is unconstrained (it is the system
/// clock), so the result is the window test on some reading; the test on a
/// given reading is `is_recent_at`. A timestamp too near the top of the
/// range is fresh whatever the clock reads.
pub fn is_recent(timestamp: u64) -> (r: bool)
    ensures
        exists|now: u64| r == fresh_at(now, timestamp),
        timestamp > u64::MAX - RECENCY_WINDOW_SECS ==> r,
{
    let now = current_timestamp();
    let r = is_recent_at(now, timestamp);
    proof {
        assert(r == fresh_at(now, timestamp));
    }
    r
}

/// Two zero-padded decimal digits, for a value below one hundred.
pub open spec fn spec_two_digits(n: nat) -> Seq<char>
    recommends
        n < 100,
{
    seq![digit_char(n / 10), digit_char(n % 10)]
}

/// The `HH:MM:SS` rendering of a number of elapsed seconds, with the hours
/// wrapped at twenty-four.
pub open spec fn spec_clock(secs: nat) -> Seq<char> {
    spec_two_digits((secs / 3600) % 24) + seq![':'] + spec_two_digits((secs / 60) % 60) + seq![':']
        + spec_two_digits(secs % 60)
}

/// Format elapsed seconds as `HH:MM:SS` for the log prefix.
pub fn format_elapsed(secs: u64) -> (r: String)
    ensures
        r@ == spec_clock(secs as nat),
{
    let h: u64 = (secs / 3600) % 24;
    let m: u64 = (secs / 60) % 60;
    let s: u64 = secs % 60;
    let mut out: Vec<char> = Vec::new();
    out.push(digit_to_char((h / 10) as u8));
    out.push(digit_to_char((h % 10) as u8));
    out.push(':');
    out.push(digit_to_char((m / 10) as u8));
    out.push(digit_to_char((m % 10) as u8));
    out.push(':');
    out.push(digit_to_char((s / 10) as u8));
    out.push(digit_to_char((s % 10) as u8));
    proof {
        assert(out@ =~= spec_clock(secs as nat));
    }
    chars_string(&out)
}

} // verus!
