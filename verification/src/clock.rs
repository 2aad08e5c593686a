//! The wall clock, in whole seconds since the epoch, and as a time of day.

use crate::numerals;
use crate::numerals::push_two_digits;
use crate::text::string_of;
use std::time::{Duration, SystemTime, SystemTimeError};
use vstd::prelude::*;

verus! {

/// An instant of the system clock.
#[verifier::external_type_specification]
#[verifier::external_body]
pub struct ExSystemTime(SystemTime);

/// The clock stands before the instant that it was compared with.
#[verifier::external_type_specification]
#[verifier::external_body]
pub struct ExSystemTimeError(SystemTimeError);

/// `SystemTime::now` reads the clock. Nothing is claimed of what it shows.
pub assume_specification[ SystemTime::now ]() -> (res: SystemTime)
;

/// `SystemTime::duration_since` measures from an earlier instant. Nothing is
/// claimed of the span, nor of when it fails.
pub assume_specification[ SystemTime::duration_since ](
    t: &SystemTime,
    earlier: SystemTime,
) -> (res: Result<Duration, SystemTimeError>)
;

/// `Duration::as_secs` gives the whole seconds of a span. Nothing is claimed
/// of the number.
pub assume_specification[ Duration::as_secs ](d: &Duration) -> (res: u64)
;

/// `SystemTime::UNIX_EPOCH`, the first instant of 1970 in UTC. Nothing is
/// claimed of it.
#[verifier::external_body]
fn unix_epoch() -> SystemTime {
    SystemTime::UNIX_EPOCH
}

/// Seconds since the epoch by the span that the clock shows: none where it
/// stands before the epoch, which counts as zero.
pub fn epoch_of(span: Option<u64>) -> (res: u64)
    ensures
        res == (match span {
            Some(secs) => secs,
            None => 0,
        }),
{
    match span {
        Some(secs) => secs,
        None => 0,
    }
}

/// Seconds since the epoch, zero where the clock stands before it.
pub fn now_epoch() -> u64 {
    match SystemTime::now().duration_since(unix_epoch()) {
        Ok(d) => epoch_of(Some(d.as_secs())),
        Err(_) => epoch_of(None),
    }
}

/// How far the dashboard's clock is ahead of UTC, in seconds.
pub const UTC_OFFSET_SECS: u64 = 25200;

/// The time of day at `secs` seconds since the epoch, as `HH:MM:SS` in the
/// dashboard's time zone.
pub open spec fn time_of_day(secs: nat) -> Seq<char> {
    let local = secs + UTC_OFFSET_SECS as nat;
    numerals::two_digits((local / 3600) % 24) + seq![':'] + numerals::two_digits((local / 60) % 60) + seq![':']
        + numerals::two_digits(local % 60)
}

/// Renders an instant as a time of day.
pub fn clock_str(secs: u64) -> (res: String)
    ensures
        res@ == time_of_day(secs as nat),
{
    let local: u128 = secs as u128 + UTC_OFFSET_SECS as u128;
    let h: u64 = ((local / 3600) % 24) as u64;
    let m: u64 = ((local / 60) % 60) as u64;
    let s: u64 = (local % 60) as u64;
    let mut out: Vec<char> = Vec::new();
    push_two_digits(&mut out, h);
    out.push(':');
    push_two_digits(&mut out, m);
    out.push(':');
    push_two_digits(&mut out, s);
    proof {
        assert(out@ =~= time_of_day(secs as nat));
    }
    string_of(&out)
}

/// The present time of day.
pub fn now_str() -> (res: String)
    ensures
        exists|secs: u64| res@ == #[trigger] time_of_day(secs as nat),
{
    clock_str(now_epoch())
}

/// A time of day always has the shape `HH:MM:SS`, and comes round after a day.
pub proof fn law_time_of_day_shape(secs: nat)
    ensures
        time_of_day(secs).len() == 8,
        time_of_day(secs)[2] == ':',
        time_of_day(secs)[5] == ':',
        time_of_day(secs + 86400) == time_of_day(secs),
{
    let local = secs + UTC_OFFSET_SECS as nat;
    lemma_next_day(local);
    assert((local / 3600) % 24 < 100 && (local / 60) % 60 < 100 && local % 60 < 100);
    lemma_joined_shape(
        numerals::two_digits((local / 3600) % 24),
        numerals::two_digits((local / 60) % 60),
        numerals::two_digits(local % 60),
    );
    lemma_two_digits_len((local / 3600) % 24);
    lemma_two_digits_len((local / 60) % 60);
    lemma_two_digits_len(local % 60);
    assert(secs + 86400 + UTC_OFFSET_SECS as nat == local + 86400);
}

/// A day later the clock shows the same hour, minute and second.
proof fn lemma_next_day(local: nat)
    ensures
        ((local + 86400) / 3600) % 24 == (local / 3600) % 24,
        ((local + 86400) / 60) % 60 == (local / 60) % 60,
        (local + 86400) % 60 == local % 60,
{
    assert((local + 86400) / 3600 == local / 3600 + 24);
    assert((local + 86400) / 60 == local / 60 + 1440);
}

proof fn lemma_joined_shape(h: Seq<char>, m: Seq<char>, s: Seq<char>)
    ensures
        h.len() == 2 && m.len() == 2 && s.len() == 2 ==> {
            let t = h + seq![':'] + m + seq![':'] + s;
            t.len() == 8 && t[2] == ':' && t[5] == ':'
        },
{
}

proof fn lemma_two_digits_len(n: nat)
    requires
        n < 100,
    ensures
        numerals::two_digits(n).len() == 2,
{
    if n >= 10 {
        assert(n / 10 < 10);
        reveal_with_fuel(numerals::decimal, 2);
    }
}

/// The time of day reads back: its hours, minutes and seconds are those that have
/// passed since midnight, seven hours ahead of UTC.
pub proof fn law_time_reads_back(secs: nat)
    ensures
        ({
            let t = time_of_day(secs);
            let h = (t[0] as int - 48) * 10 + (t[1] as int - 48);
            let m = (t[3] as int - 48) * 10 + (t[4] as int - 48);
            let s = (t[6] as int - 48) * 10 + (t[7] as int - 48);
            &&& 0 <= h < 24
            &&& 0 <= m < 60
            &&& 0 <= s < 60
            &&& h * 3600 + m * 60 + s == (secs + 25200) % 86400
        }),
{
    let local = secs + 25200;
    let h = (local / 3600) % 24;
    let m = (local / 60) % 60;
    let s = local % 60;
    assert(UTC_OFFSET_SECS as nat == 25200);
    numerals::law_two_digits(h);
    numerals::law_two_digits(m);
    numerals::law_two_digits(s);
    lemma_joined_digits(numerals::two_digits(h), numerals::two_digits(m), numerals::two_digits(s));
    lemma_parts_of_day(local);
}

proof fn lemma_joined_digits(h: Seq<char>, m: Seq<char>, s: Seq<char>)
    requires
        h.len() == 2,
        m.len() == 2,
        s.len() == 2,
    ensures
        ({
            let t = h + seq![':'] + m + seq![':'] + s;
            t[0] == h[0] && t[1] == h[1] && t[3] == m[0] && t[4] == m[1] && t[6] == s[0] && t[7]
                == s[1]
        }),
{
}

proof fn lemma_parts_of_day(local: nat)
    ensures
        ((local / 3600) % 24) * 3600 + ((local / 60) % 60) * 60 + local % 60 == local % 86400,
{
    let d = local / 86400;
    let r = local % 86400;
    assert(local == 86400 * d + r);
    assert(local / 3600 == 24 * d + r / 3600);
    assert(local / 60 == 1440 * d + r / 60);
    assert((24 * d + r / 3600) % 24 == r / 3600);
    assert(r / 60 == 60 * (r / 3600) + (r % 3600) / 60);
    assert((1440 * d + r / 60) % 60 == (r % 3600) / 60);
    assert(local % 60 == r % 60);
}

}
