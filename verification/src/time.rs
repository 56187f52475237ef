//! Human-readable rendering of a timestamp adjustment.
//!
//! A `TimeDelta` holds the original instant (epoch seconds and fixed UTC
//! offset) and the adjustment in seconds; it renders as a signed
//! minutes:seconds figure followed by the shifted instant.

use vstd::prelude::*;
use chrono::TimeZone;
use crate::hash::{digit_str, hex_digit};

verus! {

/// The decimal rendering of a natural number, as characters.
pub open spec fn dec_chars(n: nat) -> Seq<char>
    decreases n,
{
    if n < 10 {
        seq![hex_digit(n as int)]
    } else {
        dec_chars(n / 10).push(hex_digit((n % 10) as int))
    }
}

/// Append the decimal rendering of `n` to `out`.
fn append_decimal_chars(out: &mut String, n: u64)
    ensures
        final(out)@ == old(out)@ + dec_chars(n as nat),
    decreases n,
{
    if n < 10 {
        out.append(digit_str(n as u8));
        assert(out@ =~= old(out)@ + dec_chars(n as nat));
    } else {
        append_decimal_chars(out, n / 10);
        out.append(digit_str((n % 10) as u8));
        assert(out@ =~= old(out)@ + dec_chars(n as nat));
    }
}

/// The RFC 2822 rendering of an instant: epoch seconds together with a fixed
/// UTC offset in seconds.
pub uninterp spec fn rfc2822_of(epoch: int, tz_secs: int) -> Seq<char>;

/// Relies on chrono: `FixedOffset::east_opt`, `TimeZone::timestamp` and
/// `DateTime::to_rfc2822`.  The rendered text is a function of the instant
/// and the offset alone.  The bounds keep every call inside chrono's
/// domain: the offset within a day, and the shifted local instant within
/// the four-digit years that RFC 2822 can carry.
#[verifier::external_body]
fn rfc2822_string(epoch: i64, tz_secs: i32) -> (r: String)
    requires
        -86400 < tz_secs < 86400,
        0 <= epoch + tz_secs <= 200_000_000_000,
    ensures
        r@ == rfc2822_of(epoch as int, tz_secs as int),
{
    let off = chrono::FixedOffset::east_opt(tz_secs).unwrap();
    off.timestamp(epoch, 0).to_rfc2822()
}

/// What a `TimeDelta` stands for.
pub struct TimeDeltaView {
    pub epoch: int,
    pub tz_secs: int,
    pub diff_secs: int,
}

/// A timestamp adjustment against its original instant.
pub struct TimeDelta {
    epoch: i64,
    tz_secs: i32,
    diff_secs: i64,
}

impl View for TimeDelta {
    type V = TimeDeltaView;

    closed spec fn view(&self) -> TimeDeltaView {
        TimeDeltaView {
            epoch: self.epoch as int,
            tz_secs: self.tz_secs as int,
            diff_secs: self.diff_secs as int,
        }
    }
}

/// The display form of a delta: sign, minutes (two columns, space padded),
/// a colon, seconds (two digits), then the shifted instant in parentheses.
pub open spec fn delta_display(v: TimeDeltaView) -> Seq<char> {
    let a = if v.diff_secs < 0 {
        -v.diff_secs
    } else {
        v.diff_secs
    };
    let m = a / 60;
    let s = a % 60;
    (if v.diff_secs < 0 {
        seq!['-']
    } else {
        seq!['+']
    }) + (if m < 10 {
        seq![' '] + dec_chars(m as nat)
    } else {
        dec_chars(m as nat)
    }) + seq![':'] + seq![hex_digit(s / 10), hex_digit(s % 10)] + seq![' ', '('] + rfc2822_of(
        v.epoch + v.diff_secs,
        v.tz_secs,
    ) + seq![')']
}

impl TimeDelta {
    /// Record an adjustment of `diff_secs` seconds against the instant
    /// `epoch` in the zone `tz_secs` east of UTC.
    pub fn new(epoch: i64, tz_secs: i32, diff_secs: i64) -> (t: TimeDelta)
        ensures
            t@ == (TimeDeltaView { epoch: epoch as int, tz_secs: tz_secs as int, diff_secs: diff_secs as int }),
    {
        TimeDelta { epoch, tz_secs, diff_secs }
    }

    /// Render the delta.  The bounds keep the shifted instant inside the
    /// range the calendar rendering accepts.
    pub fn display_string(&self) -> (r: String)
        requires
            -86400 < self@.tz_secs < 86400,
            0 <= self@.epoch + self@.diff_secs + self@.tz_secs <= 200_000_000_000,
            self@.diff_secs > i64::MIN,
    ensures
            r@ == delta_display(self@),
    {
        let mut out = String::new();
        proof {
            reveal_strlit("-");
            reveal_strlit("+");
            reveal_strlit(" ");
            reveal_strlit(":");
            reveal_strlit(" (");
            reveal_strlit(")");
        }
        let a: i64 = if self.diff_secs < 0 {
            out.append("-");
            -self.diff_secs
        } else {
            out.append("+");
            self.diff_secs
        };
        let m: i64 = a / 60;
        let s: i64 = a % 60;
        if m < 10 {
            out.append(" ");
        }
        append_decimal_chars(&mut out, m as u64);
        out.append(":");
        out.append(digit_str((s / 10) as u8));
        out.append(digit_str((s % 10) as u8));
        out.append(" (");
        let shifted = self.epoch + self.diff_secs;
        out.append(rfc2822_string(shifted, self.tz_secs).as_str());
        out.append(")");
        proof {
            assert(out@ =~= delta_display(self@));
        }
        out
    }
}

} // verus!
