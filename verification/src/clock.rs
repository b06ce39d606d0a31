//! Moments in time, as plain numbers, and the turn timer's arithmetic.
use vstd::prelude::*;

verus! {

/// A moment: whole seconds since the Unix epoch, and nanoseconds within that second.
#[derive(Debug, Clone, Copy, PartialEq, Eq, Structural)]
pub struct Moment {
    pub secs: i64,
    pub nanos: u32,
}

/// Integer division rounding towards zero, as Rust's `/` on integers does.
pub open spec fn trunc_div(a: int, b: int) -> int {
    if a >= 0 && b > 0 {
        a / b
    } else if a < 0 && b < 0 {
        (-a) / (-b)
    } else if a >= 0 && b < 0 {
        -(a / (-b))
    } else {
        -((-a) / b)
    }
}

/// Nanoseconds from `from` to `to` (negative when `to` is earlier).
pub open spec fn elapsed_nanos(from: Moment, to: Moment) -> int {
    (to.secs - from.secs) * 1_000_000_000 + (to.nanos - from.nanos)
}

/// Whole seconds from `from` to `to`, rounded towards zero.
pub open spec fn elapsed_seconds(from: Moment, to: Moment) -> int {
    trunc_div(elapsed_nanos(from, to), 1_000_000_000)
}

/// `a / b` rounding towards zero, for `b != 0`.
pub fn trunc_div_i128(a: i128, b: i128) -> (r: i128)
    requires
        b != 0,
        -0x1_0000_0000_0000_0000_0000_0000_0000 < a < 0x1_0000_0000_0000_0000_0000_0000_0000,
        -0x1_0000_0000_0000_0000_0000_0000_0000 < b < 0x1_0000_0000_0000_0000_0000_0000_0000,
    ensures
        r == trunc_div(a as int, b as int),
        -0x1_0000_0000_0000_0000_0000_0000_0000 < r < 0x1_0000_0000_0000_0000_0000_0000_0000,
{
    let na: i128 = if a < 0 {
        -a
    } else {
        a
    };
    let nb: i128 = if b < 0 {
        -b
    } else {
        b
    };
    let q = na / nb;
    assert(q <= na) by (nonlinear_arith)
        requires
            na >= 0,
            nb >= 1,
            q == na / nb,
    ;
    if (a >= 0) == (b > 0) {
        q
    } else {
        -q
    }
}

/// Whole seconds from `from` to `to` (see `elapsed_seconds`).
pub fn seconds_between(from: Moment, to: Moment) -> (r: i128)
    ensures
        r == elapsed_seconds(from, to),
        -0x1_0000_0000_0000_0000_0000_0000 < r < 0x1_0000_0000_0000_0000_0000_0000,
{
    let ds: i128 = to.secs as i128 - from.secs as i128;
    let dn: i128 = to.nanos as i128 - from.nanos as i128;
    let total: i128 = ds * 1_000_000_000 + dn;
    let r = trunc_div_i128(total, 1_000_000_000);
    assert(-0x1_0000_0000_0000_0000_0000_0000 < r < 0x1_0000_0000_0000_0000_0000_0000) by {
        if total >= 0 {
            assert(total / 1_000_000_000 <= total / 1_000_000_000);
        }
    }
    r
}

/// The current moment of the system clock, read with `chrono::Utc::now()`
/// and split with `DateTime::timestamp` and `DateTime::timestamp_subsec_nanos`.
/// `Utc::now` builds its value from the time since the Unix epoch (it panics
/// when the clock is set before 1970), so the seconds are not negative and
/// the nanoseconds stay below one second. Nothing else is stated: the value
/// depends on the clock.
#[verifier::external_body]
pub fn current_moment() -> (r: Moment)
    ensures
        r.secs >= 0,
        r.nanos < 1_000_000_000,
{
    let now = chrono::Utc::now();
    Moment { secs: now.timestamp(), nanos: now.timestamp_subsec_nanos() }
}

} // verus!
