//! Instants as whole seconds since 1970-01-01T00:00:00Z, and the month
//! boundaries at which balances are snapshotted.
//!
//! The calendar itself is chrono's. What it answers is referred to by name in
//! the contracts below: the civil date of an instant, and the instant at which
//! a civil date begins.

use crate::error::{ErrorKind, WHError};
use chrono::{Datelike, TimeZone, Timelike};
use vstd::prelude::*;
use vstd::string::{StringExecFns, StringSliceAdditionalSpecFns};

verus! {

/// The UTC civil date and time of day of an instant, as
/// `(year, month, day, seconds since midnight)`; `None` where the calendar
/// cannot represent the instant.
pub uninterp spec fn civil_of(ts: u64) -> Option<(i32, u32, u32, u32)>;

/// The instant at which the given UTC civil date begins; `None` where there is
/// no such date or it begins before 1970.
pub uninterp spec fn midnight_of(year: i32, month: u32, day: u32) -> Option<u64>;

/// `chrono::DateTime::from_timestamp` with no nanoseconds, read back through
/// `year`, `month`, `day` and `num_seconds_from_midnight`.
#[verifier::external_body]
fn civil_from_timestamp(ts: u64) -> (r: Option<(i32, u32, u32, u32)>)
    ensures
        r == civil_of(ts),
{
    let secs = i64::try_from(ts).ok()?;
    let d = chrono::DateTime::<chrono::Utc>::from_timestamp(secs, 0)?;
    Some((d.year(), d.month(), d.day(), d.num_seconds_from_midnight()))
}

/// `chrono::TimeZone::with_ymd_and_hms` on `Utc` at 00:00:00, read back
/// through `timestamp`.
#[verifier::external_body]
fn midnight_timestamp(year: i32, month: u32, day: u32) -> (r: Option<u64>)
    ensures
        r == midnight_of(year, month, day),
{
    let d = chrono::Utc.with_ymd_and_hms(year, month, day, 0, 0, 0).single()?;
    u64::try_from(d.timestamp()).ok()
}

/// The first instant of the month that holds `ts`.
pub open spec fn month_start(ts: u64) -> Option<u64> {
    match civil_of(ts) {
        Some(c) => midnight_of(c.0, c.1, 1),
        None => None,
    }
}

/// The first instant of the month after the one that holds `ts`.
pub open spec fn next_month_start(ts: u64) -> Option<u64> {
    match civil_of(ts) {
        Some(c) => if c.1 < 12 {
            midnight_of(c.0, (c.1 + 1) as u32, 1)
        } else if c.0 < i32::MAX {
            midnight_of((c.0 + 1) as i32, 1, 1)
        } else {
            None
        },
        None => None,
    }
}

/// Whether `ts` is the first instant of a month.
pub open spec fn is_month_start(ts: u64) -> bool {
    civil_of(ts) matches Some(c) && c.2 == 1 && c.3 == 0
}

/// The month boundary under which an operation dated `ts` is snapshotted: `ts`
/// itself where it is the first instant of a month, else the first instant of
/// the next month.
pub open spec fn checkpoint_date(ts: u64) -> Option<u64> {
    match civil_of(ts) {
        Some(c) => if c.2 == 1 && c.3 == 0 {
            Some(ts)
        } else {
            next_month_start(ts)
        },
        None => None,
    }
}

/// An operation dated exactly at a month boundary belongs to the checkpoint at
/// that boundary, not to the next one.
pub proof fn lemma_boundary_is_own_checkpoint(ts: u64)
    requires
        is_month_start(ts),
    ensures
        checkpoint_date(ts) == Some(ts),
{
}

fn out_of_calendar() -> (e: WHError)
    ensures
        e.kind == ErrorKind::Invalid,
{
    WHError::new(ErrorKind::Invalid, "date outside the calendar")
}

/// The first instant of the month that holds `ts`.
pub fn first_day_current_month(ts: u64) -> (r: Result<u64, WHError>)
    ensures
        r is Ok <==> month_start(ts) is Some,
        r matches Ok(v) ==> month_start(ts) == Some(v),
        r matches Err(e) ==> e.kind == ErrorKind::Invalid,
{
    match civil_from_timestamp(ts) {
        Some(c) => match midnight_timestamp(c.0, c.1, 1) {
            Some(v) => Ok(v),
            None => Err(out_of_calendar()),
        },
        None => Err(out_of_calendar()),
    }
}

/// The first instant of the month after the one that holds `ts`.
pub fn first_day_next_month(ts: u64) -> (r: Result<u64, WHError>)
    ensures
        r is Ok <==> next_month_start(ts) is Some,
        r matches Ok(v) ==> next_month_start(ts) == Some(v),
        r matches Err(e) ==> e.kind == ErrorKind::Invalid,
{
    match civil_from_timestamp(ts) {
        Some(c) => {
            let next: Option<u64> = if c.1 < 12 {
                midnight_timestamp(c.0, c.1 + 1, 1)
            } else if c.0 < i32::MAX {
                midnight_timestamp(c.0 + 1, 1, 1)
            } else {
                None
            };
            match next {
                Some(v) => Ok(v),
                None => Err(out_of_calendar()),
            }
        },
        None => Err(out_of_calendar()),
    }
}

/// The month boundary under which an operation dated `ts` is snapshotted.
pub fn next_checkpoint(ts: u64) -> (r: Result<u64, WHError>)
    ensures
        r is Ok <==> checkpoint_date(ts) is Some,
        r matches Ok(v) ==> checkpoint_date(ts) == Some(v),
        r matches Err(e) ==> e.kind == ErrorKind::Invalid,
{
    match civil_from_timestamp(ts) {
        Some(c) => if c.2 == 1 && c.3 == 0 {
            Ok(ts)
        } else {
            first_day_next_month(ts)
        },
        None => Err(out_of_calendar()),
    }
}

/// Whether the byte is a decimal digit.
pub open spec fn is_digit(b: u8) -> bool {
    0x30 <= b <= 0x39
}

/// Whether the bytes have the shape `YYYY-MM-DD`.
pub open spec fn ymd_shape(b: Seq<u8>) -> bool {
    &&& b.len() == 10
    &&& b[4] == 0x2d
    &&& b[7] == 0x2d
    &&& is_digit(b[0])
    &&& is_digit(b[1])
    &&& is_digit(b[2])
    &&& is_digit(b[3])
    &&& is_digit(b[5])
    &&& is_digit(b[6])
    &&& is_digit(b[8])
    &&& is_digit(b[9])
}

/// The year, month and day that bytes of the shape `YYYY-MM-DD` write.
pub open spec fn ymd_of(b: Seq<u8>) -> (i32, u32, u32) {
    (
        ((b[0] - 0x30) * 1000 + (b[1] - 0x30) * 100 + (b[2] - 0x30) * 10 + (b[3] - 0x30)) as i32,
        ((b[5] - 0x30) * 10 + (b[6] - 0x30)) as u32,
        ((b[8] - 0x30) * 10 + (b[9] - 0x30)) as u32,
    )
}

/// The first instant of the UTC day that the text writes as `YYYY-MM-DD`;
/// `None` where the text has another shape or there is no such day.
pub open spec fn day_start(text: Seq<u8>) -> Option<u64> {
    if ymd_shape(text) {
        midnight_of(ymd_of(text).0, ymd_of(text).1, ymd_of(text).2)
    } else {
        None
    }
}

/// Reads a date written as `YYYY-MM-DD`.
pub fn parse_ymd(date: &str) -> (r: Option<(i32, u32, u32)>)
    ensures
        r == (if ymd_shape(date.spec_bytes()) {
            Some(ymd_of(date.spec_bytes()))
        } else {
            None
        }),
{
    let b = date.as_bytes();
    if b.len() != 10 {
        return None;
    }
    if b[4] != 0x2d || b[7] != 0x2d {
        return None;
    }
    let mut i: usize = 0;
    while i < 10
        invariant
            i <= 10,
            b@.len() == 10,
            b@ == date.spec_bytes(),
            forall|j: int| 0 <= j < i && j != 4 && j != 7 ==> is_digit(#[trigger] b@[j]),
        decreases 10 - i,
    {
        if i != 4 && i != 7 && (b[i] < 0x30 || b[i] > 0x39) {
            assert(!is_digit(b@[i as int]));
            return None;
        }
        i = i + 1;
    }
    let d = |k: usize| -> (v: u32)
        requires
            k < 10,
            is_digit(b@[k as int]),
        ensures
            v == b@[k as int] - 0x30,
        { (b[k] - 0x30) as u32 };
    let year: u32 = d(0) * 1000 + d(1) * 100 + d(2) * 10 + d(3);
    let month: u32 = d(5) * 10 + d(6);
    let day: u32 = d(8) * 10 + d(9);
    Some((year as i32, month, day))
}

/// The first instant of the UTC day written as `YYYY-MM-DD`.
pub fn dt(date: &str) -> (r: Result<u64, WHError>)
    ensures
        r is Ok <==> day_start(date.spec_bytes()) is Some,
        r matches Ok(t) ==> day_start(date.spec_bytes()) == Some(t),
        r matches Err(e) ==> e.kind == ErrorKind::Invalid,
{
    match parse_ymd(date) {
        Some((year, month, day)) => match midnight_timestamp(year, month, day) {
            Some(t) => Ok(t),
            None => Err(WHError::new(ErrorKind::Invalid, "no such day")),
        },
        None => Err(WHError::new(ErrorKind::Invalid, "not a date")),
    }
}

/// The first instant of the UTC day written as `YYYY-MM-DD`; the refusal
/// names the text.
pub fn parse_date(date: &str) -> (r: Result<u64, WHError>)
    ensures
        r is Ok <==> day_start(date.spec_bytes()) is Some,
        r matches Ok(t) ==> day_start(date.spec_bytes()) == Some(t),
        r matches Err(e) ==> e.kind == ErrorKind::Invalid && e.message@ == "invalid date "@
            + date@,
{
    match dt(date) {
        Ok(t) => Ok(t),
        Err(_) => Err(WHError::with_detail(ErrorKind::Invalid, "invalid date ", date)),
    }
}

/// The character of a decimal digit.
pub open spec fn digit(d: int) -> char {
    if d == 0 {
        '0'
    } else if d == 1 {
        '1'
    } else if d == 2 {
        '2'
    } else if d == 3 {
        '3'
    } else if d == 4 {
        '4'
    } else if d == 5 {
        '5'
    } else if d == 6 {
        '6'
    } else if d == 7 {
        '7'
    } else if d == 8 {
        '8'
    } else {
        '9'
    }
}

/// A number below 100 in two digits.
pub open spec fn two_digits(n: int) -> Seq<char> {
    seq![digit(n / 10), digit(n % 10)]
}

/// A number below 10000 in four digits.
pub open spec fn four_digits(n: int) -> Seq<char> {
    two_digits(n / 100) + two_digits(n % 100)
}

/// Whether the civil date and time of day can be written as
/// `YYYY-MM-DDTHH:MM:SSZ`.
pub open spec fn writable(c: (i32, u32, u32, u32)) -> bool {
    0 <= c.0 <= 9999 && c.1 <= 99 && c.2 <= 99 && c.3 < 86400
}

/// The civil date and time of day written as `YYYY-MM-DDTHH:MM:SSZ`.
pub open spec fn stamp_text(c: (i32, u32, u32, u32)) -> Seq<char> {
    four_digits(c.0 as int) + seq!['-'] + two_digits(c.1 as int) + seq!['-'] + two_digits(
        c.2 as int,
    ) + seq!['T'] + two_digits((c.3 / 3600) as int) + seq![':'] + two_digits(((c.3 / 60) % 60) as int) + seq![':']
        + two_digits((c.3 % 60) as int) + seq!['Z']
}

/// The instant written as `YYYY-MM-DDTHH:MM:SSZ`; `None` where the calendar
/// cannot represent it or its year has more than four digits.
pub open spec fn stamp_of(ts: u64) -> Option<Seq<char>> {
    match civil_of(ts) {
        Some(c) => if writable(c) {
            Some(stamp_text(c))
        } else {
            None
        },
        None => None,
    }
}

/// Appends a decimal digit.
fn push_digit(s: &mut String, d: u32)
    requires
        d < 10,
    ensures
        final(s)@ == old(s)@.push(digit(d as int)),
{
    proof {
        reveal_strlit("0");
        reveal_strlit("1");
        reveal_strlit("2");
        reveal_strlit("3");
        reveal_strlit("4");
        reveal_strlit("5");
        reveal_strlit("6");
        reveal_strlit("7");
        reveal_strlit("8");
        reveal_strlit("9");
    }
    let text: &str = if d == 0 {
        "0"
    } else if d == 1 {
        "1"
    } else if d == 2 {
        "2"
    } else if d == 3 {
        "3"
    } else if d == 4 {
        "4"
    } else if d == 5 {
        "5"
    } else if d == 6 {
        "6"
    } else if d == 7 {
        "7"
    } else if d == 8 {
        "8"
    } else {
        "9"
    };
    assert(text@ =~= seq![digit(d as int)]);
    s.append(text);
    assert(s@ =~= old(s)@.push(digit(d as int)));
}

/// Appends a number below 100 in two digits.
fn push_two(s: &mut String, n: u32)
    requires
        n < 100,
    ensures
        final(s)@ == old(s)@ + two_digits(n as int),
{
    push_digit(s, n / 10);
    push_digit(s, n % 10);
    assert(s@ =~= old(s)@ + two_digits(n as int));
}

/// The instant written as `YYYY-MM-DDTHH:MM:SSZ`.
pub fn time_to_string(ts: u64) -> (r: Result<String, WHError>)
    ensures
        r is Ok <==> stamp_of(ts) is Some,
        r matches Ok(s) ==> stamp_of(ts) == Some(s@),
        r matches Err(e) ==> e.kind == ErrorKind::Invalid,
{
    let c = match civil_from_timestamp(ts) {
        Some(c) => c,
        None => {
            return Err(out_of_calendar());
        },
    };
    if c.0 < 0 || c.0 > 9999 || c.1 > 99 || c.2 > 99 || c.3 >= 86400 {
        return Err(out_of_calendar());
    }
    proof {
        reveal_strlit("-");
        reveal_strlit("T");
        reveal_strlit(":");
        reveal_strlit("Z");
    }
    let year: u32 = c.0 as u32;
    let mut s: String = String::new();
    push_two(&mut s, year / 100);
    push_two(&mut s, year % 100);
    s.append("-");
    push_two(&mut s, c.1);
    s.append("-");
    push_two(&mut s, c.2);
    s.append("T");
    push_two(&mut s, c.3 / 3600);
    s.append(":");
    push_two(&mut s, (c.3 / 60) % 60);
    s.append(":");
    push_two(&mut s, c.3 % 60);
    s.append("Z");
    proof {
        assert("-"@ =~= seq!['-']);
        assert("T"@ =~= seq!['T']);
        assert(":"@ =~= seq![':']);
        assert("Z"@ =~= seq!['Z']);
        assert(s@ =~= stamp_text(c));
    }
    Ok(s)
}

} // verus!
