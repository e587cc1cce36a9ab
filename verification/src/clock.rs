//! Readings of the monotonic clock and of the local wall clock.
//!
//! Everything here depends on the moment of the call: the contracts say only
//! what holds of every reading. The logic that uses a reading takes it as a
//! plain number and is verified for every value of it.

use vstd::prelude::*;
use crate::text::{decimal, decimal2, push_char, push_decimal, push_decimal2};
use crate::scan::{all_digits, digits_value, lemma_decimal2_digits};

verus! {

/// The largest number of nanoseconds a `std::time::Duration` can hold
/// (`u64::MAX` seconds and 999_999_999 nanoseconds).
pub open spec fn max_duration_nanos() -> int {
    18446744073709551615999999999int
}

#[verifier::external_type_specification]
#[verifier::external_body]
pub struct ExInstant(std::time::Instant);

/// `std::time::Instant::now`: the current moment of the monotonic clock.
#[verifier::external_body]
fn instant_now() -> std::time::Instant {
    std::time::Instant::now()
}

/// `std::time::Instant::elapsed`: the time from `origin` to the moment of the call.
#[verifier::external_body]
fn instant_elapsed(origin: &std::time::Instant) -> std::time::Duration {
    origin.elapsed()
}

/// `std::time::Duration::as_nanos`: the whole length of `d` in nanoseconds; a
/// `Duration` holds at most `u64::MAX` seconds and 999_999_999 nanoseconds.
#[verifier::external_body]
fn duration_as_nanos(d: &std::time::Duration) -> (r: u128)
    ensures
        r <= max_duration_nanos(),
{
    d.as_nanos()
}

/// One reading of the local wall clock, as plain fields.
pub struct LocalTime {
    pub year: i32,
    pub month: u32,
    pub day: u32,
    pub hour: u32,
    pub minute: u32,
    pub second: u32,
    pub nanosecond: u32,
}

/// One reading of the local wall clock, `chrono::Local::now`, taken apart
/// with `chrono::Datelike::{year, month, day}` and
/// `chrono::Timelike::{hour, minute, second, nanosecond}`. Their documented
/// ranges: month 1 to 12, day 1 to 31, hour 0 to 23, minute 0 to 59, second
/// 0 to 59, and nanoseconds below 2_000_000_000 (a leap second counts from
/// 1_000_000_000). Which moment is read is not stated.
#[verifier::external_body]
pub(crate) fn local_now() -> (r: LocalTime)
    ensures
        1 <= r.month <= 12,
        1 <= r.day <= 31,
        r.hour < 24,
        r.minute < 60,
        r.second < 60,
        r.nanosecond < 2_000_000_000,
{
    let now = chrono::Local::now();
    LocalTime {
        year: chrono::Datelike::year(&now),
        month: chrono::Datelike::month(&now),
        day: chrono::Datelike::day(&now),
        hour: chrono::Timelike::hour(&now),
        minute: chrono::Timelike::minute(&now),
        second: chrono::Timelike::second(&now),
        nanosecond: chrono::Timelike::nanosecond(&now),
    }
}

/// `n` with at least four digits, zero-padded.
pub open spec fn decimal4(n: nat) -> Seq<char> {
    if n < 10 {
        seq!['0', '0', '0'] + decimal(n)
    } else if n < 100 {
        seq!['0', '0'] + decimal(n)
    } else if n < 1000 {
        seq!['0'] + decimal(n)
    } else {
        decimal(n)
    }
}

/// The year as chrono's `%Y` writes it: four digits at least, with a sign
/// before years outside 0 to 9999.
pub open spec fn year_text(y: int) -> Seq<char> {
    if 0 <= y < 10000 {
        decimal4(y as nat)
    } else if y < 0 {
        seq!['-'] + decimal4((-y) as nat)
    } else {
        seq!['+'] + decimal4(y as nat)
    }
}

/// The hour on a 12-hour dial: 12 for hours 0 and 12.
pub open spec fn hour12(h: nat) -> nat {
    if h % 12 == 0 {
        12
    } else {
        h % 12
    }
}

/// The clock face `"%Y-%m-%d %I:%M:%S %p"` for the given local date and time.
pub open spec fn clock_face(
    year: int,
    month: nat,
    day: nat,
    hour: nat,
    minute: nat,
    second: nat,
) -> Seq<char> {
    year_text(year) + seq!['-'] + decimal2(month) + seq!['-'] + decimal2(day) + seq![' ']
        + decimal2(hour12(hour)) + seq![':'] + decimal2(minute) + seq![':'] + decimal2(second)
        + seq![' '] + (if hour >= 12 {
        seq!['P', 'M']
    } else {
        seq!['A', 'M']
    })
}

/// The clock face tells the hour of the day: it ends in `PM` exactly for the
/// afternoon hours 12 to 23 and in `AM` otherwise, and its 12-hour field,
/// taken modulo 12 and with 12 added in the afternoon, gives the hour back.
pub proof fn law_clock_face_tells_the_hour(
    year: int,
    month: nat,
    day: nat,
    hour: nat,
    minute: nat,
    second: nat,
)
    requires
        hour < 24,
        minute < 60,
        second < 100,
    ensures
        ({
            let f = clock_face(year, month, day, hour, minute, second);
            let n = f.len() as int;
            &&& n >= 11
            &&& (f.subrange(n - 2, n) == seq!['P', 'M']) == (hour >= 12)
            &&& (f.subrange(n - 2, n) == seq!['A', 'M']) == (hour < 12)
            &&& all_digits(f.subrange(n - 11, n - 9))
            &&& digits_value(f.subrange(n - 11, n - 9)) % 12 + (if f[n - 2] == 'P' {
                12int
            } else {
                0
            }) == hour
        }),
{
    let f = clock_face(year, month, day, hour, minute, second);
    let n = f.len() as int;
    let h12 = hour12(hour);
    lemma_decimal2_digits(h12);
    lemma_decimal2_digits(minute);
    lemma_decimal2_digits(second);
    let tail = decimal2(h12) + seq![':'] + decimal2(minute) + seq![':'] + decimal2(second) + seq![
        ' ',
    ] + (if hour >= 12 {
        seq!['P', 'M']
    } else {
        seq!['A', 'M']
    });
    assert(tail.len() == 11);
    let head = year_text(year) + seq!['-'] + decimal2(month) + seq!['-'] + decimal2(day) + seq![
        ' ',
    ];
    assert(f =~= head + tail);
    assert(f.subrange(n - 11, n - 9) =~= decimal2(h12));
    assert(f.subrange(n - 2, n) =~= (if hour >= 12 {
        seq!['P', 'M']
    } else {
        seq!['A', 'M']
    }));
    assert(seq!['P', 'M'] != seq!['A', 'M']) by {
        assert(seq!['P', 'M'][0] != seq!['A', 'M'][0]);
    }
}

/// Appends `n` with at least four digits to `s`.
fn push_decimal4(s: &mut String, n: u128)
    ensures
        final(s)@ == old(s)@ + decimal4(n as nat),
{
    if n < 10 {
        push_char(s, '0');
        push_char(s, '0');
        push_char(s, '0');
    } else if n < 100 {
        push_char(s, '0');
        push_char(s, '0');
    } else if n < 1000 {
        push_char(s, '0');
    }
    push_decimal(s, n);
    assert(s@ =~= old(s)@ + decimal4(n as nat));
}

/// The clock face for the given local date and time.
pub fn clock_face_text(
    year: i32,
    month: u32,
    day: u32,
    hour: u32,
    minute: u32,
    second: u32,
) -> (r: String)
    ensures
        r@ == clock_face(
            year as int,
            month as nat,
            day as nat,
            hour as nat,
            minute as nat,
            second as nat,
        ),
{
    let mut s = String::new();
    if 0 <= year && year < 10000 {
        push_decimal4(&mut s, year as u128);
    } else if year < 0 {
        push_char(&mut s, '-');
        push_decimal4(&mut s, (-(year as i64)) as u128);
    } else {
        push_char(&mut s, '+');
        push_decimal4(&mut s, year as u128);
    }
    assert(s@ =~= year_text(year as int));
    push_char(&mut s, '-');
    push_decimal2(&mut s, month as u128);
    push_char(&mut s, '-');
    push_decimal2(&mut s, day as u128);
    push_char(&mut s, ' ');
    let h12 = if hour % 12 == 0 {
        12
    } else {
        hour % 12
    };
    push_decimal2(&mut s, h12 as u128);
    push_char(&mut s, ':');
    push_decimal2(&mut s, minute as u128);
    push_char(&mut s, ':');
    push_decimal2(&mut s, second as u128);
    push_char(&mut s, ' ');
    if hour >= 12 {
        push_char(&mut s, 'P');
    } else {
        push_char(&mut s, 'A');
    }
    push_char(&mut s, 'M');
    assert(s@ =~= clock_face(
        year as int,
        month as nat,
        day as nat,
        hour as nat,
        minute as nat,
        second as nat,
    ));
    s
}

/// The clock face for the current local date and time; a leap second shows
/// as second 60.
pub fn current_time() -> (r: String)
    ensures
        exists|year: int, month: nat, day: nat, hour: nat, minute: nat, second: nat|
            {
                &&& 1 <= month <= 12 && 1 <= day <= 31 && hour < 24 && minute < 60 && second <= 60
                &&& r@ == clock_face(year, month, day, hour, minute, second)
            },
{
    let t = local_now();
    let second = t.second + t.nanosecond / 1_000_000_000;
    let r = clock_face_text(t.year, t.month, t.day, t.hour, t.minute, second);
    assert(r@ == clock_face(
        t.year as int,
        t.month as nat,
        t.day as nat,
        t.hour as nat,
        t.minute as nat,
        second as nat,
    ));
    r
}

/// A monotonic clock whose readings are nanoseconds since its creation.
/// It keeps the last reading it handed out and never hands out less.
#[derive(Clone, Copy, Debug)]
pub struct Clock {
    origin: std::time::Instant,
    last: u128,
}

impl Clock {
    #[verifier::type_invariant]
    spec fn last_in_range(self) -> bool {
        self.last <= max_duration_nanos()
    }

    /// The last reading this clock handed out and recorded.
    pub closed spec fn last_reading(self) -> nat {
        self.last as nat
    }

    /// A clock that starts counting now.
    pub fn new() -> (c: Clock)
        ensures
            c.last_reading() == 0,
    {
        Clock { origin: instant_now(), last: 0 }
    }

    /// The monotonic clock's nanoseconds since the clock's creation, never
    /// less than the last reading recorded.
    fn read(&self) -> (r: u128)
        ensures
            self.last_reading() <= r <= max_duration_nanos(),
    {
        proof {
            use_type_invariant(self);
        }
        let reading = duration_as_nanos(&instant_elapsed(&self.origin));
        if reading < self.last {
            self.last
        } else {
            reading
        }
    }

    /// Reads the clock and records the reading: it is no less than the last
    /// one recorded.
    pub fn now(&mut self) -> (r: u128)
        ensures
            old(self).last_reading() <= r <= max_duration_nanos(),
            final(self).last_reading() == r,
    {
        let r = self.read();
        self.last = r;
        r
    }

    /// Reads the clock without recording the reading: it is no less than the
    /// last one recorded.
    pub fn peek(&self) -> (r: u128)
        ensures
            self.last_reading() <= r <= max_duration_nanos(),
    {
        self.read()
    }
}

} // verus!
