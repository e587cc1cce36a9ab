//! An alarm set to an hour and a minute of the local day.
//!
//! The alarm's target is the text `"<hour> <minute>"`. The alarm goes off
//! when that text is exactly the current hour and minute written in decimal,
//! and the countdown shown at its start reads the first two words of the
//! text as numbers.

use vstd::prelude::*;
use vstd::string::*;
use crate::clock::local_now;
use crate::scan::{
    lemma_first_two_words, chars_of, in_i32, is_white, lemma_decimal_digits, lemma_parse_decimal,
    lemma_skip_white, lemma_skip_white_is, lemma_word_end, lemma_word_end_is, opt_i32, parse_i32,
    parse_i32_at, skip_white_at, word_end_at, words,
};
use crate::text::{decimal, push_char, push_decimal, push_signed_decimal, signed_decimal};

verus! {

/// Seconds in a day.
pub const SECONDS_PER_DAY: i32 = 86400;

/// The seconds into the day that the alarm text `s` names, computed as `i32`
/// arithmetic: 3600 times the first word plus 60 times the second, a missing
/// word counting as nothing and later words ignored. `None` where a counted
/// word is no `i32` or the arithmetic leaves the `i32` range.
pub open spec fn alarm_target_seconds(s: Seq<char>) -> Option<int> {
    let w = words(s);
    if w.len() == 0 {
        Some(0)
    } else {
        match parse_i32(w[0]) {
            None => None,
            Some(h) => if !in_i32(h * 3600) {
                None
            } else if w.len() == 1 {
                Some(h * 3600)
            } else {
                match parse_i32(w[1]) {
                    None => None,
                    Some(m) => if in_i32(m * 60) && in_i32(h * 3600 + m * 60) {
                        Some(h * 3600 + m * 60)
                    } else {
                        None
                    },
                }
            },
        }
    }
}

/// Seconds from `current` to the next `target` time of day: the difference
/// when the target is later today, else the difference plus one day.
pub open spec fn seconds_until(target: int, current: int) -> int {
    if target > current {
        target - current
    } else {
        target - current + 86400
    }
}

/// Integer division rounding towards zero, as Rust's `/` on integers (`b > 0`).
pub open spec fn trunc_div(a: int, b: int) -> int {
    if a >= 0 {
        a / b
    } else {
        -((-a) / b)
    }
}

/// The remainder of `trunc_div`, as Rust's `%` on integers (`b > 0`).
pub open spec fn trunc_rem(a: int, b: int) -> int {
    a - b * trunc_div(a, b)
}

/// The countdown text for `secs` seconds: whole hours and the whole minutes
/// left over, as Rust's integer division and remainder compute them.
pub open spec fn countdown_text(secs: int) -> Seq<char> {
    "Time untill alarm: "@ + signed_decimal(trunc_div(secs, 3600)) + " hours and "@
        + signed_decimal(trunc_div(trunc_rem(secs, 3600), 60)) + " minutes"@
}

/// The text of the time `hour:minute` the alarm compares its target with.
pub open spec fn hour_minute_text(hour: nat, minute: nat) -> Seq<char> {
    decimal(hour) + seq![' '] + decimal(minute)
}

/// Reads an alarm text as seconds into the day; `None` where the countdown
/// could not be computed.
pub fn target_seconds(s: &str) -> (r: Option<i32>)
    ensures
        opt_i32(r) == alarm_target_seconds(s@),
{
    let v = chars_of(s);
    let n = v.len();
    let b0 = skip_white_at(&v, 0);
    proof {
        lemma_skip_white(v@, 0);
    }
    if b0 == n {
        proof {
            lemma_first_two_words(v@, b0 as int, 0, 0, 0);
        }
        return Some(0);
    }
    let e0 = word_end_at(&v, b0);
    proof {
        lemma_word_end(v@, b0 as int);
    }
    let b1 = skip_white_at(&v, e0);
    proof {
        lemma_skip_white(v@, e0 as int);
    }
    let e1 = if b1 < n {
        word_end_at(&v, b1)
    } else {
        b1
    };
    proof {
        lemma_word_end(v@, b1 as int);
        lemma_first_two_words(v@, b0 as int, e0 as int, b1 as int, e1 as int);
    }
    let h = match parse_i32_at(&v, b0, e0) {
        Some(h) => h,
        None => {
            return None;
        },
    };
    let hs = h as i64 * 3600;
    if hs < -2147483648 || hs > 2147483647 {
        return None;
    }
    if b1 == n {
        return Some(hs as i32);
    }
    let m = match parse_i32_at(&v, b1, e1) {
        Some(m) => m,
        None => {
            return None;
        },
    };
    let ms = m as i64 * 60;
    if ms < -2147483648 || ms > 2147483647 {
        return None;
    }
    let t = hs + ms;
    if t < -2147483648 || t > 2147483647 {
        return None;
    }
    Some(t as i32)
}

/// What the alarm's countdown says at `hour:minute` for the alarm text
/// `target`: `None` where the text names no time or the seconds until it
/// leave the `i32` range.
pub open spec fn countdown(target: Seq<char>, hour: nat, minute: nat) -> Option<Seq<char>> {
    match alarm_target_seconds(target) {
        None => None,
        Some(t) => {
            let c = (hour * 3600 + minute * 60) as int;
            if in_i32(t - c) {
                Some(countdown_text(seconds_until(t, c)))
            } else {
                None
            }
        },
    }
}

/// The text of a time of day reads back as that time: for `hour < 24` and
/// `minute < 60`, the alarm text `"<hour> <minute>"` names
/// `hour * 3600 + minute * 60` seconds into the day.
pub proof fn law_time_text_reads_back(hour: nat, minute: nat)
    requires
        hour < 24,
        minute < 60,
    ensures
        alarm_target_seconds(hour_minute_text(hour, minute)) == Some(
            (hour * 3600 + minute * 60) as int,
        ),
{
    let dh = decimal(hour);
    let dm = decimal(minute);
    let s = hour_minute_text(hour, minute);
    lemma_decimal_digits(hour);
    lemma_decimal_digits(minute);
    lemma_parse_decimal(hour);
    lemma_parse_decimal(minute);
    let a = dh.len() as int;
    assert(s.len() == a + 1 + dm.len());
    assert(s[a] == ' ');
    assert(is_white(' '));
    assert forall|k: int| 0 <= k < a implies !is_white(#[trigger] s[k]) by {
        assert(s[k] == dh[k]);
    }
    assert forall|k: int| a + 1 <= k < s.len() implies !is_white(#[trigger] s[k]) by {
        assert(s[k] == dm[k - a - 1]);
    }
    assert(!is_white(s[0]));
    assert(!is_white(s[a + 1]));
    lemma_skip_white_is(s, 0, 0);
    lemma_word_end_is(s, 0, a);
    lemma_skip_white_is(s, a, a + 1);
    lemma_word_end_is(s, a + 1, s.len() as int);
    lemma_first_two_words(s, 0, a, a + 1, s.len() as int);
    assert(s.subrange(0, a) =~= dh);
    assert(s.subrange(a + 1, s.len() as int) =~= dm);
}

/// An alarm set to the text of `hour:minute` goes off at that time of day
/// and at no other.
pub proof fn law_alarm_goes_off_at_its_time(
    a: AlarmModel,
    hour: nat,
    minute: nat,
    h: nat,
    m: nat,
)
    requires
        hour < 24,
        minute < 60,
        h < 24,
        m < 60,
    ensures
        a.started(hour_minute_text(hour, minute)).due_at(h, m) <==> (h == hour && m == minute),
{
    law_time_text_reads_back(hour, minute);
    law_time_text_reads_back(h, m);
}

/// A stopped alarm never goes off.
pub proof fn law_stopped_alarm_is_silent(a: AlarmModel, hour: nat, minute: nat)
    ensures
        !a.stopped().due_at(hour, minute),
{
}

/// For a target and a current time within one day, the wait is more than
/// nothing and at most a day, and it ends at the target time of day.
pub proof fn law_wait_within_a_day(target: int, current: int)
    requires
        0 <= target < 86400,
        0 <= current < 86400,
    ensures
        0 < seconds_until(target, current) <= 86400,
        (current + seconds_until(target, current)) % 86400 == target,
{
}

/// Seconds from the time of day `current` to the next `target` time of day.
pub fn seconds_until_alarm(target: i32, current: i32) -> (r: i32)
    requires
        in_i32(target - current),
    ensures
        r == seconds_until(target as int, current as int),
{
    if target > current {
        target - current
    } else {
        target - current + SECONDS_PER_DAY
    }
}

/// `a / b` rounded towards zero.
fn div_toward_zero(a: i32, b: i32) -> (r: i32)
    requires
        b > 0,
    ensures
        r == trunc_div(a as int, b as int),
{
    if a >= 0 {
        ((a as u32) / (b as u32)) as i32
    } else {
        let magnitude = (-(a as i64)) as u64;
        let q = (magnitude / (b as u64)) as i64;
        (-q) as i32
    }
}

/// The countdown message for `secs` seconds until the alarm.
pub fn countdown_message(secs: i32) -> (r: String)
    ensures
        r@ == countdown_text(secs as int),
{
    let hours = div_toward_zero(secs, 3600);
    let rest = secs - 3600 * hours;
    let minutes = div_toward_zero(rest, 60);
    let mut s = String::new();
    s.append("Time untill alarm: ");
    push_signed_decimal(&mut s, hours);
    s.append(" hours and ");
    push_signed_decimal(&mut s, minutes);
    s.append(" minutes");
    s
}

/// The text `"<hour> <minute>"` of the time `hour:minute`.
pub fn hour_minute_string(hour: u32, minute: u32) -> (r: String)
    ensures
        r@ == hour_minute_text(hour as nat, minute as nat),
{
    let mut s = String::new();
    push_decimal(&mut s, hour as u128);
    push_char(&mut s, ' ');
    push_decimal(&mut s, minute as u128);
    assert(s@ =~= hour_minute_text(hour as nat, minute as nat));
    s
}

/// What an alarm holds.
pub struct AlarmModel {
    pub running: bool,
    pub target_time: Option<Seq<char>>,
}

impl AlarmModel {
    /// A new alarm: it counts as running and has no target yet.
    pub open spec fn initial() -> AlarmModel {
        AlarmModel { running: true, target_time: None }
    }

    /// `start` with the alarm text `time`.
    pub open spec fn started(self, time: Seq<char>) -> AlarmModel {
        AlarmModel { running: true, target_time: Some(time) }
    }

    /// `stop`: the alarm stops and forgets its target.
    pub open spec fn stopped(self) -> AlarmModel {
        AlarmModel { running: false, target_time: None }
    }

    /// Whether the alarm goes off at `hour:minute`: it runs and its target is
    /// exactly the text of that time.
    pub open spec fn due_at(self, hour: nat, minute: nat) -> bool {
        self.running && self.target_time == Some(hour_minute_text(hour, minute))
    }

    /// The alarm after one check at `hour:minute`: one that goes off stops.
    pub open spec fn checked_at(self, hour: nat, minute: nat) -> AlarmModel {
        if self.due_at(hour, minute) {
            AlarmModel { running: false, ..self }
        } else {
            self
        }
    }
}

/// A call made on an alarm after its creation.
pub enum AlarmCall {
    Start { text: Seq<char> },
    Stop,
    Check { hour: nat, minute: nat },
}

/// The alarm after the call `c`.
pub open spec fn after_call(m: AlarmModel, c: AlarmCall) -> AlarmModel {
    match c {
        AlarmCall::Start { text } => m.started(text),
        AlarmCall::Stop => m.stopped(),
        AlarmCall::Check { hour, minute } => m.checked_at(hour, minute),
    }
}

/// A new alarm after the calls `calls`, in order.
pub open spec fn after_calls(calls: Seq<AlarmCall>) -> AlarmModel
    decreases calls.len(),
{
    if calls.len() == 0 {
        AlarmModel::initial()
    } else {
        after_call(after_calls(calls.drop_last()), calls.last())
    }
}

/// The position of the last start or stop among `calls`; -1 where there is
/// none.
pub open spec fn last_set(calls: Seq<AlarmCall>) -> int
    decreases calls.len(),
{
    if calls.len() == 0 {
        -1
    } else if calls.last() is Check {
        last_set(calls.drop_last())
    } else {
        calls.len() - 1
    }
}

/// The last start or stop is a position of `calls`, or -1.
pub proof fn lemma_last_set_range(calls: Seq<AlarmCall>)
    ensures
        -1 <= last_set(calls) < calls.len(),
        last_set(calls) >= 0 ==> !(calls[last_set(calls)] is Check),
    decreases calls.len(),
{
    if calls.len() > 0 && calls.last() is Check {
        lemma_last_set_range(calls.drop_last());
        let j = last_set(calls.drop_last());
        if j >= 0 {
            assert(calls[j] == calls.drop_last()[j]);
        }
    }
}

/// The text of the last start among `calls`, unless a stop came after it.
pub open spec fn set_text(calls: Seq<AlarmCall>) -> Option<Seq<char>> {
    let j = last_set(calls);
    if j >= 0 && calls[j] is Start {
        Some(calls[j]->text)
    } else {
        None
    }
}

/// Whether the check `c` matches the text `t`.
pub open spec fn check_matches(t: Option<Seq<char>>, c: AlarmCall) -> bool {
    c is Check && t == Some(hour_minute_text(c->hour, c->minute))
}

/// Over any sequence of calls on a new alarm, its state is true exactly when
/// no stop came after its creation and its last start, and no check since
/// then matched the text of that start; its target is the text of the last
/// start unless a stop came after it.
pub proof fn law_alarm_state_over_calls(calls: Seq<AlarmCall>)
    ensures
        after_calls(calls).target_time == set_text(calls),
        after_calls(calls).running <==> ({
            let j = last_set(calls);
            &&& (j == -1 || calls[j] is Start)
            &&& forall|k: int|
                j < k < calls.len() ==> !check_matches(set_text(calls), #[trigger] calls[k])
        }),
    decreases calls.len(),
{
    if calls.len() > 0 {
        let p = calls.drop_last();
        law_alarm_state_over_calls(p);
        lemma_last_set_range(p);
        let c = calls.last();
        if c is Check {
            assert(last_set(calls) == last_set(p));
            let j = last_set(p);
            if j >= 0 {
                assert(calls[j] == p[j]);
            }
            assert(set_text(calls) == set_text(p));
            if after_calls(calls).running {
                assert forall|k: int| j < k < calls.len() implies !check_matches(
                    set_text(calls),
                    #[trigger] calls[k],
                ) by {
                    if k < p.len() {
                        assert(calls[k] == p[k]);
                    }
                }
            }
            if !after_calls(calls).running && after_calls(p).running {
                let k = calls.len() - 1;
                assert(check_matches(set_text(calls), calls[k]));
            }
        }
    }
}

/// An alarm for a time of the local day.
pub struct Alarm {
    running: bool,
    target_time: Option<String>,
}

impl View for Alarm {
    type V = AlarmModel;

    closed spec fn view(&self) -> AlarmModel {
        AlarmModel {
            running: self.running,
            target_time: match self.target_time {
                Some(t) => Some(t@),
                None => None,
            },
        }
    }
}

impl Alarm {
    /// A new alarm: it counts as running and has no target yet.
    pub fn new() -> (a: Alarm)
        ensures
            a@ == AlarmModel::initial(),
    {
        Alarm { running: true, target_time: None }
    }

    /// Sets the alarm to the text `time` (`"<hour> <minute>"`) and lets it run.
    /// The text must name a time of day as `alarm_target_seconds` reads it.
    pub fn start(&mut self, time: String)
        requires
            alarm_target_seconds(time@) is Some,
        ensures
            final(self)@ == old(self)@.started(time@),
    {
        self.running = true;
        self.target_time = Some(time);
    }

    /// Stops the alarm and forgets its target.
    pub fn stop(&mut self)
        ensures
            final(self)@ == old(self)@.stopped(),
    {
        self.running = false;
        self.target_time = None;
    }

    /// Whether the alarm runs.
    pub fn get_state(&self) -> (r: bool)
        ensures
            r == self@.running,
    {
        self.running
    }

    /// The alarm's target text, if it has one.
    pub fn target_time(&self) -> (r: Option<&str>)
        ensures
            r is Some == self@.target_time is Some,
            r is Some ==> r->0@ == self@.target_time->0,
    {
        match &self.target_time {
            Some(t) => Some(t.as_str()),
            None => None,
        }
    }

    /// One check of the alarm at `hour:minute`: when the alarm runs and its
    /// target is the text of that time, it stops and the result says that it
    /// went off.
    pub fn check_at(&mut self, hour: u32, minute: u32) -> (went_off: bool)
        ensures
            went_off == old(self)@.due_at(hour as nat, minute as nat),
            final(self)@ == old(self)@.checked_at(hour as nat, minute as nat),
    {
        if !self.running {
            return false;
        }
        let due = match &self.target_time {
            Some(t) => {
                let now_text = hour_minute_string(hour, minute);
                *t == now_text
            },
            None => false,
        };
        if due {
            self.running = false;
        }
        due
    }

    /// One check of the alarm at the current local hour and minute.
    pub fn check(&mut self) -> (went_off: bool)
        ensures
            exists|hour: nat, minute: nat|
                {
                    &&& hour < 24 && minute < 60
                    &&& went_off == old(self)@.due_at(hour, minute)
                    &&& final(self)@ == old(self)@.checked_at(hour, minute)
                },
    {
        let t = local_now();
        let (hour, minute) = (t.hour, t.minute);
        self.check_at(hour, minute)
    }

    /// The countdown message at `hour:minute`, for an alarm whose target names
    /// a time and where the seconds until it stay in the `i32` range.
    pub fn countdown_at(&self, hour: u32, minute: u32) -> (r: String)
        requires
            hour < 24,
            minute < 60,
            self@.target_time is Some,
            countdown(self@.target_time->0, hour as nat, minute as nat) is Some,
        ensures
            r@ == countdown(self@.target_time->0, hour as nat, minute as nat)->0,
    {
        let target = match &self.target_time {
            Some(t) => t.as_str(),
            None => "",
        };
        let t = match target_seconds(target) {
            Some(t) => t,
            None => 0,
        };
        let current = (hour * 3600 + minute * 60) as i32;
        countdown_message(seconds_until_alarm(t, current))
    }

    /// The countdown message at the current local hour and minute, for an
    /// alarm whose target names a time; `None` where the seconds until it
    /// leave the `i32` range at the moment read.
    pub fn time_until_alarm_message(&self) -> (r: Option<String>)
        requires
            self@.target_time is Some,
            alarm_target_seconds(self@.target_time->0) is Some,
        ensures
            exists|hour: nat, minute: nat|
                {
                    &&& hour < 24 && minute < 60
                    &&& r is Some == countdown(self@.target_time->0, hour, minute) is Some
                    &&& r is Some ==> r->0@ == countdown(self@.target_time->0, hour, minute)->0
                },
    {
        let t = local_now();
        let (hour, minute) = (t.hour, t.minute);
        let target = match &self.target_time {
            Some(t) => t.as_str(),
            None => "",
        };
        let t = match target_seconds(target) {
            Some(t) => t,
            None => 0,
        };
        let current = (hour * 3600 + minute * 60) as i64;
        let diff = t as i64 - current;
        if diff < -2147483648 {
            assert(countdown(self@.target_time->0, hour as nat, minute as nat) is None);
            return None;
        }
        Some(self.countdown_at(hour, minute))
    }
}

} // verus!
