//! A countdown timer that can be paused and resumed.

use vstd::prelude::*;
use crate::clock::{Clock, max_duration_nanos};
use crate::stopwatch::{NANOS_PER_SEC, saturating_diff};
use crate::text::{decimal, decimal2, push_char, push_decimal2};
use crate::scan::{all_digits, digits_value, lemma_decimal_digits, lemma_decimal2_digits};

verus! {

/// What a timer holds, its clock aside. Times are nanoseconds on the timer's
/// own monotonic clock.
pub struct TimerModel {
    pub running: bool,
    pub target_time: Option<nat>,
    pub paused_duration: Option<nat>,
}

/// The timer face for `remaining` nanoseconds: whole hours, the minutes within
/// the hour and the seconds within the minute, each with at least two digits,
/// joined by colons (`"{:02}:{:02}:{:02}"`).
pub open spec fn timer_face(remaining: nat) -> Seq<char> {
    let secs = remaining / 1_000_000_000;
    decimal2(secs / 3600) + seq![':'] + decimal2((secs % 3600) / 60) + seq![':'] + decimal2(
        secs % 60,
    )
}

impl TimerModel {
    /// A timer that has never been started.
    pub open spec fn initial() -> TimerModel {
        TimerModel { running: false, target_time: None, paused_duration: None }
    }

    /// `start` at `now` for `duration`: the timer runs towards `now + duration`.
    /// A duration kept from an earlier pause stays.
    pub open spec fn started(self, now: nat, duration: nat) -> TimerModel {
        TimerModel { running: true, target_time: Some(now + duration), ..self }
    }

    /// `pause` at `now`: the timer stops and keeps the time left to its target.
    pub open spec fn paused(self, now: nat) -> TimerModel {
        TimerModel {
            running: false,
            paused_duration: Some(saturating_diff(self.target_time->0, now)),
            ..self
        }
    }

    /// `resume` at `now`: the timer runs again towards `now` plus the time
    /// that was left when it was paused.
    pub open spec fn resumed(self, now: nat) -> TimerModel {
        TimerModel {
            running: true,
            target_time: Some(now + self.paused_duration->0),
            paused_duration: None,
        }
    }

    /// `stop`: the timer stops and forgets its target and its pause.
    pub open spec fn stopped(self) -> TimerModel {
        TimerModel { running: false, target_time: None, paused_duration: None }
    }

    /// The time left at `now`: while running, the time to the target (zero
    /// without one); else the time kept at the pause (zero without one).
    pub open spec fn remaining_at(self, now: nat) -> nat {
        if self.running {
            match self.target_time {
                Some(t) => saturating_diff(t, now),
                None => 0,
            }
        } else {
            match self.paused_duration {
                Some(p) => p,
                None => 0,
            }
        }
    }

    /// Whether a running timer has reached its target at `now` (a running
    /// timer without a target counts as having reached it).
    pub open spec fn due_at(self, now: nat) -> bool {
        self.running && match self.target_time {
            Some(t) => t <= now,
            None => true,
        }
    }

    /// The timer after one check at `now`: a due timer stops running.
    pub open spec fn checked_at(self, now: nat) -> TimerModel {
        if self.due_at(now) {
            TimerModel { running: false, ..self }
        } else {
            self
        }
    }
}

/// A timer started at `now` for `duration` has `duration - k` left `k`
/// nanoseconds later, and nothing once the duration has passed.
pub proof fn law_started_counts_down(m: TimerModel, now: nat, duration: nat, k: nat)
    ensures
        m.started(now, duration).remaining_at(now + k) == if k <= duration {
            (duration - k) as nat
        } else {
            0
        },
{
}

/// Pausing at `t1` and resuming at any `t2` leaves the time left as it was at
/// the pause.
pub proof fn law_pause_resume_keeps_remaining(m: TimerModel, t1: nat, t2: nat)
    requires
        m.running,
        m.target_time is Some,
    ensures
        m.paused(t1).resumed(t2).remaining_at(t2) == m.remaining_at(t1),
        m.paused(t1).resumed(t2).running,
{
}

/// Pausing at `tp` a timer whose target `tg` is not yet past, and resuming
/// at any later `tr`, moves the target by the paused span `tr - tp`; right
/// after the resume the time left is the time shown while paused.
pub proof fn law_resume_shifts_target(m: TimerModel, tp: nat, tr: nat)
    requires
        m.target_time is Some,
        m.target_time->0 >= tp,
        tr >= tp,
    ensures
        m.paused(tp).resumed(tr).target_time == Some((m.target_time->0 + (tr - tp)) as nat),
        m.paused(tp).resumed(tr).remaining_at(tr) == m.paused(tp).remaining_at(tr),
{
}

/// Read at a later moment, a timer never shows more time left than it did.
pub proof fn law_time_left_never_grows(m: TimerModel, t1: nat, t2: nat)
    requires
        t1 <= t2,
    ensures
        m.remaining_at(t2) <= m.remaining_at(t1),
{
}

/// While paused, the time left does not change.
pub proof fn law_paused_remaining_is_frozen(m: TimerModel, t1: nat, t: nat)
    requires
        m.target_time is Some,
    ensures
        m.paused(t1).remaining_at(t) == m.paused(t1).remaining_at(t1),
        !m.paused(t1).due_at(t),
{
}

/// A stopped timer has nothing left and never runs out.
pub proof fn law_stopped_timer_is_empty(m: TimerModel, t: nat)
    ensures
        m.stopped().remaining_at(t) == 0,
        !m.stopped().due_at(t),
{
}

/// A timer started for `duration` at `now` runs out exactly from
/// `now + duration` on; once it has, it shows nothing left and does not run
/// out again.
pub proof fn law_runs_out_at_target(m: TimerModel, now: nat, duration: nat, t: nat, later: nat)
    requires
        m.paused_duration is None,
    ensures
        m.started(now, duration).due_at(t) <==> now + duration <= t,
        m.started(now, duration).due_at(t) ==> m.started(now, duration).checked_at(t).remaining_at(
            later,
        ) == 0,
        m.started(now, duration).due_at(t) ==> !m.started(now, duration).checked_at(t).due_at(
            later,
        ),
{
}

/// The timer face reads back as the whole seconds left: hours, then two-digit
/// minutes and seconds below 60, separated by colons, with
/// `3600 * hours + 60 * minutes + seconds` the whole seconds of `remaining`.
pub proof fn law_timer_face_reads_back(remaining: nat)
    ensures
        ({
            let f = timer_face(remaining);
            let secs = remaining / 1_000_000_000;
            exists|k: int|
                #![trigger f.subrange(0, k)]
                {
                    &&& 0 < k && k + 6 == f.len()
                    &&& f[k] == ':' && f[k + 3] == ':'
                    &&& all_digits(f.subrange(0, k))
                    &&& all_digits(f.subrange(k + 1, k + 3))
                    &&& all_digits(f.subrange(k + 4, k + 6))
                    &&& digits_value(f.subrange(k + 1, k + 3)) < 60
                    &&& digits_value(f.subrange(k + 4, k + 6)) < 60
                    &&& digits_value(f.subrange(0, k)) * 3600 + digits_value(
                        f.subrange(k + 1, k + 3),
                    ) * 60 + digits_value(f.subrange(k + 4, k + 6)) == secs
                }
        }),
{
    let f = timer_face(remaining);
    let secs = remaining / 1_000_000_000;
    let h = secs / 3600;
    let m = (secs % 3600) / 60;
    let sec = secs % 60;
    let dh = decimal2(h);
    lemma_decimal2_digits(m);
    lemma_decimal2_digits(sec);
    lemma_decimal_digits(h);
    assert(all_digits(dh) && digits_value(dh) == h && dh.len() >= 2) by {
        if h < 100 {
            lemma_decimal2_digits(h);
        } else {
            assert(decimal(h) == decimal(h / 10).push(crate::text::digit_char(h % 10)));
            lemma_decimal_digits(h / 10);
        }
    }
    let k = dh.len() as int;
    assert(f.subrange(0, k) =~= dh);
    assert(f.subrange(k + 1, k + 3) =~= decimal2(m));
    assert(f.subrange(k + 4, k + 6) =~= decimal2(sec));
    assert(h * 3600 + m * 60 + sec == secs);
}

/// Nothing left shows as `00:00:00`.
pub proof fn law_empty_face()
    ensures
        timer_face(0) == "00:00:00"@,
{
    reveal_strlit("00:00:00");
    assert(timer_face(0) =~= "00:00:00"@);
}

/// A countdown timer.
#[derive(Clone, Copy, Debug)]
pub struct Timer {
    clock: Clock,
    running: bool,
    target_time: Option<u128>,
    paused_duration: Option<u128>,
}

impl View for Timer {
    type V = TimerModel;

    closed spec fn view(&self) -> TimerModel {
        TimerModel {
            running: self.running,
            target_time: match self.target_time {
                Some(t) => Some(t as nat),
                None => None,
            },
            paused_duration: match self.paused_duration {
                Some(p) => Some(p as nat),
                None => None,
            },
        }
    }
}

/// Renders `remaining` nanoseconds as the timer face.
pub fn timer_display(remaining: u128) -> (r: String)
    ensures
        r@ == timer_face(remaining as nat),
{
    let secs = remaining / NANOS_PER_SEC;
    let mut s = String::new();
    push_decimal2(&mut s, secs / 3600);
    push_char(&mut s, ':');
    push_decimal2(&mut s, (secs % 3600) / 60);
    push_char(&mut s, ':');
    push_decimal2(&mut s, secs % 60);
    s
}

impl Timer {
    /// The last moment of its clock that the timer recorded.
    pub closed spec fn last_reading(&self) -> nat {
        self.clock.last_reading()
    }

    /// A timer that has never been started.
    pub fn new() -> (t: Timer)
        ensures
            t@ == TimerModel::initial(),
            t.last_reading() == 0,
    {
        Timer { clock: Clock::new(), running: false, target_time: None, paused_duration: None }
    }

    /// Whether the timer is counting down.
    pub fn is_running(&self) -> (r: bool)
        ensures
            r == self@.running,
    {
        self.running
    }

    /// Whether the timer has a target.
    pub fn has_target(&self) -> (r: bool)
        ensures
            r == self@.target_time is Some,
    {
        self.target_time.is_some()
    }

    /// The time kept at the last pause, if any.
    pub fn paused_nanos(&self) -> (r: Option<u128>)
        ensures
            r is Some == self@.paused_duration is Some,
            r is Some ==> r->0 == self@.paused_duration->0,
    {
        self.paused_duration
    }

    /// Starts the timer at `now` for `duration` nanoseconds.
    pub fn start_at(&mut self, now: u128, duration: u128)
        requires
            now + duration <= u128::MAX,
        ensures
            final(self)@ == old(self)@.started(now as nat, duration as nat),
            final(self).last_reading() == old(self).last_reading(),
    {
        self.running = true;
        self.target_time = Some(now + duration);
    }

    /// Starts the timer at the current moment of its clock for `duration`
    /// nanoseconds (at most what a `std::time::Duration` holds).
    pub fn start(&mut self, duration: u128)
        requires
            duration <= max_duration_nanos(),
        ensures
            exists|now: nat|
                {
                    &&& old(self).last_reading() <= now <= max_duration_nanos()
                    &&& final(self).last_reading() == now
                    &&& final(self)@ == old(self)@.started(now, duration as nat)
                },
    {
        let now = self.clock.now();
        self.start_at(now, duration);
        assert(final(self)@ == old(self)@.started(now as nat, duration as nat));
    }

    /// Pauses the timer at `now`, keeping the time left to its target.
    pub fn pause_at(&mut self, now: u128)
        requires
            old(self)@.target_time is Some,
        ensures
            final(self)@ == old(self)@.paused(now as nat),
            final(self).last_reading() == old(self).last_reading(),
    {
        self.running = false;
        let target = match self.target_time {
            Some(t) => t,
            None => 0,
        };
        self.paused_duration = Some(if target >= now { target - now } else { 0 });
    }

    /// Pauses the timer at the current moment of its clock.
    pub fn pause(&mut self)
        requires
            old(self)@.target_time is Some,
        ensures
            exists|now: nat|
                {
                    &&& old(self).last_reading() <= now <= max_duration_nanos()
                    &&& final(self).last_reading() == now
                    &&& final(self)@ == old(self)@.paused(now)
                },
    {
        let now = self.clock.now();
        self.pause_at(now);
    }

    /// Resumes a paused timer at `now`.
    pub fn resume_at(&mut self, now: u128)
        requires
            old(self)@.paused_duration is Some,
            now + old(self)@.paused_duration->0 <= u128::MAX,
        ensures
            final(self)@ == old(self)@.resumed(now as nat),
            final(self).last_reading() == old(self).last_reading(),
    {
        let paused = match self.paused_duration {
            Some(p) => p,
            None => 0,
        };
        self.running = true;
        self.target_time = Some(now + paused);
        self.paused_duration = None;
    }

    /// Resumes a paused timer at the current moment of its clock.
    pub fn resume(&mut self)
        requires
            old(self)@.paused_duration is Some,
            old(self)@.paused_duration->0 + max_duration_nanos() <= u128::MAX,
        ensures
            exists|now: nat|
                {
                    &&& old(self).last_reading() <= now <= max_duration_nanos()
                    &&& final(self).last_reading() == now
                    &&& final(self)@ == old(self)@.resumed(now)
                },
    {
        let now = self.clock.now();
        self.resume_at(now);
    }

    /// Stops the timer and forgets its target and its pause.
    pub fn stop(&mut self)
        ensures
            final(self)@ == old(self)@.stopped(),
            final(self).last_reading() == old(self).last_reading(),
    {
        self.running = false;
        self.target_time = None;
        self.paused_duration = None;
    }

    /// The face of the time left at `now`.
    pub fn get_remaining_time_at(&self, now: u128) -> (r: String)
        ensures
            r@ == timer_face(self@.remaining_at(now as nat)),
    {
        let remaining = if self.running {
            let target = match self.target_time {
                Some(t) => t,
                None => now,
            };
            if target >= now {
                target - now
            } else {
                0
            }
        } else {
            match self.paused_duration {
                Some(p) => p,
                None => 0,
            }
        };
        timer_display(remaining)
    }

    /// The face of the time left at the current moment of the timer's clock.
    pub fn get_remaining_time(&self) -> (r: String)
        ensures
            exists|now: nat|
                self.last_reading() <= now <= max_duration_nanos() && r@ == timer_face(
                    self@.remaining_at(now),
                ),
    {
        let now = self.clock.peek();
        self.get_remaining_time_at(now)
    }

    /// One check of a running timer at `now`: when it has reached its target
    /// it stops, and the result says that it ran out.
    pub fn check_at(&mut self, now: u128) -> (ran_out: bool)
        ensures
            ran_out == old(self)@.due_at(now as nat),
            final(self)@ == old(self)@.checked_at(now as nat),
            final(self).last_reading() == old(self).last_reading(),
    {
        let due = self.running && match self.target_time {
            Some(t) => t <= now,
            None => true,
        };
        if due {
            self.running = false;
        }
        due
    }

    /// One check of a running timer at the current moment of its clock.
    pub fn check(&mut self) -> (ran_out: bool)
        ensures
            exists|now: nat|
                {
                    &&& old(self).last_reading() <= now <= max_duration_nanos()
                    &&& final(self).last_reading() == now
                    &&& ran_out == old(self)@.due_at(now)
                    &&& final(self)@ == old(self)@.checked_at(now)
                },
    {
        let now = self.clock.now();
        let ran_out = self.check_at(now);
        assert(ran_out == old(self)@.due_at(now as nat));
        ran_out
    }
}

} // verus!
