//! A stopwatch with laps.

use vstd::prelude::*;
use crate::clock::{Clock, max_duration_nanos};
use crate::text::{decimal, push_char, push_decimal};

verus! {

/// Nanoseconds in one second.
pub const NANOS_PER_SEC: u128 = 1_000_000_000;

/// Nanoseconds in one millisecond.
pub const NANOS_PER_MILLI: u128 = 1_000_000;

/// What a stopwatch holds, its clock aside. Times are nanoseconds on the
/// stopwatch's own monotonic clock.
pub struct StopwatchModel {
    pub start_time: Option<nat>,
    pub elapsed: nat,
    pub running: bool,
    pub lap_number: nat,
}

/// `a - b`, or zero where `b` is later than `a` (as `Instant - Instant` does).
pub open spec fn saturating_diff(a: nat, b: nat) -> nat {
    if a >= b {
        (a - b) as nat
    } else {
        0
    }
}

/// The stopwatch face for `elapsed` nanoseconds: whole minutes, the seconds
/// within the minute, and the milliseconds within the second taken modulo 100,
/// joined by dots and without padding (`"{}.{}.{}"`).
pub open spec fn stopwatch_face(elapsed: nat) -> Seq<char> {
    let secs = elapsed / 1_000_000_000;
    let millis = (elapsed % 1_000_000_000) / 1_000_000;
    decimal(secs / 60) + seq!['.'] + decimal(secs % 60) + seq!['.'] + decimal(millis % 100)
}

impl StopwatchModel {
    /// A stopwatch that has never run.
    pub open spec fn initial() -> StopwatchModel {
        StopwatchModel { start_time: None, elapsed: 0, running: false, lap_number: 1 }
    }

    /// `start` at the moment `now`: a stopped stopwatch starts counting from
    /// `now`; a running one is left as it is.
    pub open spec fn started(self, now: nat) -> StopwatchModel {
        if self.running {
            self
        } else {
            StopwatchModel { start_time: Some(now), running: true, ..self }
        }
    }

    /// The elapsed time the stopwatch records when it is read at `now`: while
    /// it runs, the time since its start (zero without a start); else the last
    /// recorded value.
    pub open spec fn elapsed_at(self, now: nat) -> nat {
        if self.running {
            match self.start_time {
                Some(s) => saturating_diff(now, s),
                None => 0,
            }
        } else {
            self.elapsed
        }
    }

    /// The stopwatch after it has been read at `now`.
    pub open spec fn read_at(self, now: nat) -> StopwatchModel {
        StopwatchModel { elapsed: self.elapsed_at(now), ..self }
    }

    /// `pause_unpause`: only the running flag flips; the start is kept.
    pub open spec fn toggled(self) -> StopwatchModel {
        StopwatchModel { running: !self.running, ..self }
    }

    /// `lap`: the lap counter moves on by one.
    pub open spec fn lapped(self) -> StopwatchModel {
        StopwatchModel { lap_number: self.lap_number + 1, ..self }
    }
}

/// Pausing and unpausing again gives back the stopwatch as it was.
pub proof fn law_pause_unpause_twice(m: StopwatchModel)
    ensures
        m.toggled().toggled() == m,
{
}

/// A stopped stopwatch started at `t0` reads `t1 - t0` at any later `t1`.
pub proof fn law_started_counts_from_start(m: StopwatchModel, t0: nat, t1: nat)
    requires
        !m.running,
        t0 <= t1,
    ensures
        m.started(t0).elapsed_at(t1) == t1 - t0,
{
}

/// While paused, the stopwatch shows the last time recorded, whenever read.
pub proof fn law_paused_face_is_frozen(m: StopwatchModel, t: nat)
    requires
        !m.running,
    ensures
        m.read_at(t) == m,
        m.elapsed_at(t) == m.elapsed,
{
}

/// Unpausing does not restart the count: a resumed stopwatch reads the time
/// since its first start, the paused stretch included.
pub proof fn law_unpause_counts_from_first_start(m: StopwatchModel, s: nat, t: nat)
    requires
        !m.running,
        m.start_time == Some(s),
        s <= t,
    ensures
        m.toggled().elapsed_at(t) == t - s,
{
}

/// A lap moves only the lap number: the time shown before and after is the
/// same.
pub proof fn law_lap_keeps_time(m: StopwatchModel, t: nat)
    ensures
        m.lapped().elapsed_at(t) == m.elapsed_at(t),
        m.lapped().lap_number == m.lap_number + 1,
{
}

/// Read at a later moment, a stopwatch never shows less time than it did:
/// its elapsed time does not decrease as the moment of reading advances.
pub proof fn law_reading_never_goes_back(m: StopwatchModel, t1: nat, t2: nat)
    requires
        t1 <= t2,
    ensures
        m.read_at(t1).elapsed_at(t2) >= m.read_at(t1).elapsed,
        m.elapsed_at(t1) <= m.elapsed_at(t2),
{
}

/// A fresh stopwatch shows `0.0.0`.
pub proof fn law_fresh_face(t: nat)
    ensures
        stopwatch_face(StopwatchModel::initial().elapsed_at(t)) == "0.0.0"@,
{
    reveal_strlit("0.0.0");
    assert(stopwatch_face(0) =~= "0.0.0"@);
}

/// A stopwatch: it counts from its start, can be paused and resumed, and
/// numbers the laps taken.
#[derive(Clone, Copy, Debug)]
pub struct Stopwatch {
    clock: Clock,
    start_time: Option<u128>,
    elapsed: u128,
    running: bool,
    lap_number: u8,
}

impl View for Stopwatch {
    type V = StopwatchModel;

    closed spec fn view(&self) -> StopwatchModel {
        StopwatchModel {
            start_time: match self.start_time {
                Some(s) => Some(s as nat),
                None => None,
            },
            elapsed: self.elapsed as nat,
            running: self.running,
            lap_number: self.lap_number as nat,
        }
    }
}

/// Renders `elapsed` nanoseconds as the stopwatch face.
pub fn stopwatch_display(elapsed: u128) -> (r: String)
    ensures
        r@ == stopwatch_face(elapsed as nat),
{
    let secs = elapsed / NANOS_PER_SEC;
    let millis = (elapsed % NANOS_PER_SEC) / NANOS_PER_MILLI;
    let mut s = String::new();
    push_decimal(&mut s, secs / 60);
    push_char(&mut s, '.');
    push_decimal(&mut s, secs % 60);
    push_char(&mut s, '.');
    push_decimal(&mut s, millis % 100);
    s
}

impl Stopwatch {
    /// The last moment of its clock that the stopwatch read.
    pub closed spec fn last_reading(&self) -> nat {
        self.clock.last_reading()
    }

    /// A stopwatch that has never run, with lap number 1.
    pub fn new() -> (s: Stopwatch)
        ensures
            s@ == StopwatchModel::initial(),
            s.last_reading() == 0,
    {
        Stopwatch {
            clock: Clock::new(),
            start_time: None,
            elapsed: 0,
            running: false,
            lap_number: 1,
        }
    }

    /// Whether the stopwatch is counting.
    pub fn is_running(&self) -> (r: bool)
        ensures
            r == self@.running,
    {
        self.running
    }

    /// The number the next lap will get.
    pub fn lap_number(&self) -> (r: u8)
        ensures
            r == self@.lap_number,
    {
        self.lap_number
    }

    /// Starts the stopwatch at the moment `now`, unless it is already running.
    pub fn start_at(&mut self, now: u128)
        ensures
            final(self)@ == old(self)@.started(now as nat),
            final(self).last_reading() == old(self).last_reading(),
    {
        if !self.running {
            self.start_time = Some(now);
            self.running = true;
        }
    }

    /// Starts the stopwatch at the current moment of its clock, unless it is
    /// already running.
    pub fn start(&mut self)
        ensures
            exists|now: nat|
                {
                    &&& old(self).last_reading() <= now <= max_duration_nanos()
                    &&& final(self).last_reading() == now
                    &&& final(self)@ == old(self)@.started(now)
                },
    {
        let now = self.clock.now();
        self.start_at(now);
        assert(final(self)@ == old(self)@.started(now as nat));
    }

    /// Reads the stopwatch at the moment `now`: records the elapsed time and
    /// returns its face.
    pub fn get_elapsed_at(&mut self, now: u128) -> (r: String)
        ensures
            final(self)@ == old(self)@.read_at(now as nat),
            final(self).last_reading() == old(self).last_reading(),
            r@ == stopwatch_face(old(self)@.elapsed_at(now as nat)),
    {
        if self.running {
            let start = match self.start_time {
                Some(s) => s,
                None => now,
            };
            self.elapsed = if now >= start { now - start } else { 0 };
        }
        stopwatch_display(self.elapsed)
    }

    /// Reads the stopwatch at the current moment of its clock: records the
    /// elapsed time and returns its face.
    pub fn get_elapsed(&mut self) -> (r: String)
        ensures
            exists|now: nat|
                {
                    &&& old(self).last_reading() <= now <= max_duration_nanos()
                    &&& final(self).last_reading() == now
                    &&& final(self)@ == old(self)@.read_at(now)
                    &&& r@ == stopwatch_face(old(self)@.elapsed_at(now))
                },
    {
        let now = self.clock.now();
        let r = self.get_elapsed_at(now);
        assert(r@ == stopwatch_face(old(self)@.elapsed_at(now as nat)));
        r
    }

    /// Pauses a running stopwatch or resumes a paused one. Its start is kept,
    /// so a resumed stopwatch counts from its first start.
    pub fn pause_unpause(&mut self)
        ensures
            final(self)@ == old(self)@.toggled(),
            final(self).last_reading() == old(self).last_reading(),
    {
        self.running = !self.running;
    }

    /// Takes a lap: returns the lap's number and the face of the elapsed time
    /// last recorded, and moves the lap number on.
    pub fn lap(&mut self) -> (r: (u8, String))
        requires
            old(self)@.lap_number < 255,
        ensures
            final(self)@ == old(self)@.lapped(),
            final(self).last_reading() == old(self).last_reading(),
            r.0 == old(self)@.lap_number,
            r.1@ == stopwatch_face(old(self)@.elapsed),
    {
        self.lap_number = self.lap_number + 1;
        (self.lap_number - 1, stopwatch_display(self.elapsed))
    }
}

} // verus!
