use crolk::timer::{timer_display, Timer};

const SEC: u128 = 1_000_000_000;

#[test]
fn fresh_timer_shows_nothing_left() {
    let t = Timer::new();
    assert!(!t.is_running());
    assert!(!t.has_target());
    assert_eq!(t.paused_nanos(), None);
    assert_eq!(t.get_remaining_time_at(42), "00:00:00");
    assert_eq!(t.get_remaining_time(), "00:00:00");
}

#[test]
fn display_pads_to_two_digits() {
    assert_eq!(timer_display(0), "00:00:00");
    assert_eq!(timer_display(61 * SEC + 999_999_999), "00:01:01");
    assert_eq!(timer_display((3 * 3600 + 25 * 60 + 9) * SEC), "03:25:09");
    assert_eq!(timer_display((60 * 3600 + 60 * 60 + 60) * SEC), "61:01:00");
    assert_eq!(timer_display(123 * 3600 * SEC), "123:00:00");
}

#[test]
fn started_timer_counts_down() {
    let mut t = Timer::new();
    t.start_at(100 * SEC, 90 * SEC);
    assert!(t.is_running());
    assert!(t.has_target());
    assert_eq!(t.get_remaining_time_at(100 * SEC), "00:01:30");
    assert_eq!(t.get_remaining_time_at(130 * SEC + 1), "00:00:59");
    assert_eq!(t.get_remaining_time_at(500 * SEC), "00:00:00");
}

#[test]
fn pause_keeps_remaining_and_resume_continues() {
    let mut t = Timer::new();
    t.start_at(0, 60 * SEC);
    t.pause_at(20 * SEC);
    assert!(!t.is_running());
    assert_eq!(t.paused_nanos(), Some(40 * SEC));
    assert_eq!(t.get_remaining_time_at(1000 * SEC), "00:00:40");
    t.resume_at(1000 * SEC);
    assert!(t.is_running());
    assert_eq!(t.paused_nanos(), None);
    assert_eq!(t.get_remaining_time_at(1000 * SEC), "00:00:40");
    assert_eq!(t.get_remaining_time_at(1010 * SEC), "00:00:30");
}

#[test]
fn pause_after_the_target_keeps_nothing() {
    let mut t = Timer::new();
    t.start_at(0, 5 * SEC);
    t.pause_at(9 * SEC);
    assert_eq!(t.paused_nanos(), Some(0));
}

#[test]
fn stop_forgets_everything() {
    let mut t = Timer::new();
    t.start_at(0, 60 * SEC);
    t.pause_at(10 * SEC);
    t.stop();
    assert!(!t.is_running());
    assert!(!t.has_target());
    assert_eq!(t.paused_nanos(), None);
    assert_eq!(t.get_remaining_time_at(10 * SEC), "00:00:00");
    assert!(!t.check_at(100 * SEC));
}

#[test]
fn check_runs_out_at_the_target_only_once() {
    let mut t = Timer::new();
    t.start_at(0, 10 * SEC);
    assert!(!t.check_at(9 * SEC));
    assert!(t.is_running());
    assert!(t.check_at(10 * SEC));
    assert!(!t.is_running());
    assert_eq!(t.get_remaining_time_at(11 * SEC), "00:00:00");
    assert!(!t.check_at(12 * SEC));
}

#[test]
fn paused_timer_never_runs_out() {
    let mut t = Timer::new();
    t.start_at(0, 10 * SEC);
    t.pause_at(1 * SEC);
    assert!(!t.check_at(100 * SEC));
    assert_eq!(t.get_remaining_time_at(100 * SEC), "00:00:09");
}

#[test]
fn start_keeps_an_earlier_pause() {
    let mut t = Timer::new();
    t.start_at(0, 10 * SEC);
    t.pause_at(4 * SEC);
    t.start_at(4 * SEC, 100 * SEC);
    assert_eq!(t.paused_nanos(), Some(6 * SEC));
    assert_eq!(t.get_remaining_time_at(4 * SEC), "00:01:40");
}

#[test]
fn clock_timer_reads_its_duration() {
    let mut t = Timer::new();
    t.start(std::time::Duration::from_secs(3600 + 2 * 60 + 10).as_nanos());
    let face = t.get_remaining_time();
    assert!(face == "01:02:10" || face == "01:02:09", "{}", face);
    assert!(!t.check());
    t.pause();
    let kept = t.paused_nanos().unwrap();
    assert!(kept > 3700 * SEC && kept <= 3730 * SEC);
    t.resume();
    assert!(t.is_running());
    t.stop();
    assert_eq!(t.get_remaining_time(), "00:00:00");
}

#[test]
fn zero_timer_runs_out_at_once() {
    let mut t = Timer::new();
    t.start(0);
    assert!(t.check());
    assert!(!t.is_running());
}

#[test]
fn resume_shifts_the_target_by_the_pause() {
    let mut t = Timer::new();
    t.start_at(10 * SEC, 100 * SEC);
    t.pause_at(40 * SEC);
    let shown = t.get_remaining_time_at(40 * SEC);
    assert_eq!(shown, "00:01:10");
    t.resume_at(75 * SEC);
    assert_eq!(t.get_remaining_time_at(75 * SEC), shown);
    assert!(!t.check_at(144 * SEC));
    assert!(t.check_at(145 * SEC));
}

#[test]
fn time_left_never_grows_as_the_clock_runs() {
    let mut t = Timer::new();
    t.start(10 * SEC);
    let mut last = String::from("99:99:99");
    for _ in 0..200 {
        assert!(!t.check());
        let face = t.get_remaining_time();
        assert!(face <= last, "{} {}", face, last);
        last = face;
    }
    assert_eq!(t.get_remaining_time_at(u128::MAX / 2), "00:00:00");
}
