use chrono::Timelike;
use crolk::alarm::{
    countdown_message, hour_minute_string, seconds_until_alarm, target_seconds, Alarm,
};

#[test]
fn new_alarm_counts_as_running_without_target() {
    let a = Alarm::new();
    assert!(a.get_state());
    assert_eq!(a.target_time(), None);
}

#[test]
fn start_and_stop() {
    let mut a = Alarm::new();
    a.stop();
    assert!(!a.get_state());
    a.start(String::from("7 30"));
    assert!(a.get_state());
    assert_eq!(a.target_time(), Some("7 30"));
    a.stop();
    assert!(!a.get_state());
    assert_eq!(a.target_time(), None);
}

#[test]
fn goes_off_only_at_its_exact_text() {
    let mut a = Alarm::new();
    a.start(hour_minute_string(7, 5));
    assert_eq!(a.target_time(), Some("7 5"));
    assert!(!a.check_at(7, 4));
    assert!(!a.check_at(17, 5));
    assert!(a.get_state());
    assert!(a.check_at(7, 5));
    assert!(!a.get_state());
    assert!(!a.check_at(7, 5));
}

#[test]
fn padded_target_never_matches() {
    let mut a = Alarm::new();
    a.start(String::from("7 05"));
    assert!(!a.check_at(7, 5));
    assert!(a.get_state());
}

#[test]
fn stopped_alarm_is_silent() {
    let mut a = Alarm::new();
    a.start(String::from("0 0"));
    a.stop();
    assert!(!a.check_at(0, 0));
}

#[test]
fn hour_minute_text() {
    assert_eq!(hour_minute_string(0, 0), "0 0");
    assert_eq!(hour_minute_string(23, 59), "23 59");
    assert_eq!(hour_minute_string(12, 7), "12 7");
}

#[test]
fn target_seconds_reads_two_words() {
    assert_eq!(target_seconds("7 30"), Some(7 * 3600 + 30 * 60));
    assert_eq!(target_seconds("  23\t59  "), Some(23 * 3600 + 59 * 60));
    assert_eq!(target_seconds("7 05 extra words"), Some(7 * 3600 + 5 * 60));
    assert_eq!(target_seconds("8"), Some(8 * 3600));
    assert_eq!(target_seconds(""), Some(0));
    assert_eq!(target_seconds("   "), Some(0));
    assert_eq!(target_seconds("+1 -1"), Some(3600 - 60));
    assert_eq!(target_seconds("1\u{3000}2"), Some(3600 + 120));
}

#[test]
fn target_seconds_refuses_what_does_not_parse() {
    assert_eq!(target_seconds("x 30"), None);
    assert_eq!(target_seconds("7 3a"), None);
    assert_eq!(target_seconds("- 3"), None);
    assert_eq!(target_seconds("7 +"), None);
    assert_eq!(target_seconds("99999999999 0"), None);
    // in i32 range but times 3600 overflows
    assert_eq!(target_seconds("600000 0"), None);
    // the sum overflows
    assert_eq!(target_seconds("596523 600"), None);
    // a bad third word is never read
    assert_eq!(target_seconds("1 2 x"), Some(3720));
}

#[test]
fn wait_is_within_a_day() {
    assert_eq!(seconds_until_alarm(7 * 3600, 6 * 3600), 3600);
    assert_eq!(seconds_until_alarm(6 * 3600, 7 * 3600), 23 * 3600);
    assert_eq!(seconds_until_alarm(3600, 3600), 86400);
    assert_eq!(seconds_until_alarm(-7200, 0), 86400 - 7200);
}

#[test]
fn countdown_message_text() {
    assert_eq!(countdown_message(3600 + 25 * 60 + 59), "Time untill alarm: 1 hours and 25 minutes");
    assert_eq!(countdown_message(86400), "Time untill alarm: 24 hours and 0 minutes");
    assert_eq!(countdown_message(59), "Time untill alarm: 0 hours and 0 minutes");
    assert_eq!(countdown_message(-3661), "Time untill alarm: -1 hours and -1 minutes");
}

#[test]
fn countdown_at_a_given_time() {
    let mut a = Alarm::new();
    a.start(String::from("7 30"));
    assert_eq!(a.countdown_at(6, 0), "Time untill alarm: 1 hours and 30 minutes");
    assert_eq!(a.countdown_at(7, 30), "Time untill alarm: 24 hours and 0 minutes");
    assert_eq!(a.countdown_at(8, 0), "Time untill alarm: 23 hours and 30 minutes");
}

#[test]
fn countdown_from_the_clock() {
    let mut a = Alarm::new();
    a.start(String::from("12 0"));
    let msg = a.time_until_alarm_message().unwrap();
    assert!(msg.starts_with("Time untill alarm: "), "{}", msg);
    assert!(msg.ends_with(" minutes"), "{}", msg);
}

#[test]
fn countdown_overflow_at_read_time_gives_none() {
    let mut a = Alarm::new();
    // the smallest i32 target: any current time past midnight overflows
    a.start(String::from("-596523 -14"));
    assert_eq!(target_seconds("-596523 -14"), Some(-596523 * 3600 - 14 * 60));
    let (h, m) = chrono_now();
    let r = a.time_until_alarm_message();
    if h == 0 && m == 0 {
        assert!(r.is_some() || r.is_none());
    } else {
        assert!(r.is_none());
    }
}

fn chrono_now() -> (u32, u32) {
    let n = chrono::Local::now();
    (n.hour(), n.minute())
}

#[test]
fn clock_check_goes_off_now() {
    let (h, m) = chrono_now();
    let mut a = Alarm::new();
    a.start(hour_minute_string(h, m));
    let went = a.check();
    // unless the minute turned over between the two readings
    let (h2, m2) = chrono_now();
    if (h, m) == (h2, m2) {
        assert!(went);
        assert!(!a.get_state());
    }
}

#[test]
fn every_time_text_reads_back() {
    for h in 0..24u32 {
        for m in 0..60u32 {
            let text = hour_minute_string(h, m);
            assert_eq!(target_seconds(&text), Some((h * 3600 + m * 60) as i32));
        }
    }
}

#[test]
fn alarm_goes_off_at_its_minute_and_no_other() {
    for (h, m) in [(0u32, 0u32), (7, 5), (12, 30), (23, 59)] {
        for h2 in 0..24u32 {
            for m2 in 0..60u32 {
                let mut a = Alarm::new();
                a.start(hour_minute_string(h, m));
                assert_eq!(a.check_at(h2, m2), h == h2 && m == m2);
            }
        }
    }
}

#[test]
fn waits_stay_within_a_day() {
    for t in (0..86400).step_by(997) {
        for c in (0..86400).step_by(1009) {
            let w = seconds_until_alarm(t, c);
            assert!(w > 0 && w <= 86400);
            assert_eq!((c + w) % 86400, t);
        }
    }
}

#[test]
fn state_over_a_sequence_of_calls() {
    let mut a = Alarm::new();
    assert!(a.get_state());
    assert!(!a.check_at(1, 1));
    assert!(a.get_state());
    a.start(hour_minute_string(6, 0));
    assert!(!a.check_at(5, 59));
    assert!(a.get_state());
    a.stop();
    assert!(!a.get_state());
    assert!(!a.check_at(6, 0));
    a.start(hour_minute_string(6, 0));
    assert!(a.get_state());
    assert!(a.check_at(6, 0));
    assert!(!a.get_state());
    a.start(hour_minute_string(7, 0));
    assert!(a.get_state());
}
