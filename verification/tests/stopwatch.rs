use crolk::stopwatch::{stopwatch_display, Stopwatch, NANOS_PER_MILLI, NANOS_PER_SEC};

const SEC: u128 = NANOS_PER_SEC;
const MS: u128 = NANOS_PER_MILLI;

#[test]
fn fresh_stopwatch_shows_zero() {
    let mut sw = Stopwatch::new();
    assert!(!sw.is_running());
    assert_eq!(sw.lap_number(), 1);
    assert_eq!(sw.get_elapsed_at(123 * SEC), "0.0.0");
    assert_eq!(sw.get_elapsed(), "0.0.0");
}

#[test]
fn display_splits_minutes_seconds_millis() {
    assert_eq!(stopwatch_display(0), "0.0.0");
    // 125.345 s: 2 minutes, 5 seconds, 345 ms shown modulo 100
    assert_eq!(stopwatch_display(125 * SEC + 345 * MS), "2.5.45");
    // 59.999 s
    assert_eq!(stopwatch_display(59 * SEC + 999 * MS + 999_999), "0.59.99");
    // an hour and a bit: minutes are not wrapped
    assert_eq!(stopwatch_display(3661 * SEC + 7 * MS), "61.1.7");
}

#[test]
fn started_stopwatch_counts_from_its_start() {
    let mut sw = Stopwatch::new();
    sw.start_at(10 * SEC);
    assert!(sw.is_running());
    assert_eq!(sw.get_elapsed_at(10 * SEC), "0.0.0");
    assert_eq!(sw.get_elapsed_at(75 * SEC + 120 * MS), "1.5.20");
}

#[test]
fn start_on_a_running_stopwatch_changes_nothing() {
    let mut sw = Stopwatch::new();
    sw.start_at(0);
    sw.start_at(50 * SEC);
    assert_eq!(sw.get_elapsed_at(60 * SEC), "1.0.0");
}

#[test]
fn paused_stopwatch_keeps_its_face_and_resumes_from_first_start() {
    let mut sw = Stopwatch::new();
    sw.start_at(0);
    assert_eq!(sw.get_elapsed_at(30 * SEC), "0.30.0");
    sw.pause_unpause();
    assert!(!sw.is_running());
    assert_eq!(sw.get_elapsed_at(90 * SEC), "0.30.0");
    sw.pause_unpause();
    assert!(sw.is_running());
    assert_eq!(sw.get_elapsed_at(100 * SEC), "1.40.0");
}

#[test]
fn pause_unpause_twice_restores() {
    let mut sw = Stopwatch::new();
    sw.start_at(5 * SEC);
    sw.pause_unpause();
    sw.pause_unpause();
    assert!(sw.is_running());
    assert_eq!(sw.get_elapsed_at(7 * SEC), "0.2.0");
}

#[test]
fn laps_number_up_and_show_the_recorded_time() {
    let mut sw = Stopwatch::new();
    sw.start_at(0);
    sw.get_elapsed_at(12 * SEC + 340 * MS);
    let (n, t) = sw.lap();
    assert_eq!(n, 1);
    assert_eq!(t, "0.12.40");
    let (n, t) = sw.lap();
    assert_eq!(n, 2);
    assert_eq!(t, "0.12.40");
    assert_eq!(sw.lap_number(), 3);
    assert_eq!(sw.get_elapsed_at(12 * SEC + 340 * MS), "0.12.40");
}

#[test]
fn lap_before_any_reading_shows_zero() {
    let mut sw = Stopwatch::new();
    let (n, t) = sw.lap();
    assert_eq!((n, t.as_str()), (1, "0.0.0"));
}

#[test]
fn unpausing_a_fresh_stopwatch_counts_nothing() {
    let mut sw = Stopwatch::new();
    sw.pause_unpause();
    assert!(sw.is_running());
    assert_eq!(sw.get_elapsed_at(99 * SEC), "0.0.0");
}

#[test]
fn clock_readings_move_forward() {
    let mut sw = Stopwatch::new();
    sw.start();
    let t0 = std::time::Instant::now();
    while t0.elapsed() < std::time::Duration::from_millis(30) {}
    let face = sw.get_elapsed();
    assert!(face.starts_with("0.0."), "{}", face);
    assert_ne!(face, "0.0.0");
}

#[test]
fn running_stopwatch_never_shows_less() {
    let mut sw = Stopwatch::new();
    sw.start();
    let mut last = 0u128;
    for _ in 0..200 {
        let face = sw.get_elapsed();
        let parts: Vec<u128> = face.split('.').map(|p| p.parse().unwrap()).collect();
        let secs = parts[0] * 60 + parts[1];
        assert!(secs >= last);
        last = secs;
    }
    assert_eq!(stopwatch_display(0), "0.0.0");
}
