use chrono::NaiveDate;
use crolk::clock::{clock_face_text, current_time, Clock};

fn chrono_face(y: i32, mo: u32, d: u32, h: u32, mi: u32, s: u32) -> String {
    let t = NaiveDate::from_ymd_opt(y, mo, d).unwrap().and_hms_opt(h, mi, s).unwrap();
    t.format("%Y-%m-%d %I:%M:%S %p").to_string()
}

#[test]
fn clock_face_examples() {
    assert_eq!(clock_face_text(2024, 3, 7, 0, 5, 9), "2024-03-07 12:05:09 AM");
    assert_eq!(clock_face_text(2024, 12, 31, 12, 0, 0), "2024-12-31 12:00:00 PM");
    assert_eq!(clock_face_text(999, 1, 1, 13, 59, 60), "0999-01-01 01:59:60 PM");
    assert_eq!(clock_face_text(-5, 1, 1, 23, 1, 2), "-0005-01-01 11:01:02 PM");
    assert_eq!(clock_face_text(12345, 1, 1, 11, 1, 2), "+12345-01-01 11:01:02 AM");
}

#[test]
fn clock_face_matches_chrono() {
    for y in [-262000, -12345, -1000, -1, 0, 7, 99, 999, 1000, 1970, 2024, 9999, 10000, 262000] {
        for h in 0..24 {
            let (mo, d, mi, s) = (1 + (h % 12), 1 + h, h * 2, 59 - h);
            assert_eq!(clock_face_text(y, mo, d, h, mi, s), chrono_face(y, mo, d, h, mi, s));
        }
    }
}

#[test]
fn current_time_has_the_face_shape() {
    let face = current_time();
    assert!(face.ends_with(" AM") || face.ends_with(" PM"), "{}", face);
    assert_eq!(face.len(), "2024-01-01 01:01:01 AM".len());
    let bytes = face.as_bytes();
    for i in [4, 7] {
        assert_eq!(bytes[i], b'-', "{}", face);
    }
    for i in [13, 16] {
        assert_eq!(bytes[i], b':', "{}", face);
    }
}

#[test]
fn clock_readings_never_go_back() {
    let mut c = Clock::new();
    let mut last = 0;
    for _ in 0..1000 {
        let r = c.now();
        assert!(r >= last);
        assert!(c.peek() >= r);
        last = r;
    }
}
