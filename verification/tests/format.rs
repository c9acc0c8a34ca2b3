use countdown_server::display::format_time;
use countdown_server::total_seconds;

#[test]
fn format_seconds_only() {
    assert_eq!(format_time(0), "00");
    assert_eq!(format_time(5), "05");
    assert_eq!(format_time(59), "59");
}

#[test]
fn format_minutes() {
    assert_eq!(format_time(60), "01:00");
    assert_eq!(format_time(61), "01:01");
    assert_eq!(format_time(3599), "59:59");
}

#[test]
fn format_hours() {
    assert_eq!(format_time(3600), "01:00:00");
    assert_eq!(format_time(3661), "01:01:01");
    assert_eq!(format_time(4500), "01:15:00");
    assert_eq!(format_time(359999), "99:59:59");
}

#[test]
fn format_hours_beyond_two_digits() {
    assert_eq!(format_time(360000), "100:00:00");
}

#[test]
fn total_seconds_formula() {
    assert_eq!(total_seconds(1, 15, 0), Some(4500));
    assert_eq!(total_seconds(0, 0, 0), Some(0));
    assert_eq!(total_seconds(99, 59, 59), Some(359999));
    assert_eq!(total_seconds(0, 0, u32::MAX), Some(u32::MAX));
}

#[test]
fn total_seconds_overflow_refused() {
    assert_eq!(total_seconds(u32::MAX, 0, 0), None);
    assert_eq!(total_seconds(0, u32::MAX, u32::MAX), None);
    assert_eq!(total_seconds(1193047, 0, 0), None);
    assert_eq!(total_seconds(1193046, 0, 0), Some(4294965600));
}
