use roundtable::cadence::{weekday_of, Cadence, Weekday};

#[test]
fn cadence_tests_test_default_cadence_has_five_session_days() {
    let c = Cadence::default();
    assert_eq!(c.session_days.len(), 5);
}

#[test]
fn cadence_tests_test_is_session_day_monday() {
    let c = Cadence::default();
    // 2026-06-15 is a Monday
    assert!(c.is_session_day("2026-06-15"), "Monday should be a session day");
}

#[test]
fn cadence_tests_test_is_session_day_saturday_false() {
    let c = Cadence::default();
    // 2026-06-13 is a Saturday
    assert!(!c.is_session_day("2026-06-13"), "Saturday should not be a session day");
}

#[test]
fn cadence_tests_test_is_bind_day_sunday() {
    let c = Cadence::default();
    // 2026-06-14 is a Sunday
    assert!(c.is_bind_day("2026-06-14"), "Sunday should be the bind day");
}

#[test]
fn test_weekday_of_monday() {
    // 2026-06-15 is a Monday
    assert_eq!(weekday_of("2026-06-15").unwrap(), Weekday::Mon);
}
