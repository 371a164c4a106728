use roundtable::cadence::{weekday_of, Cadence, CadenceError, Weekday};
use roundtable::calendar::{add_days, days_in_month};

#[test]
fn cadence_test_default_cadence_has_five_session_days() {
    let c = Cadence::default();
    assert_eq!(c.session_days.len(), 5);
    for wd in &[
        Weekday::Mon,
        Weekday::Tue,
        Weekday::Wed,
        Weekday::Thu,
        Weekday::Fri,
    ] {
        assert!(c.session_days.contains(wd), "{} should be a session day", wd.as_str());
    }
}

#[test]
fn cadence_test_is_session_day_monday() {
    let c = Cadence::default();
    // 2026-06-15 is a Monday
    assert!(c.is_session_day("2026-06-15"), "Monday should be a session day");
}

#[test]
fn cadence_test_is_session_day_saturday_false() {
    let c = Cadence::default();
    // 2026-06-13 is a Saturday
    assert!(!c.is_session_day("2026-06-13"), "Saturday should not be a session day");
}

#[test]
fn cadence_test_is_bind_day_sunday() {
    let c = Cadence::default();
    // 2026-06-14 is a Sunday
    assert!(c.is_bind_day("2026-06-14"), "Sunday should be the bind day");
}

#[test]
fn test_next_session_from_friday_gives_monday() {
    let c = Cadence::default();
    // 2026-06-19 is a Friday
    let next = c.next_session("2026-06-20").unwrap(); // Saturday → next is Monday
    assert_eq!(next, "2026-06-22", "next session after Saturday should be Monday 2026-06-22");
}

#[test]
fn test_next_session_from_friday_same_day() {
    let c = Cadence::default();
    // 2026-06-19 is a Friday — next_session on that day returns same day
    let next = c.next_session("2026-06-19").unwrap();
    assert_eq!(next, "2026-06-19");
}

#[test]
fn test_cadence_set_updates_session_days() {
    let mut c = Cadence::default();
    c.session_days = vec![Weekday::Mon, Weekday::Wed, Weekday::Fri];
    assert_eq!(c.session_days.len(), 3);
    assert!(c.session_days.contains(&Weekday::Mon));
    assert!(c.session_days.contains(&Weekday::Wed));
    assert!(c.session_days.contains(&Weekday::Fri));
    assert!(!c.session_days.contains(&Weekday::Tue));
}

#[test]
fn test_weekday_of_known_dates() {
    // 2026-06-15 is Monday
    assert_eq!(weekday_of("2026-06-15").unwrap(), Weekday::Mon);
    // 2026-06-16 is Tuesday
    assert_eq!(weekday_of("2026-06-16").unwrap(), Weekday::Tue);
    // 2026-06-14 is Sunday
    assert_eq!(weekday_of("2026-06-14").unwrap(), Weekday::Sun);
    // 2026-06-13 is Saturday
    assert_eq!(weekday_of("2026-06-13").unwrap(), Weekday::Sat);
    // 2026-06-19 is Friday
    assert_eq!(weekday_of("2026-06-19").unwrap(), Weekday::Fri);
}

#[test]
fn test_next_bind_from_saturday_gives_sunday() {
    let c = Cadence::default();
    // 2026-06-13 is Saturday, next bind (Sunday) is 2026-06-14
    let next = c.next_bind("2026-06-13").unwrap();
    assert_eq!(next, "2026-06-14");
}

#[test]
fn test_next_digest_from_saturday_gives_monday() {
    let c = Cadence::default();
    // 2026-06-13 is Saturday, next digest (Monday) is 2026-06-15
    let next = c.next_digest("2026-06-13").unwrap();
    assert_eq!(next, "2026-06-15");
}

#[test]
fn test_days_in_month_leap() {
    assert_eq!(days_in_month(2024, 2), 29);
    assert_eq!(days_in_month(2023, 2), 28);
    assert_eq!(days_in_month(2000, 2), 29);
    assert_eq!(days_in_month(1900, 2), 28);
}

#[test]
fn test_add_days_wraps_month() {
    assert_eq!(add_days("2026-01-31", 1).unwrap(), "2026-02-01");
    assert_eq!(add_days("2026-12-31", 1).unwrap(), "2027-01-01");
}

#[test]
fn weekday_of_rejects_malformed_dates() {
    assert_eq!(weekday_of("2026/06/15"), Err(CadenceError::InvalidDate));
    assert_eq!(weekday_of("2026-06"), Err(CadenceError::InvalidDate));
    assert_eq!(weekday_of("20x6-06-15"), Err(CadenceError::BadYear));
    assert_eq!(weekday_of("-2026-06-15"), Err(CadenceError::BadYear));
    assert_eq!(weekday_of("2026--15"), Err(CadenceError::BadMonth));
    assert_eq!(weekday_of("2026-06-1-5"), Err(CadenceError::BadDay));
    assert_eq!(weekday_of("2026-06-"), Err(CadenceError::BadDay));
}

#[test]
fn next_session_with_no_days_errs() {
    let mut c = Cadence::default();
    c.session_days = vec![];
    assert_eq!(c.next_session("2026-06-15"), Err(CadenceError::NoWeekdays));
}
