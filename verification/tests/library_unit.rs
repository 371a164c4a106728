use roundtable::cadence::{default_cadence_path, load_or_default, searchable, Cadence, CadenceError, Weekday};
use roundtable::calendar::{add_days, fmt_ymd, from_jdn, parse_ymd, to_jdn};
use roundtable::ledger::{already_recorded, ledger_lines, LedgerEntry};
use roundtable::paths::{join_path, same_path};
use roundtable::session::{epoch_to_date, is_leap};
use roundtable::{dedup_check, entry_matches, plan_stage, resolve_tool, tool_candidates, StagePlan};

#[test]
fn weekday_parse_accepts_names_in_any_case() {
    assert_eq!(Weekday::parse("MONDAY"), Ok(Weekday::Mon));
    assert_eq!(Weekday::parse("Fri"), Ok(Weekday::Fri));
    assert_eq!(Weekday::parse("wednesday"), Ok(Weekday::Wed));
    assert_eq!(Weekday::parse("funday"), Err(CadenceError::UnknownWeekday));
    assert_eq!(Weekday::parse(""), Err(CadenceError::UnknownWeekday));
    for w in [Weekday::Mon, Weekday::Tue, Weekday::Wed, Weekday::Thu, Weekday::Fri, Weekday::Sat, Weekday::Sun] {
        assert_eq!(Weekday::parse(w.as_str()), Ok(w));
        assert_eq!(Weekday::from_index(w.index()), w);
    }
    assert_eq!(Weekday::from_index(9), Weekday::Wed);
    assert_eq!(Weekday::Sun.index(), 6);
}

#[test]
fn add_days_handles_leap_years_and_negative_steps() {
    assert_eq!(add_days("2024-02-28", 1).unwrap(), "2024-02-29");
    assert_eq!(add_days("2023-02-28", 1).unwrap(), "2023-03-01");
    assert_eq!(add_days("2026-03-01", -1).unwrap(), "2026-02-28");
    assert_eq!(add_days("2026-6-5", 0).unwrap(), "2026-06-05");
    assert_eq!(add_days("2026-06", 1), Err(CadenceError::InvalidDate));
}

#[test]
fn day_numbers_round_trip() {
    assert_eq!(to_jdn(1970, 1, 1), 2_440_588);
    assert_eq!(from_jdn(2_440_588), (1970, 1, 1));
    assert_eq!(from_jdn(to_jdn(2000, 2, 29)), (2000, 2, 29));
    assert_eq!(parse_ymd("2026-06-15"), Ok((2026, 6, 15)));
    assert_eq!(fmt_ymd(7, 3, 4), "0007-03-04");
    assert_eq!(fmt_ymd(-5, 3, 4), "-005-03-04");
}

#[test]
fn next_search_from_weekday_lists() {
    let mut c = Cadence::default();
    c.session_days = vec![Weekday::Wed];
    assert_eq!(c.next_session("2026-06-15").unwrap(), "2026-06-17");
    // Strictly after: from a Sunday the next bind day is a week later.
    assert_eq!(c.next_bind("2026-06-14").unwrap(), "2026-06-21");
    // Across a year end.
    assert_eq!(c.next_session("2026-12-31").unwrap(), "2027-01-06");
    assert!(c.is_digest_day("2026-06-15"));
    assert!(!c.is_session_day("not-a-date"));
}

#[test]
fn epoch_dates_are_calendar_dates() {
    assert_eq!(epoch_to_date(364 * 86400), "1970-12-31");
    assert_eq!(epoch_to_date(11_016 * 86400), "2000-02-29");
    assert_eq!(epoch_to_date(20_619 * 86400 + 86_399), "2026-06-15");
    assert!(is_leap(2000));
    assert!(!is_leap(1900));
}

#[test]
fn dedup_check_reads_json_lines() {
    let ledger = "{\"artifact\":\"/tmp/a.txt\",\"date\":\"2026-06-15\",\"crowned\":\"x\"}\r\nnot json\n";
    assert!(dedup_check(Some(ledger), "/tmp/a.txt", "2026-06-15"));
    assert!(!dedup_check(Some(ledger), "/tmp/a.txt", "2026-06-16"));
    assert!(!dedup_check(Some(ledger), "/tmp/b.txt", "2026-06-15"));
    assert!(!dedup_check(None, "/tmp/a.txt", "2026-06-15"));
}

#[test]
fn ledger_lines_trim_and_number() {
    let lines = ledger_lines("  a  \n\n\t\nb\r\n");
    assert_eq!(lines, vec![(0, "a".to_string()), (3, "b".to_string())]);
}

#[test]
fn paths_join_and_compare_by_components() {
    assert_eq!(join_path("/tmp", "a"), "/tmp/a");
    assert_eq!(join_path("/tmp/", "a"), "/tmp/a");
    assert_eq!(join_path("", "a"), "a");
    assert_eq!(join_path("/tmp", "/abs"), "/abs");
    assert!(same_path("/tmp//a.txt", "/tmp/a.txt"));
    assert!(same_path("/tmp/./a.txt/", "/tmp/a.txt"));
    assert!(!same_path("./a", "a"));
    assert!(!same_path("/a", "a"));
}

#[test]
fn tool_lookup_prefers_bin_dir_then_path() {
    let c = tool_candidates("tool", Some("/bins"), Some("/a::/b"));
    assert_eq!(c, vec!["/bins/tool", "/a/tool", "tool", "/b/tool"]);
    assert_eq!(resolve_tool("tool", Some("/bins"), Some("/a::/b"), &vec![false, false, false, true]), Some("/b/tool".to_string()));
    assert_eq!(resolve_tool("tool", None, None, &vec![]), None);
}

#[test]
fn plan_stage_cases() {
    let cmd = vec!["echo".to_string(), "hi".to_string()];
    match plan_stage(&cmd, true) {
        StagePlan::Print { line } => assert_eq!(line, "[dry-run] echo hi"),
        _ => panic!("expected a dry-run line"),
    }
    match plan_stage(&cmd, false) {
        StagePlan::Spawn { program, args } => {
            assert_eq!(program, "echo");
            assert_eq!(args, vec!["hi".to_string()]);
        }
        _ => panic!("expected a spawn"),
    }
    assert!(matches!(plan_stage(&vec![], false), StagePlan::Empty));
}

#[test]
fn cadence_config_location_and_fallback() {
    assert_eq!(default_cadence_path(Some("/x"), None), "/x/roundtable/cadence.json");
    assert_eq!(default_cadence_path(None, Some("/home/u")), "/home/u/.local/share/roundtable/cadence.json");
    assert_eq!(default_cadence_path(None, None), "/tmp/.local/share/roundtable/cadence.json");
    let c: Result<Cadence, String> = load_or_default(None);
    let c = c.unwrap();
    assert_eq!(c.bind_day, Weekday::Sun);
    assert_eq!(c.digest_day, Weekday::Mon);
    assert!(c.games_enabled);
    let e: Result<Cadence, String> = load_or_default(Some(Err("bad".to_string())));
    assert!(e.is_err());
}

#[test]
fn adding_then_subtracting_days_gives_the_date_back() {
    let later = add_days("2026-06-15", 400).unwrap();
    assert_eq!(later, "2027-07-20");
    assert_eq!(add_days(&later, -400).unwrap(), "2026-06-15");
}

#[test]
fn recorded_paths_are_deduplicated_as_paths() {
    let e = |p: &str| Some(LedgerEntry {
        artifact_path: Some(p.to_string()),
        date: Some("2026-06-15".to_string()),
        crowned: None,
    });
    let recorded = already_recorded(&vec![e("/tmp/b.txt"), e("/tmp/a.txt"), e("/tmp//b.txt"), e("/tmp/a.txt")], "2026-06-15");
    assert_eq!(recorded, Ok(vec!["/tmp/b.txt".to_string(), "/tmp/a.txt".to_string()]));
}

#[test]
fn a_ledger_line_that_does_not_parse_is_an_error() {
    let e = |p: &str| Some(LedgerEntry {
        artifact_path: Some(p.to_string()),
        date: Some("2026-06-15".to_string()),
        crowned: None,
    });
    assert_eq!(already_recorded(&vec![e("/tmp/a.txt"), None, e("/tmp/b.txt"), None], "2026-06-15"), Err(1));
    assert_eq!(already_recorded(&vec![None], "2026-06-14"), Err(0));
}

#[test]
fn error_messages_name_the_input() {
    assert_eq!(CadenceError::BadMonth.message("2026-xx-01"), "bad month in 2026-xx-01");
    assert_eq!(CadenceError::InvalidDate.message("2026"), "invalid date: 2026");
    assert_eq!(
        CadenceError::UnknownWeekday.message("FUNDAY"),
        "unknown weekday: funday; use mon/tue/wed/thu/fri/sat/sun"
    );
    assert_eq!(CadenceError::NoWeekdays.message(""), "no weekdays specified");
}

#[test]
fn lowercase_names_map_to_weekdays() {
    assert_eq!(Weekday::from_lowercase("thursday"), Ok(Weekday::Thu));
    assert_eq!(Weekday::from_lowercase("sat"), Ok(Weekday::Sat));
    assert_eq!(Weekday::from_lowercase("Sat"), Err(CadenceError::UnknownWeekday));
    assert_eq!(Weekday::from_lowercase("sunday "), Err(CadenceError::UnknownWeekday));
}

#[test]
fn ledger_entry_matches_both_members() {
    let s = |v: &str| Some(v.to_string());
    assert!(entry_matches(s("/tmp/a.txt"), s("2026-06-15"), "/tmp/a.txt", "2026-06-15"));
    assert!(!entry_matches(s("/tmp/a.txt"), s("2026-06-14"), "/tmp/a.txt", "2026-06-15"));
    assert!(!entry_matches(s("/tmp/b.txt"), s("2026-06-15"), "/tmp/a.txt", "2026-06-15"));
    assert!(!entry_matches(None, s("2026-06-15"), "/tmp/a.txt", "2026-06-15"));
    assert!(!entry_matches(s("/tmp/a.txt"), None, "/tmp/a.txt", "2026-06-15"));
}

#[test]
fn epoch_dates_keep_their_shape() {
    for days in [0u64, 59, 365, 10_957, 20_619, 99_999] {
        let date = epoch_to_date(days * 86400);
        assert_eq!(date.len(), 10, "{date}");
        assert_eq!(&date[4..5], "-");
        assert_eq!(&date[7..8], "-");
        let year: u32 = date[0..4].parse().unwrap();
        let month: u32 = date[5..7].parse().unwrap();
        let day: u32 = date[8..10].parse().unwrap();
        assert!(year >= 1970);
        assert!((1..=12).contains(&month));
        assert!((1..=31).contains(&day));
    }
    assert_eq!(epoch_to_date(20_619 * 86400), "2026-06-15");
}

#[test]
fn shifting_a_date_shifts_its_weekday() {
    let base = "2026-06-15";
    let w0 = roundtable::cadence::weekday_of(base).unwrap().index() as i64;
    for n in [-400i64, -8, -1, 0, 1, 6, 7, 30, 1000] {
        let moved = add_days(base, n).unwrap();
        let w = roundtable::cadence::weekday_of(&moved).unwrap().index() as i64;
        assert_eq!(w, (w0 + n).rem_euclid(7), "{moved}");
    }
}

#[test]
fn next_days_from_schedule_days() {
    let c = Cadence::default();
    assert_eq!(c.next_bind("2026-06-14"), Ok("2026-06-21".to_string()));
    assert_eq!(c.next_digest("2026-06-15"), Ok("2026-06-22".to_string()));
    assert_eq!(c.next_session("2026-06-15"), Ok("2026-06-15".to_string()));
    assert_eq!(c.next_session("2026-06-13"), Ok("2026-06-15".to_string()));
}

#[test]
fn searchable_dates_stop_at_the_largest_year() {
    assert!(searchable("2026-06-15"));
    assert!(searchable("not-a-date"));
    assert!(searchable("1000000000000000-01-01"));
    assert!(!searchable("1000000000000001-01-01"));
    assert!(Cadence::default().next_bind("1000000000000000-01-01").is_ok());
}
