use roundtable::session::{
    default_ledger, lunch_state_dir, session_date, table_path, xdg_dir, Action, Event, ExitReport, Phase,
    Session, SessionConfig,
};
use roundtable::tools::{bin_candidates, resolve_bin, resolve_required, Tool, ToolProbe};
use roundtable::table::{Dish, Provenance, Table};

fn config(dry_run: bool, columns_dir: Option<&str>) -> SessionConfig {
    SessionConfig {
        date: "2026-06-15".to_string(),
        dry_run,
        lunch_bin: "/bin/the-lunch".to_string(),
        circle_bin: "/bin/vicious-circle".to_string(),
        tower_bin: "/bin/conning-tower".to_string(),
        ledger: "/data/ledger.jsonl".to_string(),
        columns_dir: columns_dir.map(|s| s.to_string()),
        table_path: "/state/the-lunch/2026-06-15/table.json".to_string(),
    }
}

fn ok() -> Event {
    Event::Exited(ExitReport { started: true, success: true, code: Some(0) })
}

fn table_of(paths: &[&str]) -> Table {
    Table {
        dishes: paths
            .iter()
            .map(|p| Dish { present: true, provenance: Provenance { artifact_path: Some(p.to_string()) } })
            .collect(),
    }
}

fn run_argv(action: &Action) -> Vec<String> {
    match action {
        Action::Run { argv, .. } => argv.clone(),
        other => panic!("expected a command, got {other:?}"),
    }
}

#[test]
fn dry_run_prints_plan_and_runs_nothing() {
    let mut s = Session::new(config(true, None));
    let step = s.step(Event::Begin);
    assert!(matches!(step.action, Action::Finish));
    assert_eq!(s.phase, Phase::Done);
    assert_eq!(step.output.len(), 7);
    assert!(step.output.iter().all(|l| l.contains("dry-run") || l.starts_with("  command:")));
    assert_eq!(step.output[1], "  command: /bin/the-lunch lunch --date 2026-06-15");
    assert!(step.output[5].ends_with("--columns-dir <--columns-dir required>"));
}

#[test]
fn full_chain_critiques_composes_and_summarises() {
    let mut s = Session::new(config(false, Some("/cols")));
    let step = s.step(Event::Begin);
    assert_eq!(run_argv(&step.action), vec!["/bin/the-lunch", "lunch", "--date", "2026-06-15"]);
    let step = s.step(ok());
    assert_eq!(step.output, vec!["✓ lunch: table set for 2026-06-15".to_string()]);
    match &step.action {
        Action::LoadTable { path } => assert_eq!(path, "/state/the-lunch/2026-06-15/table.json"),
        other => panic!("expected LoadTable, got {other:?}"),
    }
    let step = s.step(Event::TableLoaded(Ok(table_of(&["/tmp/a.txt"]))));
    assert!(matches!(step.action, Action::LoadRecorded));
    let step = s.step(Event::RecordedLoaded(Ok(vec![])));
    assert_eq!(run_argv(&step.action), vec!["/bin/vicious-circle", "record", "/tmp/a.txt", "--ledger", "/data/ledger.jsonl"]);
    let step = s.step(ok());
    assert_eq!(step.output, vec!["  ✓ critiqued: /tmp/a.txt".to_string()]);
    assert_eq!(
        run_argv(&step.action),
        vec!["/bin/conning-tower", "compose", "--ledger", "/data/ledger.jsonl", "--date", "2026-06-15"]
    );
    let step = s.step(ok());
    assert_eq!(
        run_argv(&step.action),
        vec![
            "/bin/conning-tower", "syndicate", "--ledger", "/data/ledger.jsonl", "--date", "2026-06-15", "--to",
            "columns", "--columns-dir", "/cols",
        ]
    );
    let step = s.step(ok());
    assert!(matches!(step.action, Action::LoadCrowned));
    let step = s.step(Event::CrownedLoaded(Ok(Some("the test crowned bon mot".to_string()))));
    assert!(matches!(step.action, Action::Finish));
    assert_eq!(
        step.output,
        vec![
            "".to_string(),
            "Session complete for 2026-06-15:".to_string(),
            "  1 artifact(s) critiqued".to_string(),
            "  Crowned bon mot: the test crowned bon mot".to_string(),
            "  Column → /cols".to_string(),
        ]
    );
}

#[test]
fn lunch_failure_names_lunch_stage() {
    let mut s = Session::new(config(false, None));
    s.step(Event::Begin);
    let step = s.step(Event::Exited(ExitReport { started: true, success: false, code: Some(1) }));
    match step.action {
        Action::Fail { message } => {
            assert_eq!(message, "stage `lunch` failed (exit Some(1)): /bin/the-lunch lunch --date 2026-06-15")
        }
        other => panic!("expected failure, got {other:?}"),
    }
    assert_eq!(s.phase, Phase::Done);
}

#[test]
fn critique_failure_names_critique_stage() {
    let mut s = Session::new(config(false, None));
    s.step(Event::Begin);
    s.step(ok());
    s.step(Event::TableLoaded(Ok(table_of(&["/tmp/haiku.txt"]))));
    s.step(Event::RecordedLoaded(Ok(vec![])));
    let step = s.step(Event::Exited(ExitReport { started: true, success: false, code: Some(2) }));
    match step.action {
        Action::Fail { message } => assert_eq!(message, "stage `critique:/tmp/haiku.txt` failed (exit Some(2))"),
        other => panic!("expected failure, got {other:?}"),
    }
}

#[test]
fn unstartable_compose_fails_naming_it() {
    let mut s = Session::new(config(false, None));
    s.step(Event::Begin);
    s.step(ok());
    s.step(Event::TableLoaded(Ok(table_of(&["/tmp/a.txt"]))));
    s.step(Event::RecordedLoaded(Ok(vec!["/tmp/a.txt".to_string()])));
    let step = s.step(Event::Exited(ExitReport { started: false, success: false, code: None }));
    match step.action {
        Action::Fail { message } => assert_eq!(message, "failed to start stage `compose`"),
        other => panic!("expected failure, got {other:?}"),
    }
}

#[test]
fn already_recorded_artifact_is_skipped_not_recorded_again() {
    let mut s = Session::new(config(false, None));
    s.step(Event::Begin);
    s.step(ok());
    s.step(Event::TableLoaded(Ok(table_of(&["/tmp/a.txt", "/tmp/b.txt"]))));
    let step = s.step(Event::RecordedLoaded(Ok(vec!["/tmp//a.txt".to_string()])));
    assert_eq!(step.output, vec!["  (skipping /tmp/a.txt: already in ledger for 2026-06-15)".to_string()]);
    assert_eq!(run_argv(&step.action)[2], "/tmp/b.txt");
    assert_eq!(s.critiqued, 1);
}

#[test]
fn empty_table_finishes_reporting_no_artifacts() {
    let mut s = Session::new(config(false, None));
    s.step(Event::Begin);
    s.step(ok());
    let step = s.step(Event::TableLoaded(Ok(Table { dishes: vec![] })));
    assert!(matches!(step.action, Action::Finish));
    assert!(step.output[0].contains("no artifacts on the table today"));
}

#[test]
fn unreadable_table_fails_with_context() {
    let mut s = Session::new(config(false, None));
    s.step(Event::Begin);
    s.step(ok());
    let step = s.step(Event::TableLoaded(Err(())));
    match step.action {
        Action::Fail { message } => assert_eq!(message, "reading table.json after `the-lunch lunch --date 2026-06-15`"),
        other => panic!("expected failure, got {other:?}"),
    }
}

#[test]
fn summary_without_crowned_or_columns_dir() {
    let mut s = Session::new(config(false, None));
    s.step(Event::Begin);
    s.step(ok());
    s.step(Event::TableLoaded(Ok(table_of(&["/tmp/a.txt"]))));
    s.step(Event::RecordedLoaded(Ok(vec![])));
    s.step(ok());
    s.step(ok());
    s.step(ok());
    let step = s.step(Event::CrownedLoaded(Ok(None)));
    assert_eq!(step.output[3], "  Crowned bon mot: (none)");
    assert_eq!(step.output[4], "  Column → columns slot");
}

#[test]
fn missing_tool_on_path_is_named() {
    let cands = bin_candidates(Tool::ConningTower, None, None, "/a:/b");
    assert_eq!(cands, vec!["/a/conning-tower".to_string(), "/b/conning-tower".to_string()]);
    let r = resolve_bin(Tool::ConningTower, None, None, "/a:/b", &vec![false, false]);
    assert_eq!(r, Err("required binary `conning-tower` not found on PATH; install it or use --bin-dir".to_string()));
    let r = resolve_bin(Tool::ConningTower, None, None, "/a:/b", &vec![false, true]);
    assert_eq!(r, Ok("/b/conning-tower".to_string()));
}

#[test]
fn env_override_wins_when_it_exists() {
    let cands = bin_candidates(Tool::ViciousCircle, Some("/opt/vc"), Some("/bins"), "");
    assert_eq!(cands, vec!["/opt/vc".to_string(), "/bins/vicious-circle".to_string()]);
    assert_eq!(resolve_bin(Tool::ViciousCircle, Some("/opt/vc"), Some("/bins"), "", &vec![true, true]), Ok("/opt/vc".to_string()));
    assert_eq!(
        resolve_bin(Tool::ViciousCircle, Some("/opt/vc"), Some("/bins"), "", &vec![false, false]),
        Err("required binary `vicious-circle` not found in --bin-dir `/bins`".to_string())
    );
    assert_eq!(Tool::ViciousCircle.env_key(), "ROUNDTABLE_CIRCLE_BIN");
}

#[test]
fn default_paths_follow_xdg() {
    assert_eq!(xdg_dir(Some("/x"), Some("/home/u"), "share"), "/x");
    assert_eq!(xdg_dir(None, Some("/home/u"), "share"), "/home/u/.local/share");
    assert_eq!(xdg_dir(None, None, "state"), "/tmp/.local/state");
    assert_eq!(default_ledger("/d", "2026-01-01"), "/d/roundtable/2026-01-01/ledger.jsonl");
    assert_eq!(lunch_state_dir("/s/", "2026-01-01"), "/s/the-lunch/2026-01-01");
    assert_eq!(table_path("/s", "2026-01-01"), "/s/the-lunch/2026-01-01/table.json");
}

#[test]
fn session_date_defaults_to_today() {
    assert_eq!(session_date(Some("2026-06-15".to_string()), 0), "2026-06-15");
    assert_eq!(session_date(None, 20_619 * 86400 + 5), "2026-06-15");
}

#[test]
fn rerun_with_everything_recorded_goes_straight_to_compose() {
    let mut s = Session::new(config(false, None));
    s.step(Event::Begin);
    s.step(ok());
    s.step(Event::TableLoaded(Ok(table_of(&["/tmp/a.txt", "/tmp/b.txt"]))));
    let step = s.step(Event::RecordedLoaded(Ok(vec!["/tmp/b.txt".to_string(), "/tmp/a.txt".to_string()])));
    assert_eq!(step.output.len(), 2);
    assert_eq!(run_argv(&step.action)[1], "compose");
    assert_eq!(s.phase, Phase::Compose);
    assert_eq!(s.critiqued, 2);
}

#[test]
fn required_tools_resolve_in_order_and_stop_at_first_missing() {
    let probe = |hit: bool| ToolProbe { env_value: None, hits: vec![hit] };
    let r = resolve_required(&vec![probe(true), probe(true), probe(true)], Some("/b"), "");
    assert_eq!(r, Ok(vec!["/b/the-lunch".to_string(), "/b/vicious-circle".to_string(), "/b/conning-tower".to_string()]));
    let r = resolve_required(&vec![probe(true), probe(false), probe(false)], Some("/b"), "");
    assert_eq!(r, Err("required binary `vicious-circle` not found in --bin-dir `/b`".to_string()));
}

#[test]
fn whole_run_records_only_new_artifacts_in_table_order() {
    let mut s = Session::new(config(false, None));
    s.step(Event::Begin);
    s.step(ok());
    s.step(Event::TableLoaded(Ok(table_of(&["/tmp/a.txt", "/tmp/b.txt", "/tmp/c.txt", "/tmp/d.txt"]))));
    let mut step = s.step(Event::RecordedLoaded(Ok(vec!["/tmp//b.txt".to_string(), "/tmp/d.txt".to_string()])));
    let mut recorded_now = Vec::new();
    while s.phase == Phase::Critique {
        recorded_now.push(run_argv(&step.action)[2].clone());
        step = s.step(ok());
    }
    assert_eq!(recorded_now, vec!["/tmp/a.txt".to_string(), "/tmp/c.txt".to_string()]);
    assert_eq!(s.phase, Phase::Compose);
    assert_eq!(s.critiqued, 4);
    assert_eq!(run_argv(&step.action)[1], "compose");
}
