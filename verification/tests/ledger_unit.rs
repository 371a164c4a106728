use roundtable::ledger::{already_recorded, last_crowned, ledger_lines, LedgerEntry};

fn entry(date: &str, artifact: &str, crowned: &str) -> Option<LedgerEntry> {
    Some(LedgerEntry {
        artifact_path: Some(artifact.to_string()),
        date: Some(date.to_string()),
        crowned: Some(crowned.to_string()),
    })
}

#[test]
fn absent_ledger_returns_empty() {
    let result = already_recorded(&Vec::new(), "2026-06-15");
    assert!(result.expect("ok").is_empty());
}

#[test]
fn dedup_finds_existing_entry() {
    let contents = r#"{"date":"2026-06-15","artifact_path":"/tmp/a.txt","crowned":"test"}
{"date":"2026-06-14","artifact_path":"/tmp/a.txt","crowned":"old"}
"#;
    let lines = ledger_lines(contents);
    assert_eq!(lines.len(), 2);
    let entries = vec![
        entry("2026-06-15", "/tmp/a.txt", "test"),
        entry("2026-06-14", "/tmp/a.txt", "old"),
    ];
    let recorded = already_recorded(&entries, "2026-06-15").expect("ok");
    assert!(recorded.contains(&"/tmp/a.txt".to_string()));
    assert_eq!(recorded.len(), 1);
}

#[test]
fn last_crowned_picks_latest() {
    let entries = vec![
        entry("2026-06-15", "/tmp/a.txt", "first bon mot"),
        entry("2026-06-15", "/tmp/b.txt", "second bon mot"),
    ];
    let crowned = last_crowned(&entries, "2026-06-15");
    assert_eq!(crowned.as_deref(), Some("second bon mot"));
}
