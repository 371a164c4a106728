use roundtable::session::epoch_to_date;
use roundtable::tools::{bin_candidates, resolve_bin, Tool};

#[test]
fn epoch_to_date_known_values() {
    assert_eq!(epoch_to_date(0), "1970-01-01");
    // 2000-01-01: 10957 days * 86400
    assert_eq!(epoch_to_date(10_957 * 86400), "2000-01-01");
}

#[test]
fn missing_bin_dir_tool_fails() {
    // A directory with no binaries: the only candidate does not exist.
    let cands = bin_candidates(Tool::TheLunch, None, Some("/tmp/empty-bin-dir"), "/usr/bin");
    let hits = vec![false; cands.len()];
    let result = resolve_bin(Tool::TheLunch, None, Some("/tmp/empty-bin-dir"), "/usr/bin", &hits);
    assert!(result.is_err());
    let msg = result.unwrap_err();
    assert!(msg.contains("the-lunch"), "message should name the tool: {msg}");
}

#[test]
fn resolve_bin_from_bin_dir() {
    let cands = bin_candidates(Tool::TheLunch, None, Some("/tmp/bins"), "");
    assert_eq!(cands, vec!["/tmp/bins/the-lunch".to_string()]);
    let result = resolve_bin(Tool::TheLunch, None, Some("/tmp/bins"), "", &vec![true]);
    assert!(result.is_ok(), "should find binary in --bin-dir");
    assert_eq!(result.expect("ok"), "/tmp/bins/the-lunch");
}
