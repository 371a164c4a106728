use roundtable::table::{Dish, Provenance, Table};

fn dish(present: bool, path: Option<&str>) -> Dish {
    Dish { present, provenance: Provenance { artifact_path: path.map(|p| p.to_string()) } }
}

#[test]
fn parse_present_artifacts() {
    let table = Table {
        dishes: vec![
            dish(true, Some("/tmp/a.txt")),
            dish(false, Some("/tmp/b.txt")),
            dish(true, None),
        ],
    };
    let artifacts = table.present_artifacts();
    assert_eq!(artifacts.len(), 1);
    assert_eq!(artifacts[0], "/tmp/a.txt");
}

#[test]
fn empty_dishes_returns_empty() {
    let table = Table { dishes: vec![] };
    assert!(table.present_artifacts().is_empty());
}
