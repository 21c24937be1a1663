use mylauncher::catalog::Catalog;
use mylauncher::history::HistoryList;
use mylauncher::rank::{activation_target_of, browse, filter_records, rank, record_matches, INITIAL_LIMIT};
use mylauncher::record::ShortcutRecord;

fn record(name: &str, description: &str) -> ShortcutRecord {
    ShortcutRecord::new(name, "run", "icon", description)
}

fn catalog(names: &[&str]) -> Catalog {
    let records: Vec<ShortcutRecord> = names.iter().map(|n| record(n, "Application")).collect();
    Catalog::from_records(&records)
}

fn history(latest_first: &[&str]) -> HistoryList {
    let mut h = HistoryList::new();
    for name in latest_first.iter().rev() {
        h.record(name);
    }
    h
}

fn names(records: &[ShortcutRecord]) -> Vec<String> {
    records.iter().map(|r| r.name.clone()).collect()
}

#[test]
fn query_shows_only_what_matches() {
    let c = Catalog::from_records(&vec![record("Firefox", "Browser"), record("Files", "File manager")]);
    let shown = rank(&c, &HistoryList::new(), "fire");
    assert_eq!(names(&shown), vec!["Firefox"]);
}

#[test]
fn query_matches_name_or_description_ignoring_case() {
    let r = record("Firefox", "Web Browser");
    assert!(record_matches(&r, "FIRE"));
    assert!(record_matches(&r, "fox"));
    assert!(record_matches(&r, "browse"));
    assert!(record_matches(&r, "b B"));
    assert!(record_matches(&r, ""));
    assert!(!record_matches(&r, "files"));
    assert!(!record_matches(&r, "firefoxx"));
    assert!(record_matches(&record("ÉCLAIR", "x"), "éclair"));
}

#[test]
fn query_keeps_the_order_of_the_catalog() {
    let c = Catalog::from_records(&vec![
        record("Zed", "editor"),
        record("Atom", "Editor"),
        record("Files", "File manager"),
        record("Vim", "Text EDITOR"),
    ]);
    assert_eq!(names(&rank(&c, &history(&["Zed", "Vim"]), "editor")), vec!["Atom", "Vim", "Zed"]);
    assert_eq!(names(&filter_records(c.records(), "e")), vec!["Atom", "Files", "Vim", "Zed"]);
    assert_eq!(names(&rank(&c, &HistoryList::new(), "nothing")), Vec::<String>::new());
}

#[test]
fn query_is_not_capped() {
    let all = ["x0", "x1", "x2", "x3", "x4", "x5", "x6", "x7", "x8", "x9", "y"];
    let c = catalog(&all);
    assert_eq!(rank(&c, &HistoryList::new(), "x").len(), 10);
    assert_eq!(rank(&c, &HistoryList::new(), "application").len(), 11);
}

#[test]
fn empty_query_shows_the_history_first() {
    let c = catalog(&["Files", "Firefox", "GIMP"]);
    assert_eq!(names(&rank(&c, &history(&["Files"]), "")), vec!["Files", "Firefox", "GIMP"]);
    assert_eq!(names(&rank(&c, &history(&["GIMP", "Files"]), "")), vec!["GIMP", "Files", "Firefox"]);
    assert_eq!(names(&rank(&c, &history(&["Gone", "Firefox"]), "")), vec!["Firefox", "Files", "GIMP"]);
    assert_eq!(names(&rank(&c, &HistoryList::new(), "")), vec!["Files", "Firefox", "GIMP"]);
}

#[test]
fn empty_query_shows_eight_records_at_most() {
    assert_eq!(INITIAL_LIMIT, 8);
    let all = ["a", "b", "c", "d", "e", "f", "g", "h", "i", "j"];
    let c = catalog(&all);
    let h = history(&["j", "c"]);
    assert_eq!(names(&rank(&c, &h, "")), vec!["j", "c", "a", "b", "d", "e", "f", "g"]);
    assert_eq!(names(&browse(&c, &h)), vec!["j", "c", "a", "b", "d", "e", "f", "g", "h", "i"]);
}

#[test]
fn browse_order_shows_every_record_once() {
    let all = ["a", "b", "c", "d", "e"];
    let c = catalog(&all);
    let mut shown = names(&browse(&c, &history(&["d", "x", "b"])));
    assert_eq!(shown, vec!["d", "b", "a", "c", "e"]);
    shown.sort();
    assert_eq!(shown, all);
}

#[test]
fn exact_match_goes_before_partial_match() {
    let c = catalog(&["GIMP", "GIMP Single-Window"]);
    assert_eq!(activation_target_of(&c, "gimp").unwrap().name, "GIMP");
    let d = catalog(&["A GIMP helper", "GIMP"]);
    assert_eq!(activation_target_of(&d, "gimp").unwrap().name, "GIMP");
    assert_eq!(activation_target_of(&d, "Gimp H").unwrap().name, "A GIMP helper");
}

#[test]
fn partial_match_takes_the_first_in_the_catalog() {
    let c = catalog(&["Firefox", "Files", "Fire Alarm"]);
    assert_eq!(activation_target_of(&c, "fire").unwrap().name, "Fire Alarm");
    assert_eq!(activation_target_of(&c, "i").unwrap().name, "Files");
    assert_eq!(activation_target_of(&c, "").unwrap().name, "Files");
}

#[test]
fn target_looks_at_names_only() {
    let c = Catalog::from_records(&vec![record("Files", "Browser of files"), record("Firefox", "Web")]);
    assert!(activation_target_of(&c, "browser").is_none());
    assert!(activation_target_of(&c, "zzz").is_none());
    assert!(activation_target_of(&catalog(&[]), "").is_none());
}
