use mylauncher::catalog::Catalog;
use mylauncher::record::ShortcutRecord;

fn record(name: &str, exec: &str) -> ShortcutRecord {
    ShortcutRecord::new(name, exec, "icon", "Application")
}

fn names(catalog: &Catalog) -> Vec<String> {
    catalog.records().iter().map(|r| r.name.clone()).collect()
}

#[test]
fn catalog_of_nothing_is_empty() {
    let catalog = Catalog::from_records(&vec![]);
    assert_eq!(catalog.len(), 0);
    assert!(catalog.find("x").is_none());
}

#[test]
fn catalog_is_sorted_by_name() {
    let input = vec![record("zsh", "z"), record("Files", "f"), record("apple", "a"), record("GIMP", "g")];
    let catalog = Catalog::from_records(&input);
    let mut expected: Vec<String> = input.iter().map(|r| r.name.clone()).collect();
    expected.sort();
    assert_eq!(names(&catalog), expected);
    assert_eq!(names(&catalog), vec!["Files", "GIMP", "apple", "zsh"]);
}

#[test]
fn catalog_keeps_the_first_of_equal_names() {
    let input = vec![record("B", "first"), record("A", "a"), record("B", "second"), record("B", "third")];
    let catalog = Catalog::from_records(&input);
    assert_eq!(names(&catalog), vec!["A", "B"]);
    assert_eq!(catalog.find("B").unwrap().exec_template, "first");
}

#[test]
fn catalog_agrees_with_a_stable_sort_and_dedup() {
    let input = vec![
        record("b", "1"),
        record("a", "2"),
        record("c", "3"),
        record("a", "4"),
        record("B", "5"),
        record("b", "6"),
        record("", "7"),
        record("ab", "8"),
        record("c", "9"),
    ];
    let mut expected = input.clone();
    expected.sort_by(|x, y| x.name.cmp(&y.name));
    expected.dedup_by(|x, y| x.name == y.name);
    let catalog = Catalog::from_records(&input);
    assert_eq!(catalog.records(), &expected);
}

#[test]
fn catalog_leaves_out_hidden_and_terminal_records() {
    let mut hidden = record("Hidden", "h");
    hidden.hidden = true;
    let mut term = record("Term", "t");
    term.terminal = true;
    let mut shadow = record("Shown", "hidden one");
    shadow.hidden = true;
    let input = vec![hidden, shadow, record("Shown", "shown one"), term];
    let catalog = Catalog::from_records(&input);
    assert_eq!(names(&catalog), vec!["Shown"]);
    assert_eq!(catalog.find("Shown").unwrap().exec_template, "shown one");
}

#[test]
fn catalog_names_do_not_depend_on_the_order_of_the_input() {
    let a = vec![record("x", "1"), record("y", "2"), record("x", "3"), record("w", "4")];
    let b = vec![record("w", "4"), record("x", "3"), record("y", "2"), record("x", "1")];
    let ca = Catalog::from_records(&a);
    let cb = Catalog::from_records(&b);
    assert_eq!(names(&ca), names(&cb));
    assert_eq!(ca.find("x").unwrap().exec_template, "1");
    assert_eq!(cb.find("x").unwrap().exec_template, "3");
}

#[test]
fn find_gives_the_record_of_a_name() {
    let catalog = Catalog::from_records(&vec![record("GIMP", "gimp"), record("Files", "nautilus")]);
    assert_eq!(catalog.find("GIMP").unwrap().exec_template, "gimp");
    assert!(catalog.find("gimp").is_none());
}
