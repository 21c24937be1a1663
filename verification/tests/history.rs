use mylauncher::history::{HistoryList, MAX_HISTORY};

fn names(h: &HistoryList) -> Vec<String> {
    h.names().clone()
}

#[test]
fn new_history_is_empty() {
    let h = HistoryList::new();
    assert_eq!(h.len(), 0);
    assert!(!h.contains("A"));
    assert_eq!(h.to_file_text(), "");
}

#[test]
fn record_moves_a_name_to_the_front() {
    let mut h = HistoryList::new();
    h.record("A");
    h.record("B");
    h.record("A");
    assert_eq!(names(&h), vec!["A", "B"]);
}

#[test]
fn record_puts_the_latest_first() {
    let mut h = HistoryList::new();
    h.record("A");
    h.record("B");
    h.record("C");
    assert_eq!(names(&h), vec!["C", "B", "A"]);
    assert!(h.contains("B"));
    assert!(!h.contains("b"));
}

#[test]
fn history_holds_four_names_at_most() {
    assert_eq!(MAX_HISTORY, 4);
    let mut h = HistoryList::new();
    for name in ["A", "B", "C", "D", "E", "F"] {
        h.record(name);
        assert!(h.len() <= MAX_HISTORY);
    }
    assert_eq!(names(&h), vec!["F", "E", "D", "C"]);
    h.record("D");
    assert_eq!(names(&h), vec!["D", "F", "E", "C"]);
}

#[test]
fn history_never_holds_a_name_twice() {
    let mut h = HistoryList::new();
    for name in ["A", "B", "A", "C", "B", "B", "D", "A", "E", "C", "C"] {
        h.record(name);
        let mut seen = names(&h);
        seen.sort();
        seen.dedup();
        assert_eq!(seen.len(), h.len());
        assert_eq!(h.names()[0], name);
    }
}

#[test]
fn record_twice_is_record_once() {
    let mut h = HistoryList::new();
    h.record("A");
    h.record("B");
    let once = names(&h);
    h.record("B");
    assert_eq!(names(&h), once);
}

#[test]
fn file_text_has_one_name_per_line() {
    let mut h = HistoryList::new();
    h.record("Files");
    h.record("GIMP Single-Window");
    assert_eq!(h.to_file_text(), "GIMP Single-Window\nFiles\n");
}

#[test]
fn parse_reads_what_was_written() {
    let mut h = HistoryList::new();
    for name in ["Files", "Firefox", "GIMP", "Files", "Terminal"] {
        h.record(name);
    }
    let text = h.to_file_text();
    let back = HistoryList::parse(&text);
    assert_eq!(names(&back), names(&h));
    assert_eq!(back.to_file_text(), text);
}

#[test]
fn parse_drops_blank_lines() {
    let h = HistoryList::parse("\nFirefox\n\n\nFiles\n\n");
    assert_eq!(names(&h), vec!["Firefox", "Files"]);
    assert_eq!(names(&HistoryList::parse("")), Vec::<String>::new());
    assert_eq!(names(&HistoryList::parse("\n\n")), Vec::<String>::new());
}

#[test]
fn parse_takes_a_last_line_without_line_feed() {
    let h = HistoryList::parse("A\r\nB");
    assert_eq!(names(&h), vec!["A", "B"]);
}

#[test]
fn parse_keeps_the_first_of_each_name_and_four_names() {
    let h = HistoryList::parse("A\nB\nA\nC\nD\nE\nB\n");
    assert_eq!(names(&h), vec!["A", "B", "C", "D"]);
}
