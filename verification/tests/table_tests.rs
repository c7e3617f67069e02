use lexgrow::table::build_tables;

fn chars(s: &str) -> Vec<char> {
    s.chars().collect()
}

fn lines(v: &[&str]) -> Vec<Vec<char>> {
    v.iter().map(|s| chars(s)).collect()
}

#[test]
fn builds_simple_table() {
    let d = build_tables(&lines(&["a\t1", "b\t2"])).unwrap();
    assert_eq!(d.lookup_code('a'), Some(chars("1")));
    assert_eq!(d.lookup_code('b'), Some(chars("2")));
    assert_eq!(d.lookup_code('c'), None);
    assert!(d.contains_word(&chars("a")));
    assert!(!d.contains_word(&chars("ab")));
    assert_eq!(d.max_code_length(), 1);
}

#[test]
fn first_word_occurrence_wins() {
    let d = build_tables(&lines(&["a\t1", "a\t2"])).unwrap();
    assert_eq!(d.lookup_code('a'), Some(chars("1")));
}

#[test]
fn first_code_occurrence_wins_in_reverse() {
    let d = build_tables(&lines(&["a\t1", "b\t1"])).unwrap();
    assert_eq!(d.reverse_get(&chars("1")), Some(chars("a")));
    // both words still get their forward entry
    assert_eq!(d.lookup_code('b'), Some(chars("1")));
}

#[test]
fn malformed_line_aborts_with_its_index() {
    let r = build_tables(&lines(&["a\t1", "bad", "b\t2"]));
    assert!(matches!(r, Err(1)));
}

#[test]
fn blank_lines_are_ignored() {
    let d = build_tables(&lines(&["a\t1", "", "b\t2"])).unwrap();
    assert_eq!(d.lookup_code('b'), Some(chars("2")));
}

#[test]
fn multi_character_entries_widen_the_window() {
    let d = build_tables(&lines(&["a\t1", "b\t2", "ab\t12"])).unwrap();
    assert_eq!(d.max_code_length(), 2);
    assert_eq!(d.reverse_get(&chars("12")), Some(chars("ab")));
}
