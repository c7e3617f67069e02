use lexgrow::encode::encode;
use lexgrow::segment::segment;
use lexgrow::table::build_tables;

fn chars(s: &str) -> Vec<char> {
    s.chars().collect()
}

fn lines(v: &[&str]) -> Vec<Vec<char>> {
    v.iter().map(|s| chars(s)).collect()
}

#[test]
fn encodes_by_concatenating_base_codes() {
    let d = build_tables(&lines(&["a\t1", "b\t2"])).unwrap();
    assert_eq!(encode(&chars("ab"), &d), Some(chars("12")));
    assert_eq!(encode(&chars("ba"), &d), Some(chars("21")));
}

#[test]
fn encoding_fails_on_a_character_without_base_code() {
    let d = build_tables(&lines(&["a\t1"])).unwrap();
    assert_eq!(encode(&chars("ax"), &d), None);
}

#[test]
fn greedy_decode_prefers_the_longest_match() {
    let d = build_tables(&lines(&["a\t1", "b\t2", "ab\t12"])).unwrap();
    let select: Vec<char> = Vec::new();
    let words = segment(&chars("12"), &d, &select);
    assert_eq!(words, vec![chars("ab")]);
}

#[test]
fn decode_falls_back_to_shorter_matches() {
    let d = build_tables(&lines(&["a\t1", "b\t2", "ab\t12"])).unwrap();
    let select: Vec<char> = Vec::new();
    let words = segment(&chars("121"), &d, &select);
    assert_eq!(words, vec![chars("ab"), chars("a")]);
}

#[test]
fn select_key_blocks_a_non_final_boundary() {
    let d = build_tables(&lines(&["a\t1", "b\t2", "ab\t12"])).unwrap();
    let select = vec!['1'];
    // a cut after "1" would sit directly before the select key '1';
    // the cut before the final boundary is allowed
    let words = segment(&chars("121"), &d, &select);
    assert_eq!(words, vec![chars("a"), chars("a")]);
}

#[test]
fn unmatched_symbols_are_skipped_without_emitting() {
    let d = build_tables(&lines(&["a\t1"])).unwrap();
    let select: Vec<char> = Vec::new();
    let words = segment(&chars("191"), &d, &select);
    assert_eq!(words, vec![chars("a"), chars("a")]);
}

#[test]
fn empty_code_string_decodes_to_nothing() {
    let d = build_tables(&lines(&["a\t1"])).unwrap();
    let select: Vec<char> = Vec::new();
    let words = segment(&chars(""), &d, &select);
    assert_eq!(words.len(), 0);
}
