use lexgrow::normalize::normalize;
use lexgrow::table::build_tables;

fn chars(s: &str) -> Vec<char> {
    s.chars().collect()
}

fn lines(v: &[&str]) -> Vec<Vec<char>> {
    v.iter().map(|s| chars(s)).collect()
}

#[test]
fn splits_on_western_punctuation() {
    let d = build_tables(&lines(&["a\t1", "b\t2", "c\t3", "d\t4"])).unwrap();
    let r = normalize(&chars("ab, cd! a"), &d);
    assert_eq!(r, vec![chars("ab"), chars("cd"), chars("a")]);
}

#[test]
fn splits_on_cjk_punctuation() {
    let d = build_tables(&lines(&["a\t1", "b\t2", "c\t3", "d\t4"])).unwrap();
    let r = normalize(&chars("ab。cd？a"), &d);
    assert_eq!(r, vec![chars("ab"), chars("cd"), chars("a")]);
}

#[test]
fn drops_out_of_vocabulary_characters() {
    let d = build_tables(&lines(&["a\t1", "b\t2"])).unwrap();
    let r = normalize(&chars("axb"), &d);
    assert_eq!(r, vec![chars("ab")]);
}

#[test]
fn drops_fragments_left_empty() {
    let d = build_tables(&lines(&["a\t1", "b\t2"])).unwrap();
    let r = normalize(&chars("ab. xyz. ba"), &d);
    assert_eq!(r, vec![chars("ab"), chars("ba")]);
}

#[test]
fn empty_text_yields_no_sentences() {
    let d = build_tables(&lines(&["a\t1"])).unwrap();
    let r = normalize(&chars(""), &d);
    assert_eq!(r.len(), 0);
}
