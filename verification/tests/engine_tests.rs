use lexgrow::charmap::CharMap;
use lexgrow::charmap::CharSet;
use lexgrow::diverge::Candidate;
use lexgrow::diverge::compare_one;
use lexgrow::engine::grow;
use lexgrow::engine::run;
use lexgrow::engine::scan_pass;
use lexgrow::normalize::normalize;
use lexgrow::seeder::seed_bigrams;
use lexgrow::table::build_tables;

fn chars(s: &str) -> Vec<char> {
    s.chars().collect()
}

fn lines(v: &[&str]) -> Vec<Vec<char>> {
    v.iter().map(|s| chars(s)).collect()
}

#[test]
fn immediate_convergence_yields_empty_output() {
    let mut d = build_tables(&lines(&["a\t1", "b\t2"])).unwrap();
    let sentences = normalize(&chars("ab"), &d);
    assert_eq!(sentences, vec![chars("ab")]);
    let select: Vec<char> = Vec::new();
    let mut out = CharMap::new();
    let r = run(&mut d, &sentences, &select, 10, &mut out);
    assert!(matches!(r, Ok(0)));
    assert_eq!(out.sorted_word_code_pairs().len(), 0);
}

#[test]
fn shared_code_ambiguity_resolved_in_one_step() {
    let mut d = build_tables(&lines(&["a\t1", "b\t2", "c\t1"])).unwrap();
    let sentences = normalize(&chars("ac"), &d);
    let select: Vec<char> = Vec::new();
    let mut out = CharMap::new();
    let r = run(&mut d, &sentences, &select, 10, &mut out);
    assert!(matches!(r, Ok(1)));
    assert!(d.contains_word(&chars("ac")));
    assert_eq!(out.sorted_word_code_pairs(), vec![(chars("ac"), chars("11"))]);
}

#[test]
fn scan_pass_finds_the_unknown_substring() {
    let d = build_tables(&lines(&["a\t1", "b\t2", "c\t1"])).unwrap();
    let sentences = normalize(&chars("ac"), &d);
    let select: Vec<char> = Vec::new();
    let (cands, found) = scan_pass(&d, &sentences, &select);
    assert_eq!(cands.len(), 1);
    assert_eq!(cands[0].word_ref(), &chars("ac"));
    assert_eq!(found, 1);
}

#[test]
fn the_divergence_count_is_not_deduplicated() {
    let d = build_tables(&lines(&["a\t1", "b\t2", "c\t1"])).unwrap();
    // two sentences diverge the same way: one merged candidate, two found
    let sentences = normalize(&chars("ac. ac"), &d);
    assert_eq!(sentences.len(), 2);
    let select: Vec<char> = Vec::new();
    let (cands, found) = scan_pass(&d, &sentences, &select);
    assert_eq!(cands.len(), 1);
    assert_eq!(found, 2);
}

#[test]
fn boundary_candidate_converges_without_oscillation() {
    let mut d = build_tables(&lines(&["a\t1", "d\t2", "c\t2"])).unwrap();
    let sentences = normalize(&chars("ac"), &d);
    let select: Vec<char> = Vec::new();
    let mut out = CharMap::new();
    let r = run(&mut d, &sentences, &select, 10, &mut out);
    assert!(matches!(r, Ok(1)));
    assert_eq!(out.sorted_word_code_pairs(), vec![(chars("ac"), chars("12"))]);
    // a second full run mines nothing further and leaves the entries alone
    let r2 = run(&mut d, &sentences, &select, 10, &mut out);
    assert!(matches!(r2, Ok(0)));
    assert_eq!(out.sorted_word_code_pairs(), vec![(chars("ac"), chars("12"))]);
}

#[test]
fn divergence_running_off_the_end_is_boundary_tagged() {
    let d = build_tables(&lines(&["a\t1", "d\t2", "c\t2"])).unwrap();
    // the sentence "ac" encodes to "12", which decodes to "ad"
    let words = vec![chars("a"), chars("d")];
    let cand = compare_one(&chars("ac"), &words, &d);
    match cand {
        Some(Candidate::Boundary(w)) => assert_eq!(w, chars("ac")),
        _ => panic!("expected a boundary candidate"),
    }
}

#[test]
fn interior_candidate_stops_before_the_sentence_end() {
    let d = build_tables(&lines(&["a\t1", "b\t2", "c\t1"])).unwrap();
    // "acbb" decodes from "1122" as "aabb": the second word diverges, and
    // the search from its start finds "cb" strictly before the sentence end
    let words = vec![chars("a"), chars("a"), chars("b"), chars("b")];
    let cand = compare_one(&chars("acbb"), &words, &d);
    match cand {
        Some(Candidate::Interior(w)) => assert_eq!(w, chars("cb")),
        _ => panic!("expected an interior candidate"),
    }
}

#[test]
fn an_unknown_substring_reaching_the_sentence_end_is_boundary() {
    let d = build_tables(&lines(&["a\t1", "b\t2", "c\t1"])).unwrap();
    // "ca" decodes from "11" as "aa": the first word already diverges, and
    // the search finds "ca", whose divergence reaches the sentence end
    let words = vec![chars("a"), chars("a")];
    let cand = compare_one(&chars("ca"), &words, &d);
    match cand {
        Some(Candidate::Boundary(w)) => assert_eq!(w, chars("ca")),
        _ => panic!("expected a boundary candidate"),
    }
}

#[test]
fn known_words_are_not_re_promoted() {
    let mut d = build_tables(&lines(&["a\t1", "b\t2", "ab\t7"])).unwrap();
    let cands = vec![
        Candidate::Boundary(chars("ab")),
        Candidate::Interior(chars("ba")),
    ];
    let mut prot = CharSet::new();
    let mut out = CharMap::new();
    grow(&mut d, &cands, &mut prot, &mut out);
    // "ab" is already a forward key: its curated code "7" is kept, no code
    // "12" is derived for it, and it reaches neither reverse nor the output
    assert_eq!(d.reverse_get(&chars("7")), Some(chars("ab")));
    assert_eq!(d.reverse_get(&chars("12")), None);
    assert!(d.contains_word(&chars("ba")));
    assert_eq!(out.sorted_word_code_pairs(), vec![(chars("ba"), chars("21"))]);
}

#[test]
fn an_overrun_with_a_short_remainder_yields_no_candidate() {
    let d = build_tables(&lines(&["a\t1", "b\t2"])).unwrap();
    // the decode extends past the end of "ab"; the remainder from the last
    // word's start is a single character, too short to be a candidate
    let words = vec![chars("a"), chars("b"), chars("a")];
    assert!(compare_one(&chars("ab"), &words, &d).is_none());
}

#[test]
fn a_matching_decode_yields_no_candidate() {
    let d = build_tables(&lines(&["a\t1", "b\t2"])).unwrap();
    let words = vec![chars("a"), chars("b")];
    assert!(compare_one(&chars("ab"), &words, &d).is_none());
}

#[test]
fn one_character_sentences_are_excluded_from_mining() {
    let d = build_tables(&lines(&["a\t1", "b\t2"])).unwrap();
    let words = vec![chars("b")];
    assert!(compare_one(&chars("a"), &words, &d).is_none());
}

#[test]
fn boundary_code_protection_blocks_later_overwrites() {
    let mut d = build_tables(&lines(&["a\t1", "b\t2", "c\t1", "d\t2"])).unwrap();
    let cands = vec![
        Candidate::Boundary(chars("ab")),
        Candidate::Interior(chars("cd")),
    ];
    let mut prot = CharSet::new();
    let mut out = CharMap::new();
    grow(&mut d, &cands, &mut prot, &mut out);
    // both words get forward entries with the same derived code "12",
    // but the protected code keeps its first reverse word and output entry
    assert!(d.contains_word(&chars("ab")));
    assert!(d.contains_word(&chars("cd")));
    assert_eq!(d.reverse_get(&chars("12")), Some(chars("ab")));
    assert_eq!(out.sorted_word_code_pairs(), vec![(chars("ab"), chars("12"))]);
}

#[test]
fn unprotected_codes_are_overwritten_by_later_candidates() {
    let mut d = build_tables(&lines(&["a\t1", "b\t2", "c\t1", "d\t2"])).unwrap();
    let cands = vec![
        Candidate::Interior(chars("ab")),
        Candidate::Interior(chars("cd")),
    ];
    let mut prot = CharSet::new();
    let mut out = CharMap::new();
    grow(&mut d, &cands, &mut prot, &mut out);
    assert_eq!(d.reverse_get(&chars("12")), Some(chars("cd")));
    assert_eq!(out.sorted_word_code_pairs(), vec![(chars("cd"), chars("12"))]);
}

#[test]
fn the_iteration_cap_reports_pending_candidates() {
    let mut d = build_tables(&lines(&["a\t1", "b\t2", "c\t1"])).unwrap();
    let sentences = normalize(&chars("ac"), &d);
    let select: Vec<char> = Vec::new();
    let mut out = CharMap::new();
    match run(&mut d, &sentences, &select, 0, &mut out) {
        Err(e) => {
            assert_eq!(e.iterations, 0);
            assert_eq!(e.pending, 1);
        },
        Ok(_) => panic!("expected the cap to be exceeded"),
    }
}

#[test]
fn seeder_skips_characters_already_covered() {
    let mut d = build_tables(&lines(&["a\t1", "b\t2"])).unwrap();
    let sentences = normalize(&chars("ab"), &d);
    let mut out = CharMap::new();
    seed_bigrams(&mut d, &sentences, &mut out);
    assert_eq!(out.sorted_word_code_pairs().len(), 0);
}

#[test]
fn seeder_pairs_an_uncovered_character_with_its_successor() {
    let mut d = build_tables(&lines(&["a\t1", "c\t1", "b\t2"])).unwrap();
    // 'c' has a forward code but is no reverse value at load time
    let sentences = normalize(&chars("cb"), &d);
    let mut out = CharMap::new();
    seed_bigrams(&mut d, &sentences, &mut out);
    assert!(d.contains_word(&chars("cb")));
    assert_eq!(d.reverse_get(&chars("12")), Some(chars("cb")));
    assert_eq!(out.sorted_word_code_pairs(), vec![(chars("cb"), chars("12"))]);
}

#[test]
fn seeder_pairs_the_last_character_with_its_predecessor() {
    let mut d = build_tables(&lines(&["a\t1", "c\t1", "b\t2"])).unwrap();
    let sentences = normalize(&chars("bc"), &d);
    let mut out = CharMap::new();
    seed_bigrams(&mut d, &sentences, &mut out);
    assert!(d.contains_word(&chars("bc")));
    assert_eq!(out.sorted_word_code_pairs(), vec![(chars("bc"), chars("21"))]);
}

#[test]
fn output_entries_come_sorted_by_code() {
    let mut m = CharMap::new();
    m.set(chars("22"), chars("x"));
    m.set(chars("11"), chars("y"));
    m.set(chars("12"), chars("z"));
    let pairs = m.sorted_word_code_pairs();
    assert_eq!(
        pairs,
        vec![
            (chars("y"), chars("11")),
            (chars("z"), chars("12")),
            (chars("x"), chars("22")),
        ]
    );
}

#[test]
fn promoted_codes_concatenate_base_codes() {
    let mut d = build_tables(&lines(&["x\t31", "y\t42", "z\t5"])).unwrap();
    let cands = vec![Candidate::Interior(chars("xyz"))];
    let mut prot = CharSet::new();
    let mut out = CharMap::new();
    grow(&mut d, &cands, &mut prot, &mut out);
    assert_eq!(out.sorted_word_code_pairs(), vec![(chars("xyz"), chars("31425"))]);
    assert_eq!(d.max_code_length(), 5);
}
