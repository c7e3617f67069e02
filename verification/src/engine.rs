//! The dictionary convergence engine.
//!
//! Each iteration runs two read-only parallel passes over the corpus — the
//! decoder, then the divergence locator — against a snapshot of the
//! Dictionary; the discovered candidates are merged in sentence order with
//! duplicates collapsed, and the Dictionary is then grown sequentially,
//! promoting only the distinct candidates not already forward keys. The
//! loop stops the first time a pass discovers no word absent from the
//! forward table, or reports failure when the iteration cap is exceeded.
//!
//! Reverse-table policy: a newly promoted word's freshly derived code
//! overwrites an existing reverse entry unless the code has been protected;
//! a code becomes protected the first time a boundary-tagged candidate
//! derives it, and a word already in the forward table is never re-derived.

use vstd::prelude::*;
use rayon::iter::IntoParallelIterator;
use rayon::iter::IntoParallelRefIterator;
use rayon::iter::ParallelIterator;
use crate::charmap::CharMap;
use crate::charmap::CharSet;
use crate::dict::Dictionary;
use crate::diverge::Candidate;
use crate::diverge::cand_opt_view;
use crate::diverge::compare_spec;
use crate::diverge::compare_one;
use crate::diverge::lemma_candidate_length;
use crate::diverge::lemma_compare_candidate_covered;
use crate::encode::covered;
use crate::encode::encode;
use crate::encode::encode_spec;
use crate::encode::lemma_covered_monotone;
use crate::encode::lemma_encode_same;
use crate::segment::seg_words;
use crate::segment::segment;
use crate::singleton;
use crate::util::clone_chars;
use crate::util::eq_chars;
use crate::util::lemma_vec_char_deep_view;
use vstd::pervasive::unreached;

verus! {

broadcast use lemma_vec_char_deep_view;

/// Every sentence of the corpus is covered by the forward table.
pub open spec fn all_covered(sentences: Seq<Seq<char>>, fwd: Map<Seq<char>, Seq<char>>) -> bool {
    forall|i: int| 0 <= i < sentences.len() ==> covered(#[trigger] sentences[i], fwd)
}

/// The decode of one sentence: encode against `fwd`, then greedy-match
/// against `rev`; nothing when some character lacks a base code.
pub open spec fn seg_sentence_spec(
    s: Seq<char>,
    fwd: Map<Seq<char>, Seq<char>>,
    rev: Map<Seq<char>, Seq<char>>,
    mcl: nat,
    sel: Seq<char>,
) -> Option<Seq<Seq<char>>> {
    if covered(s, fwd) {
        Some(seg_words(encode_spec(s, fwd), rev, sel, mcl, 0))
    } else {
        None
    }
}

pub open spec fn opt_seg_view(r: Option<Vec<Vec<char>>>) -> Option<Seq<Seq<char>>> {
    match r {
        Some(v) => Some(v.deep_view()),
        None => None,
    }
}

/// What one sentence contributes to a pass: the candidate of its first
/// divergence, if any.
pub open spec fn mine_spec(
    s: Seq<char>,
    fwd: Map<Seq<char>, Seq<char>>,
    rev: Map<Seq<char>, Seq<char>>,
    mcl: nat,
    sel: Seq<char>,
) -> Option<(Seq<char>, bool)> {
    match seg_sentence_spec(s, fwd, rev, mcl, sel) {
        Some(words) => compare_spec(s, words, fwd),
        None => None,
    }
}

/// Candidates as plain pairs of word and boundary tag.
pub open spec fn cands_view(cands: Seq<Candidate>) -> Seq<(Seq<char>, bool)> {
    cands.map_values(|c: Candidate| (c.word(), c.is_boundary()))
}

/// Merging one sentence's finding into the accumulated pass result:
/// duplicates collapse, first discovery order is kept.
pub open spec fn push_cand(
    acc: Seq<(Seq<char>, bool)>,
    c: Option<(Seq<char>, bool)>,
) -> Seq<(Seq<char>, bool)> {
    match c {
        Some(p) => if acc.contains(p) {
            acc
        } else {
            acc.push(p)
        },
        None => acc,
    }
}

pub open spec fn collect_from(
    sentences: Seq<Seq<char>>,
    fwd: Map<Seq<char>, Seq<char>>,
    rev: Map<Seq<char>, Seq<char>>,
    mcl: nat,
    sel: Seq<char>,
    i: int,
    acc: Seq<(Seq<char>, bool)>,
) -> Seq<(Seq<char>, bool)>
    decreases sentences.len() - i,
{
    if i < 0 || i >= sentences.len() {
        acc
    } else {
        collect_from(
            sentences,
            fwd,
            rev,
            mcl,
            sel,
            i + 1,
            push_cand(acc, mine_spec(sentences[i], fwd, rev, mcl, sel)),
        )
    }
}

/// The deduplicated candidates of one full scanning pass, in sentence order.
pub open spec fn collect_candidates(
    sentences: Seq<Seq<char>>,
    fwd: Map<Seq<char>, Seq<char>>,
    rev: Map<Seq<char>, Seq<char>>,
    mcl: nat,
    sel: Seq<char>,
) -> Seq<(Seq<char>, bool)> {
    collect_from(sentences, fwd, rev, mcl, sel, 0, Seq::empty())
}

/// How many sentences diverged in a pass, duplicates counted: the
/// diagnostic a pass reports alongside its merged candidates.
pub open spec fn found_from(
    sentences: Seq<Seq<char>>,
    fwd: Map<Seq<char>, Seq<char>>,
    rev: Map<Seq<char>, Seq<char>>,
    mcl: nat,
    sel: Seq<char>,
    i: int,
) -> int
    decreases sentences.len() - i,
{
    if i < 0 || i >= sentences.len() {
        0
    } else {
        (if mine_spec(sentences[i], fwd, rev, mcl, sel) is Some {
            1int
        } else {
            0int
        }) + found_from(sentences, fwd, rev, mcl, sel, i + 1)
    }
}

/// How many of a pass's candidates are not yet forward keys.
pub open spec fn new_word_count(
    cands: Seq<(Seq<char>, bool)>,
    fwd: Map<Seq<char>, Seq<char>>,
    i: int,
) -> int
    decreases cands.len() - i,
{
    if i < 0 || i >= cands.len() {
        0
    } else {
        (if fwd.dom().contains(cands[i].0) {
            0int
        } else {
            1int
        }) + new_word_count(cands, fwd, i + 1)
    }
}

/// The whole mutable state of a run.
#[verifier::ext_equal]
pub struct EngineState {
    /// word to code
    pub fwd: Map<Seq<char>, Seq<char>>,
    /// code to word
    pub rev: Map<Seq<char>, Seq<char>>,
    /// longest reverse key
    pub mcl: nat,
    /// protected boundary codes
    pub prot: Set<Seq<char>>,
    /// promoted entries, keyed by code
    pub out: Map<Seq<char>, Seq<char>>,
}

/// Promoting one candidate. A word that is already a forward key is left
/// entirely alone: only new words are grown. For a new word the code is
/// freshly derived from the current base codes; `forward` takes the entry;
/// `reverse` and the output take it only when the code is unprotected; a
/// boundary candidate then protects its code.
pub open spec fn grow_one(st: EngineState, w: Seq<char>, b: bool) -> EngineState {
    if st.fwd.dom().contains(w) {
        st
    } else {
        let code = encode_spec(w, st.fwd);
        let fwd2 = st.fwd.insert(w, code);
        let rev2 = if !st.prot.contains(code) {
            st.rev.insert(code, w)
        } else {
            st.rev
        };
        let mcl2 = if !st.prot.contains(code) && code.len() > st.mcl {
            code.len()
        } else {
            st.mcl
        };
        let out2 = if !st.prot.contains(code) {
            st.out.insert(code, w)
        } else {
            st.out
        };
        let prot2 = if b {
            st.prot.insert(code)
        } else {
            st.prot
        };
        EngineState { fwd: fwd2, rev: rev2, mcl: mcl2, prot: prot2, out: out2 }
    }
}

/// The growing phase: candidates are promoted in discovery order.
pub open spec fn grow_all(st: EngineState, cands: Seq<(Seq<char>, bool)>, i: int) -> EngineState
    decreases cands.len() - i,
{
    if i < 0 || i >= cands.len() {
        st
    } else {
        grow_all(grow_one(st, cands[i].0, cands[i].1), cands, i + 1)
    }
}

pub enum RunOutcome {
    /// the state at the fixed point, and how many growing phases ran
    Converged(EngineState, nat),
    /// the state when the cap was hit, and how many candidates were pending
    GaveUp(EngineState, nat),
}

/// The run: scan; stop when no candidate is a new word; otherwise grow and
/// repeat, up to `fuel` growing phases.
pub open spec fn run_spec(
    st: EngineState,
    sentences: Seq<Seq<char>>,
    sel: Seq<char>,
    fuel: nat,
    done: nat,
) -> RunOutcome
    decreases fuel,
{
    let cands = collect_candidates(sentences, st.fwd, st.rev, st.mcl, sel);
    if new_word_count(cands, st.fwd, 0) == 0 {
        RunOutcome::Converged(st, done)
    } else if fuel == 0 {
        RunOutcome::GaveUp(st, new_word_count(cands, st.fwd, 0) as nat)
    } else {
        run_spec(grow_all(st, cands, 0), sentences, sel, (fuel - 1) as nat, done + 1)
    }
}

/// The growing phase never removes a forward key.
pub proof fn lemma_grow_all_monotone(st: EngineState, cands: Seq<(Seq<char>, bool)>, i: int)
    ensures
        st.fwd.dom().subset_of(grow_all(st, cands, i).fwd.dom()),
    decreases cands.len() - i,
{
    if i < 0 || i >= cands.len() {
    } else {
        lemma_grow_all_monotone(grow_one(st, cands[i].0, cands[i].1), cands, i + 1);
    }
}

/// Promotion never changes the base code of any single character.
pub proof fn lemma_grow_one_singletons(st: EngineState, w: Seq<char>, b: bool)
    ensures
        forall|c: char| #[trigger] grow_one(st, w, b).fwd[singleton(c)] == st.fwd[singleton(c)],
{
    let code = encode_spec(w, st.fwd);
    assert forall|c: char| #[trigger] grow_one(st, w, b).fwd[singleton(c)] == st.fwd[singleton(
        c,
    )] by {
        if w == singleton(c) {
            assert(encode_spec(singleton(c).drop_first(), st.fwd) == Seq::<char>::empty()) by {
                assert(singleton(c).drop_first() =~= Seq::<char>::empty());
            }
            assert(code =~= st.fwd[singleton(c)]);
        }
    }
}

pub proof fn lemma_grow_all_singletons(st: EngineState, cands: Seq<(Seq<char>, bool)>, i: int)
    ensures
        forall|c: char| #[trigger] grow_all(st, cands, i).fwd[singleton(c)] == st.fwd[singleton(
            c,
        )],
    decreases cands.len() - i,
{
    if i < 0 || i >= cands.len() {
    } else {
        let st1 = grow_one(st, cands[i].0, cands[i].1);
        lemma_grow_one_singletons(st, cands[i].0, cands[i].1);
        lemma_grow_all_singletons(st1, cands, i + 1);
        assert forall|c: char| #[trigger] grow_all(st, cands, i).fwd[singleton(c)] == st.fwd[
            singleton(c)
        ] by {
            assert(grow_all(st, cands, i) == grow_all(st1, cands, i + 1));
            assert(grow_all(st1, cands, i + 1).fwd[singleton(c)] == st1.fwd[singleton(c)]);
            assert(st1.fwd[singleton(c)] == st.fwd[singleton(c)]);
        }
    }
}

/// A word already in the forward table is never re-derived: growing leaves
/// its code exactly as it was. A promoted entry — a boundary entry among
/// them — therefore cannot oscillate across later passes.
pub proof fn lemma_grow_preserves_known(
    st: EngineState,
    cands: Seq<(Seq<char>, bool)>,
    i: int,
    w: Seq<char>,
)
    requires
        st.fwd.dom().contains(w),
    ensures
        grow_all(st, cands, i).fwd.dom().contains(w),
        grow_all(st, cands, i).fwd[w] == st.fwd[w],
    decreases cands.len() - i,
{
    if i < 0 || i >= cands.len() {
    } else {
        let st1 = grow_one(st, cands[i].0, cands[i].1);
        assert(st1.fwd.dom().contains(w) && st1.fwd[w] == st.fwd[w]);
        lemma_grow_preserves_known(st1, cands, i + 1, w);
    }
}

/// A protected code is stable: growing never changes the reverse or the
/// output entry of a code already protected, and never unprotects it — the
/// entry a boundary candidate established is not re-derived differently by
/// a later promotion with the same code.
pub proof fn lemma_protected_code_stable(
    st: EngineState,
    cands: Seq<(Seq<char>, bool)>,
    i: int,
    code: Seq<char>,
)
    requires
        st.prot.contains(code),
    ensures
        grow_all(st, cands, i).prot.contains(code),
        grow_all(st, cands, i).rev.dom().contains(code) == st.rev.dom().contains(code),
        grow_all(st, cands, i).rev[code] == st.rev[code],
        grow_all(st, cands, i).out.dom().contains(code) == st.out.dom().contains(code),
        grow_all(st, cands, i).out[code] == st.out[code],
    decreases cands.len() - i,
{
    if i < 0 || i >= cands.len() {
    } else {
        let st1 = grow_one(st, cands[i].0, cands[i].1);
        assert(st1.prot.contains(code));
        assert(st1.rev.dom().contains(code) == st.rev.dom().contains(code) && st1.rev[code]
            == st.rev[code]);
        assert(st1.out.dom().contains(code) == st.out.dom().contains(code) && st1.out[code]
            == st.out[code]);
        lemma_protected_code_stable(st1, cands, i + 1, code);
    }
}

/// For all words newly promoted by the engine, the code is the concatenation
/// of the Dictionary's single-character base codes of the word's characters
/// at promotion time: after a growing phase, every candidate word is a
/// forward key, and one that was new maps to `encode_spec` of it against the
/// phase's starting table — whose base codes the phase never alters.
pub proof fn lemma_promoted_codes(st: EngineState, cands: Seq<(Seq<char>, bool)>, i: int)
    requires
        0 <= i,
    ensures
        forall|k: int|
            i <= k < cands.len() ==> grow_all(st, cands, i).fwd.dom().contains(
                (#[trigger] cands[k]).0,
            ) && (!st.fwd.dom().contains(cands[k].0) ==> grow_all(st, cands, i).fwd[cands[k].0]
                == encode_spec(cands[k].0, st.fwd)),
    decreases cands.len() - i,
{
    if i < 0 || i >= cands.len() {
    } else {
        let st1 = grow_one(st, cands[i].0, cands[i].1);
        lemma_promoted_codes(st1, cands, i + 1);
        lemma_grow_one_singletons(st, cands[i].0, cands[i].1);
        assert forall|k: int| i <= k < cands.len() implies grow_all(st, cands, i).fwd.dom()
            .contains((#[trigger] cands[k]).0) && (!st.fwd.dom().contains(cands[k].0)
            ==> grow_all(st, cands, i).fwd[cands[k].0] == encode_spec(cands[k].0, st.fwd)) by {
            assert(grow_all(st, cands, i) == grow_all(st1, cands, i + 1));
            let w = cands[k].0;
            if k == i {
                if st.fwd.dom().contains(w) {
                    lemma_grow_preserves_known(st1, cands, i + 1, w);
                } else {
                    assert(st1.fwd.dom().contains(w) && st1.fwd[w] == encode_spec(w, st.fwd));
                    lemma_grow_preserves_known(st1, cands, i + 1, w);
                }
            } else {
                if !st.fwd.dom().contains(w) {
                    if st1.fwd.dom().contains(w) {
                        // only the word of this very step joined the table
                        assert(w == cands[i].0);
                        assert(st1.fwd[w] == encode_spec(w, st.fwd));
                        lemma_grow_preserves_known(st1, cands, i + 1, w);
                    } else {
                        assert(grow_all(st1, cands, i + 1).fwd[w] == encode_spec(w, st1.fwd));
                        lemma_encode_same(w, st1.fwd, st.fwd);
                    }
                }
            }
        }
    }
}

/// Replays one sentence: its code string, decoded against the snapshot.
pub fn segment_sentence(sentence: &Vec<char>, dict: &Dictionary, select: &Vec<char>) -> (r:
    Option<Vec<Vec<char>>>)
    requires
        dict.wf(),
    ensures
        opt_seg_view(r) == seg_sentence_spec(
            sentence@,
            dict.fwd(),
            dict.rev(),
            dict.mcl(),
            select@,
        ),
{
    match encode(sentence, dict) {
        Some(code) => Some(segment(&code, dict, select)),
        None => None,
    }
}

/// Relies on rayon's parallel iterators: `par_iter().map(f).collect()` over
/// a vector applies `f` to every element and collects the results in the
/// input's order. Each element's result is the one `segment_sentence` gives.
#[verifier::external_body]
fn par_segment_all(sentences: &Vec<Vec<char>>, dict: &Dictionary, select: &Vec<char>) -> (r: Vec<
    Option<Vec<Vec<char>>>,
>)
    requires
        dict.wf(),
    ensures
        r@.len() == sentences@.len(),
        forall|i: int|
            0 <= i < sentences@.len() ==> opt_seg_view(#[trigger] r@[i]) == seg_sentence_spec(
                sentences.deep_view()[i],
                dict.fwd(),
                dict.rev(),
                dict.mcl(),
                select@,
            ),
{
    sentences.par_iter().map(|s| segment_sentence(s, dict, select)).collect()
}

/// Relies on rayon's parallel iterators: a parallel map over the sentence
/// indices, collected in order; each element's result is the one
/// `compare_one` gives for the sentence and its decode.
#[verifier::external_body]
fn par_compare_all(sentences: &Vec<Vec<char>>, segs: &Vec<Vec<Vec<char>>>, dict: &Dictionary) -> (
    r: Vec<Option<Candidate>>)
    requires
        dict.wf(),
        sentences@.len() == segs@.len(),
    ensures
        r@.len() == sentences@.len(),
        forall|i: int|
            0 <= i < sentences@.len() ==> cand_opt_view(#[trigger] r@[i]) == compare_spec(
                sentences.deep_view()[i],
                segs.deep_view()[i],
                dict.fwd(),
            ),
{
    (0..sentences.len()).into_par_iter().map(|i| compare_one(&sentences[i], &segs[i], dict)).collect()
}

/// Whether an equal candidate (same word, same tag) was already merged.
fn contains_candidate(cands: &Vec<Candidate>, c: &Candidate) -> (r: bool)
    ensures
        r == cands_view(cands@).contains((c.word(), c.is_boundary())),
{
    let mut i: usize = 0;
    while i < cands.len()
        invariant
            i <= cands@.len(),
            forall|j: int|
                0 <= j < i ==> #[trigger] cands_view(cands@)[j] != (c.word(), c.is_boundary()),
        decreases cands@.len() - i,
    {
        let same_word = eq_chars(cands[i].word_ref(), c.word_ref());
        let same_tag = cands[i].is_end() == c.is_end();
        if same_word && same_tag {
            proof {
                assert(cands_view(cands@)[i as int] == (c.word(), c.is_boundary()));
            }
            return true;
        }
        proof {
            assert(cands_view(cands@)[i as int] != (c.word(), c.is_boundary()));
        }
        i += 1;
    }
    false
}

/// Copies a candidate.
fn duplicate_candidate(c: &Candidate) -> (r: Candidate)
    ensures
        r.word() == c.word(),
        r.is_boundary() == c.is_boundary(),
{
    match c {
        Candidate::Interior(w) => Candidate::Interior(clone_chars(w)),
        Candidate::Boundary(w) => Candidate::Boundary(clone_chars(w)),
    }
}

/// One scanning pass: decode and compare every sentence in parallel against
/// the Dictionary snapshot, and merge the findings in sentence order. The
/// second result is the diagnostic count of divergences found, duplicates
/// counted.
pub fn scan_pass(dict: &Dictionary, sentences: &Vec<Vec<char>>, select: &Vec<char>) -> (r: (
    Vec<Candidate>,
    usize,
))
    requires
        dict.wf(),
        all_covered(sentences.deep_view(), dict.fwd()),
    ensures
        cands_view(r.0@) == collect_candidates(
            sentences.deep_view(),
            dict.fwd(),
            dict.rev(),
            dict.mcl(),
            select@,
        ),
        forall|k: int| 0 <= k < r.0@.len() ==> covered((#[trigger] r.0@[k]).word(), dict.fwd()),
        forall|k: int| 0 <= k < r.0@.len() ==> (#[trigger] r.0@[k]).word().len() >= 2,
        r.1 == found_from(
            sentences.deep_view(),
            dict.fwd(),
            dict.rev(),
            dict.mcl(),
            select@,
            0,
        ),
{
    let ghost sv = sentences.deep_view();
    let segs_opt = par_segment_all(sentences, dict, select);
    let mut segs: Vec<Vec<Vec<char>>> = Vec::new();
    let mut i: usize = 0;
    while i < segs_opt.len()
        invariant
            dict.wf(),
            sv == sentences.deep_view(),
            all_covered(sv, dict.fwd()),
            segs_opt@.len() == sv.len(),
            forall|k: int|
                0 <= k < sv.len() ==> opt_seg_view(#[trigger] segs_opt@[k]) == seg_sentence_spec(
                    sv[k],
                    dict.fwd(),
                    dict.rev(),
                    dict.mcl(),
                    select@,
                ),
            i <= sv.len(),
            segs@.len() == i,
            forall|k: int|
                0 <= k < i ==> Some(#[trigger] segs.deep_view()[k]) == seg_sentence_spec(
                    sv[k],
                    dict.fwd(),
                    dict.rev(),
                    dict.mcl(),
                    select@,
                ),
        decreases segs_opt@.len() - i,
    {
        let ghost old_segs = segs.deep_view();
        match &segs_opt[i] {
            Some(words) => {
                proof {
                    assert(covered(sv[i as int], dict.fwd()));
                }
                let copy = clone_words(words);
                segs.push(copy);
                proof {
                    assert(segs.deep_view() =~= old_segs.push(words.deep_view()));
                }
            },
            None => {
                proof {
                    assert(covered(sv[i as int], dict.fwd()));
                    assert(false);
                }
                return unreached();
            },
        }
        i += 1;
    }
    let copts = par_compare_all(sentences, &segs, dict);
    let mut cands: Vec<Candidate> = Vec::new();
    let mut found: usize = 0;
    let mut k: usize = 0;
    proof {
        assert(cands_view(cands@) =~= Seq::<(Seq<char>, bool)>::empty());
    }
    while k < copts.len()
        invariant
            dict.wf(),
            sv == sentences.deep_view(),
            all_covered(sv, dict.fwd()),
            copts@.len() == sv.len(),
            segs@.len() == sv.len(),
            forall|j: int|
                0 <= j < sv.len() ==> Some(#[trigger] segs.deep_view()[j]) == seg_sentence_spec(
                    sv[j],
                    dict.fwd(),
                    dict.rev(),
                    dict.mcl(),
                    select@,
                ),
            forall|j: int|
                0 <= j < sv.len() ==> cand_opt_view(#[trigger] copts@[j]) == compare_spec(
                    sv[j],
                    segs.deep_view()[j],
                    dict.fwd(),
                ),
            k <= sv.len(),
            found <= k,
            found + found_from(sv, dict.fwd(), dict.rev(), dict.mcl(), select@, k as int)
                == found_from(sv, dict.fwd(), dict.rev(), dict.mcl(), select@, 0),
            collect_from(
                sv,
                dict.fwd(),
                dict.rev(),
                dict.mcl(),
                select@,
                k as int,
                cands_view(cands@),
            ) == collect_candidates(sv, dict.fwd(), dict.rev(), dict.mcl(), select@),
            forall|j: int|
                0 <= j < cands@.len() ==> covered((#[trigger] cands@[j]).word(), dict.fwd()),
            forall|j: int| 0 <= j < cands@.len() ==> (#[trigger] cands@[j]).word().len() >= 2,
        decreases copts@.len() - k,
    {
        let ghost acc = cands_view(cands@);
        let ghost mined = mine_spec(sv[k as int], dict.fwd(), dict.rev(), dict.mcl(), select@);
        proof {
            assert(cand_opt_view(copts@[k as int]) == compare_spec(
                sv[k as int],
                segs.deep_view()[k as int],
                dict.fwd(),
            ));
            assert(mined == compare_spec(sv[k as int], segs.deep_view()[k as int], dict.fwd()));
        }
        match &copts[k] {
            Some(c) => {
                found += 1;
                if !contains_candidate(&cands, c) {
                    let dup = duplicate_candidate(c);
                    let ghost oldc = cands@;
                    proof {
                        lemma_compare_candidate_covered(
                            sv[k as int],
                            segs.deep_view()[k as int],
                            dict.fwd(),
                            dict.fwd(),
                        );
                        lemma_candidate_length(
                            sv[k as int],
                            segs.deep_view()[k as int],
                            dict.fwd(),
                        );
                    }
                    cands.push(dup);
                    proof {
                        assert(cands_view(cands@) =~= acc.push((c.word(), c.is_boundary())));
                        assert(forall|j: int|
                            0 <= j < oldc.len() ==> cands@[j] == #[trigger] oldc[j]);
                    }
                } else {
                    proof {
                        assert(push_cand(acc, mined) == acc);
                    }
                }
            },
            None => {
                proof {
                    assert(push_cand(acc, mined) == acc);
                }
            },
        }
        k += 1;
    }
    (cands, found)
}

/// Merging collapses duplicates: a pass's candidates are pairwise distinct.
pub proof fn lemma_collect_no_duplicates(
    sentences: Seq<Seq<char>>,
    fwd: Map<Seq<char>, Seq<char>>,
    rev: Map<Seq<char>, Seq<char>>,
    mcl: nat,
    sel: Seq<char>,
    i: int,
    acc: Seq<(Seq<char>, bool)>,
)
    requires
        forall|a: int, b: int| 0 <= a < b < acc.len() ==> acc[a] != acc[b],
    ensures
        ({
            let r = collect_from(sentences, fwd, rev, mcl, sel, i, acc);
            forall|a: int, b: int| 0 <= a < b < r.len() ==> r[a] != r[b]
        }),
    decreases sentences.len() - i,
{
    if i < 0 || i >= sentences.len() {
    } else {
        let acc2 = push_cand(acc, mine_spec(sentences[i], fwd, rev, mcl, sel));
        assert forall|a: int, b: int| 0 <= a < b < acc2.len() implies acc2[a] != acc2[b] by {
            if b < acc.len() {
                assert(acc2[a] == acc[a] && acc2[b] == acc[b]);
            } else if acc2.len() > acc.len() {
                assert(acc2[a] == acc[a]);
                assert(!acc.contains(acc2[b]));
                if acc[a] == acc2[b] {
                    assert(acc.contains(acc2[b]));
                }
            }
        }
        lemma_collect_no_duplicates(sentences, fwd, rev, mcl, sel, i + 1, acc2);
        assert(collect_from(sentences, fwd, rev, mcl, sel, i, acc) == collect_from(
            sentences,
            fwd,
            rev,
            mcl,
            sel,
            i + 1,
            acc2,
        ));
    }
}

/// The forward key set is non-decreasing across iterations, however a run
/// ends.
pub proof fn lemma_run_monotone(
    st: EngineState,
    sentences: Seq<Seq<char>>,
    sel: Seq<char>,
    fuel: nat,
    done: nat,
)
    ensures
        ({
            let o = run_spec(st, sentences, sel, fuel, done);
            match o {
                RunOutcome::Converged(stf, _) => st.fwd.dom().subset_of(stf.fwd.dom()),
                RunOutcome::GaveUp(stf, _) => st.fwd.dom().subset_of(stf.fwd.dom()),
            }
        }),
    decreases fuel,
{
    let cands = collect_candidates(sentences, st.fwd, st.rev, st.mcl, sel);
    if new_word_count(cands, st.fwd, 0) == 0 {
    } else if fuel == 0 {
    } else {
        lemma_grow_all_monotone(st, cands, 0);
        lemma_run_monotone(grow_all(st, cands, 0), sentences, sel, (fuel - 1) as nat, done + 1);
    }
}

/// Why a run stopped without converging.
pub struct EngineError {
    /// how many growing phases ran
    pub iterations: usize,
    /// how many candidates remained pending
    pub pending: usize,
}

/// The convergence loop: scanning and growing alternate until a full pass
/// yields no code-table key that was not already present, or until
/// `max_iterations` growing phases have run. `Ok` carries the number of
/// growing phases; `Err` reports the cap and the pending candidate count.
pub fn run(
    dict: &mut Dictionary,
    sentences: &Vec<Vec<char>>,
    select: &Vec<char>,
    max_iterations: usize,
    out: &mut CharMap,
) -> (r: Result<usize, EngineError>)
    requires
        old(dict).wf(),
        old(out).wf(),
        all_covered(sentences.deep_view(), old(dict).fwd()),
    ensures
        final(dict).wf(),
        final(out).wf(),
        old(dict).fwd().dom().subset_of(final(dict).fwd().dom()),
        all_covered(sentences.deep_view(), final(dict).fwd()),
        ({
            let st0 = (EngineState {
                fwd: old(dict).fwd(),
                rev: old(dict).rev(),
                mcl: old(dict).mcl(),
                prot: Set::<Seq<char>>::empty(),
                out: old(out)@,
            });
            let o = run_spec(st0, sentences.deep_view(), select@, max_iterations as nat, 0);
            match r {
                Ok(n) => {
                    &&& o is Converged
                    &&& o->Converged_0.fwd == final(dict).fwd()
                    &&& o->Converged_0.rev == final(dict).rev()
                    &&& o->Converged_0.mcl == final(dict).mcl()
                    &&& o->Converged_0.out == final(out)@
                    &&& o->Converged_1 == n as nat
                    &&& n <= max_iterations
                    &&& new_word_count(
                        collect_candidates(
                            sentences.deep_view(),
                            final(dict).fwd(),
                            final(dict).rev(),
                            final(dict).mcl(),
                            select@,
                        ),
                        final(dict).fwd(),
                        0,
                    ) == 0
                },
                Err(e) => {
                    &&& o is GaveUp
                    &&& o->GaveUp_0.fwd == final(dict).fwd()
                    &&& o->GaveUp_0.rev == final(dict).rev()
                    &&& o->GaveUp_0.mcl == final(dict).mcl()
                    &&& o->GaveUp_0.out == final(out)@
                    &&& o->GaveUp_1 == e.pending as nat
                    &&& e.iterations == max_iterations
                    &&& e.pending > 0
                },
            }
        }),
{
    let ghost sv = sentences.deep_view();
    let ghost sel = select@;
    let ghost st0 = EngineState {
        fwd: old(dict).fwd(),
        rev: old(dict).rev(),
        mcl: old(dict).mcl(),
        prot: Set::<Seq<char>>::empty(),
        out: old(out)@,
    };
    let ghost fwd0 = old(dict).fwd();
    let mut prot = CharSet::new();
    let mut iters: usize = 0;
    proof {
        let cur = EngineState {
            fwd: dict.fwd(),
            rev: dict.rev(),
            mcl: dict.mcl(),
            prot: prot@,
            out: out@,
        };
        assert(cur =~= st0);
    }
    loop
        invariant
            dict.wf(),
            out.wf(),
            sv == sentences.deep_view(),
            sel == select@,
            iters <= max_iterations,
            all_covered(sv, dict.fwd()),
            fwd0 == old(dict).fwd(),
            st0 == (EngineState {
                fwd: old(dict).fwd(),
                rev: old(dict).rev(),
                mcl: old(dict).mcl(),
                prot: Set::<Seq<char>>::empty(),
                out: old(out)@,
            }),
            fwd0.dom().subset_of(dict.fwd().dom()),
            run_spec(
                EngineState {
                    fwd: dict.fwd(),
                    rev: dict.rev(),
                    mcl: dict.mcl(),
                    prot: prot@,
                    out: out@,
                },
                sv,
                sel,
                (max_iterations - iters) as nat,
                iters as nat,
            ) == run_spec(st0, sv, sel, max_iterations as nat, 0),
        decreases max_iterations - iters,
    {
        let ghost cur = EngineState {
            fwd: dict.fwd(),
            rev: dict.rev(),
            mcl: dict.mcl(),
            prot: prot@,
            out: out@,
        };
        let (cands, _diverged) = scan_pass(dict, sentences, select);
        let pending = count_new(dict, &cands);
        proof {
            assert(cands_view(cands@) == collect_candidates(
                sv,
                cur.fwd,
                cur.rev,
                cur.mcl,
                sel,
            ));
        }
        if pending == 0 {
            return Ok(iters);
        }
        if iters == max_iterations {
            return Err(EngineError { iterations: iters, pending });
        }
        grow(dict, &cands, &mut prot, out);
        proof {
            let next = EngineState {
                fwd: dict.fwd(),
                rev: dict.rev(),
                mcl: dict.mcl(),
                prot: prot@,
                out: out@,
            };
            assert(next =~= grow_all(cur, cands_view(cands@), 0));
            lemma_grow_all_monotone(cur, cands_view(cands@), 0);
            assert forall|j: int| 0 <= j < sv.len() implies covered(
                #[trigger] sv[j],
                dict.fwd(),
            ) by {
                lemma_covered_monotone(sv[j], cur.fwd, dict.fwd());
            }
        }
        iters += 1;
    }
}

/// Copies a decoded sentence.
fn clone_words(words: &Vec<Vec<char>>) -> (r: Vec<Vec<char>>)
    ensures
        r.deep_view() == words.deep_view(),
{
    let mut r: Vec<Vec<char>> = Vec::new();
    let mut i: usize = 0;
    while i < words.len()
        invariant
            i <= words@.len(),
            r.deep_view() =~= words.deep_view().subrange(0, i as int),
        decreases words@.len() - i,
    {
        let ghost old_dv = r.deep_view();
        r.push(clone_chars(&words[i]));
        proof {
            assert(r.deep_view() =~= old_dv.push(words.deep_view()[i as int]));
            assert(r.deep_view() =~= words.deep_view().subrange(0, i as int + 1));
        }
        i += 1;
    }
    proof {
        assert(r.deep_view() =~= words.deep_view());
    }
    r
}

/// How many of the pass's candidates are new words.
pub fn count_new(dict: &Dictionary, cands: &Vec<Candidate>) -> (r: usize)
    requires
        dict.wf(),
    ensures
        r == new_word_count(cands_view(cands@), dict.fwd(), 0),
{
    let mut r: usize = 0;
    let mut i: usize = 0;
    let ghost cv = cands_view(cands@);
    while i < cands.len()
        invariant
            dict.wf(),
            cv == cands_view(cands@),
            i <= cands@.len(),
            r <= i,
            r + new_word_count(cv, dict.fwd(), i as int) == new_word_count(cv, dict.fwd(), 0),
        decreases cands@.len() - i,
    {
        if !dict.contains_word(cands[i].word_ref()) {
            proof {
                assert(cv[i as int].0 == cands@[i as int].word());
            }
            r += 1;
        } else {
            proof {
                assert(cv[i as int].0 == cands@[i as int].word());
            }
        }
        i += 1;
    }
    r
}

/// The growing phase: promotes the candidates into the Dictionary, the
/// protected-code set and the output entries, in discovery order.
pub fn grow(dict: &mut Dictionary, cands: &Vec<Candidate>, prot: &mut CharSet, out: &mut CharMap)
    requires
        old(dict).wf(),
        old(out).wf(),
        forall|k: int|
            0 <= k < cands@.len() ==> covered((#[trigger] cands@[k]).word(), old(dict).fwd()),
    ensures
        final(dict).wf(),
        final(out).wf(),
        ({
            let st = grow_all(
                EngineState {
                    fwd: old(dict).fwd(),
                    rev: old(dict).rev(),
                    mcl: old(dict).mcl(),
                    prot: old(prot)@,
                    out: old(out)@,
                },
                cands_view(cands@),
                0,
            );
            final(dict).fwd() == st.fwd && final(dict).rev() == st.rev && final(dict).mcl()
                == st.mcl && final(prot)@ == st.prot && final(out)@ == st.out
        }),
{
    let ghost cv = cands_view(cands@);
    let ghost st0 = EngineState {
        fwd: old(dict).fwd(),
        rev: old(dict).rev(),
        mcl: old(dict).mcl(),
        prot: old(prot)@,
        out: old(out)@,
    };
    let mut i: usize = 0;
    while i < cands.len()
        invariant
            dict.wf(),
            out.wf(),
            cv == cands_view(cands@),
            i <= cands@.len(),
            forall|k: int|
                i <= k < cands@.len() ==> covered((#[trigger] cands@[k]).word(), dict.fwd()),
            grow_all(
                EngineState {
                    fwd: dict.fwd(),
                    rev: dict.rev(),
                    mcl: dict.mcl(),
                    prot: prot@,
                    out: out@,
                },
                cv,
                i as int,
            ) == grow_all(st0, cv, 0),
        decreases cands@.len() - i,
    {
        let ghost st_cur = EngineState {
            fwd: dict.fwd(),
            rev: dict.rev(),
            mcl: dict.mcl(),
            prot: prot@,
            out: out@,
        };
        let c = &cands[i];
        let w = c.word_ref();
        proof {
            assert(covered(cands@[i as int].word(), dict.fwd()));
        }
        if !dict.contains_word(w) {
            match encode(w, dict) {
                Some(code) => {
                    proof {
                        assert(code@ == encode_spec(cv[i as int].0, st_cur.fwd));
                    }
                    dict.insert_forward(clone_chars(w), clone_chars(&code));
                    if !prot.contains(&code) {
                        dict.insert_reverse(clone_chars(&code), clone_chars(w));
                        out.set(clone_chars(&code), clone_chars(w));
                    }
                    if c.is_end() {
                        prot.insert(code);
                    }
                    proof {
                        let st_next = EngineState {
                            fwd: dict.fwd(),
                            rev: dict.rev(),
                            mcl: dict.mcl(),
                            prot: prot@,
                            out: out@,
                        };
                        assert(st_next == grow_one(st_cur, cv[i as int].0, cv[i as int].1));
                        assert forall|k: int|
                            i + 1 <= k < cands@.len() implies covered(
                            (#[trigger] cands@[k]).word(),
                            dict.fwd(),
                        ) by {
                            lemma_covered_monotone(cands@[k].word(), st_cur.fwd, dict.fwd());
                        }
                    }
                },
                None => {
                    proof {
                        assert(false);
                    }
                    return unreached();
                },
            }
        } else {
            proof {
                assert(grow_one(st_cur, cv[i as int].0, cv[i as int].1) == st_cur);
            }
        }
        i += 1;
    }
}

} // verus!
