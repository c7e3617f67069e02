//! The divergence locator.
//!
//! The decoded words are aligned against the true sentence; at the first
//! point of disagreement the locator searches forward, from the start of the
//! word that disagreed, for the shortest substring of the true sentence (of
//! length at least two) that is not yet a forward key. A substring found
//! strictly before the sentence end is an interior candidate; one whose
//! divergence reaches the sentence end is a boundary candidate — whether the
//! search found it there or ran off the end and recorded the remainder from
//! the previous word's start — since it may be an artifact of sentence
//! truncation rather than a real word. A remainder shorter than two
//! characters is no candidate at all.

use vstd::prelude::*;
use crate::dict::Dictionary;
use crate::encode::covered;
use crate::singleton;
use crate::util::lemma_vec_char_deep_view;
use crate::util::subvec;

verus! {

broadcast use lemma_vec_char_deep_view;

/// A substring proposed for promotion, tagged with whether the divergence
/// that produced it reaches the end of its sentence; a boundary candidate
/// may be an artifact of truncation, which the growing phase treats
/// cautiously.
pub enum Candidate {
    Interior(Vec<char>),
    Boundary(Vec<char>),
}

impl Candidate {
    pub open spec fn word(&self) -> Seq<char> {
        match self {
            Candidate::Interior(w) => w@,
            Candidate::Boundary(w) => w@,
        }
    }

    pub open spec fn is_boundary(&self) -> bool {
        self is Boundary
    }

    pub fn word_ref(&self) -> (r: &Vec<char>)
        ensures
            r@ == self.word(),
    {
        match self {
            Candidate::Interior(w) => w,
            Candidate::Boundary(w) => w,
        }
    }

    pub fn is_end(&self) -> (r: bool)
        ensures
            r == self.is_boundary(),
    {
        match self {
            Candidate::Interior(_) => false,
            Candidate::Boundary(_) => true,
        }
    }
}

/// The pair a candidate denotes: its word and its boundary tag.
pub open spec fn cand_opt_view(r: Option<Candidate>) -> Option<(Seq<char>, bool)> {
    match r {
        Some(c) => Some((c.word(), c.is_boundary())),
        None => None,
    }
}

/// The decoded word `w` reproduces the sentence at position `j`.
pub open spec fn word_matches(sentence: Seq<char>, w: Seq<char>, j: int) -> bool {
    &&& j + w.len() <= sentence.len()
    &&& forall|t: int| 0 <= t < w.len() ==> w[t] == sentence[j + t]
}

/// Walks the decoded words along the sentence; on the first word that does
/// not reproduce it, yields the word's start and the previous word's start.
pub open spec fn find_divergence(
    sentence: Seq<char>,
    words: Seq<Seq<char>>,
    j: int,
    lastj: int,
) -> Option<(int, int)>
    decreases words.len(),
{
    if words.len() == 0 {
        None
    } else if word_matches(sentence, words[0], j) {
        find_divergence(sentence, words.drop_first(), j + words[0].len(), j)
    } else {
        Some((j, lastj))
    }
}

/// The shortest unknown substring search, from length `wl` up: the first
/// window `[j, j+wl)` that is no forward key is the candidate, tagged
/// boundary exactly when it reaches the sentence end; when the window
/// overruns the end before finding one, the remainder from `lastj` is the
/// candidate, tagged boundary — or nothing when that remainder is shorter
/// than two characters.
pub open spec fn search_candidate(
    sentence: Seq<char>,
    fwd: Map<Seq<char>, Seq<char>>,
    j: int,
    lastj: int,
    wl: int,
) -> Option<(Seq<char>, bool)>
    decreases sentence.len() + 1 - (j + wl),
{
    if j + wl > sentence.len() {
        if sentence.len() - lastj >= 2 {
            Some((sentence.subrange(lastj, sentence.len() as int), true))
        } else {
            None
        }
    } else if !fwd.dom().contains(sentence.subrange(j, j + wl)) {
        Some((sentence.subrange(j, j + wl), j + wl == sentence.len()))
    } else {
        search_candidate(sentence, fwd, j, lastj, wl + 1)
    }
}

/// What the locator reports for one sentence and its decode: nothing for a
/// sentence of length one or an exact reproduction, else the searched
/// candidate at the first divergence.
pub open spec fn compare_spec(
    sentence: Seq<char>,
    words: Seq<Seq<char>>,
    fwd: Map<Seq<char>, Seq<char>>,
) -> Option<(Seq<char>, bool)> {
    if sentence.len() < 2 {
        None
    } else {
        match find_divergence(sentence, words, 0, 0) {
            None => None,
            Some(p) => search_candidate(sentence, fwd, p.0, p.1, 2),
        }
    }
}

pub proof fn lemma_find_divergence_bounds(
    sentence: Seq<char>,
    words: Seq<Seq<char>>,
    j: int,
    lastj: int,
)
    requires
        0 <= lastj <= j <= sentence.len(),
    ensures
        match find_divergence(sentence, words, j, lastj) {
            Some(p) => 0 <= p.1 <= p.0 <= sentence.len(),
            None => true,
        },
    decreases words.len(),
{
    if words.len() == 0 {
    } else if word_matches(sentence, words[0], j) {
        lemma_find_divergence_bounds(sentence, words.drop_first(), j + words[0].len(), j);
    }
}

/// The candidate the search yields is a contiguous substring of the sentence.
pub proof fn lemma_search_candidate_sub(
    sentence: Seq<char>,
    fwd: Map<Seq<char>, Seq<char>>,
    j: int,
    lastj: int,
    wl: int,
)
    requires
        0 <= lastj <= sentence.len(),
        0 <= j,
        2 <= wl,
    ensures
        match search_candidate(sentence, fwd, j, lastj, wl) {
            Some(p) => 2 <= p.0.len() && exists|lo: int|
                0 <= lo && lo + p.0.len() <= sentence.len() && p.0 == #[trigger] sentence.subrange(
                    lo,
                    lo + p.0.len(),
                ),
            None => true,
        },
    decreases sentence.len() + 1 - (j + wl),
{
    if j + wl > sentence.len() {
        if sentence.len() - lastj >= 2 {
            let w = sentence.subrange(lastj, sentence.len() as int);
            assert(w == sentence.subrange(lastj, lastj + w.len()));
        }
    } else if !fwd.dom().contains(sentence.subrange(j, j + wl)) {
        let w = sentence.subrange(j, j + wl);
        assert(w == sentence.subrange(j, j + w.len()));
    } else {
        lemma_search_candidate_sub(sentence, fwd, j, lastj, wl + 1);
    }
}

/// The search yields the shortest unknown substring: its result is an
/// unknown window at `j` of at least the starting length, boundary-tagged
/// exactly when it reaches the sentence end, every shorter window from `j`
/// being a forward key already; or every window from `j` fit the table and
/// the boundary-tagged remainder from `lastj` is yielded; or that remainder
/// is shorter than two characters and nothing is.
pub proof fn lemma_search_candidate_minimal(
    sentence: Seq<char>,
    fwd: Map<Seq<char>, Seq<char>>,
    j: int,
    lastj: int,
    wl: int,
)
    requires
        0 <= j,
        2 <= wl,
    ensures
        ({
            let every_window_known = (forall|l: int|
                wl <= l && j + l <= sentence.len() ==> fwd.dom().contains(
                    #[trigger] sentence.subrange(j, j + l),
                ));
            match search_candidate(sentence, fwd, j, lastj, wl) {
                Some(p) => {
                    ||| (!fwd.dom().contains(p.0) && wl <= p.0.len() && j + p.0.len()
                        <= sentence.len() && p.0 == sentence.subrange(j, j + p.0.len()) && p.1 == (j
                        + p.0.len() == sentence.len()) && (forall|l: int|
                        wl <= l < p.0.len() ==> fwd.dom().contains(
                            #[trigger] sentence.subrange(j, j + l),
                        )))
                    ||| (p.1 && p.0 == sentence.subrange(lastj, sentence.len() as int)
                        && sentence.len() - lastj >= 2 && every_window_known)
                },
                None => sentence.len() - lastj < 2 && every_window_known,
            }
        }),
    decreases sentence.len() + 1 - (j + wl),
{
    if j + wl > sentence.len() {
        assert forall|l: int| wl <= l && j + l <= sentence.len() implies fwd.dom().contains(
            #[trigger] sentence.subrange(j, j + l),
        ) by {}
    } else if !fwd.dom().contains(sentence.subrange(j, j + wl)) {
        let w = sentence.subrange(j, j + wl);
        assert(w.len() == wl);
        assert(w == sentence.subrange(j, j + w.len()));
    } else {
        lemma_search_candidate_minimal(sentence, fwd, j, lastj, wl + 1);
        assert forall|l: int|
            wl <= l && j + l <= sentence.len() && (forall|l2: int|
                wl + 1 <= l2 && j + l2 <= sentence.len() ==> fwd.dom().contains(
                    #[trigger] sentence.subrange(j, j + l2),
                )) implies fwd.dom().contains(#[trigger] sentence.subrange(j, j + l)) by {
            if l > wl {
                assert(fwd.dom().contains(sentence.subrange(j, j + l)));
            }
        }
        match search_candidate(sentence, fwd, j, lastj, wl + 1) {
            Some(p) => {
                if !fwd.dom().contains(p.0) && wl + 1 <= p.0.len() && j + p.0.len()
                    <= sentence.len() && p.0 == sentence.subrange(j, j + p.0.len()) && p.1 == (j
                    + p.0.len() == sentence.len()) && (forall|l: int|
                    wl + 1 <= l < p.0.len() ==> fwd.dom().contains(
                        #[trigger] sentence.subrange(j, j + l),
                    )) {
                    assert forall|l: int| wl <= l < p.0.len() implies fwd.dom().contains(
                        #[trigger] sentence.subrange(j, j + l),
                    ) by {
                        if l > wl {
                            assert(fwd.dom().contains(sentence.subrange(j, j + l)));
                        }
                    }
                }
            },
            None => {},
        }
    }
}

/// Every candidate the locator reports is at least two characters long.
pub proof fn lemma_candidate_length(
    sentence: Seq<char>,
    words: Seq<Seq<char>>,
    fwd: Map<Seq<char>, Seq<char>>,
)
    ensures
        match compare_spec(sentence, words, fwd) {
            Some(p) => p.0.len() >= 2,
            None => true,
        },
{
    if sentence.len() < 2 {
    } else {
        match find_divergence(sentence, words, 0, 0) {
            None => {},
            Some(p) => {
                lemma_find_divergence_bounds(sentence, words, 0, 0);
                lemma_search_candidate_sub(sentence, fwd, p.0, p.1, 2);
            },
        }
    }
}

/// A candidate mined from a covered sentence is itself covered.
pub proof fn lemma_compare_candidate_covered(
    sentence: Seq<char>,
    words: Seq<Seq<char>>,
    fwd: Map<Seq<char>, Seq<char>>,
    m: Map<Seq<char>, Seq<char>>,
)
    requires
        covered(sentence, m),
    ensures
        match compare_spec(sentence, words, fwd) {
            Some(p) => covered(p.0, m),
            None => true,
        },
{
    if sentence.len() < 2 {
    } else {
        match find_divergence(sentence, words, 0, 0) {
            None => {},
            Some(p) => {
                lemma_find_divergence_bounds(sentence, words, 0, 0);
                lemma_search_candidate_sub(sentence, fwd, p.0, p.1, 2);
                match search_candidate(sentence, fwd, p.0, p.1, 2) {
                    None => {},
                    Some(q) => {
                        let w = q.0;
                        let lo = choose|lo: int|
                            0 <= lo && lo + w.len() <= sentence.len() && w
                                == #[trigger] sentence.subrange(lo, lo + w.len());
                        assert forall|t: int| 0 <= t < w.len() implies #[trigger] m.dom().contains(
                            singleton(w[t]),
                        ) by {
                            assert(w[t] == sentence[lo + t]);
                            assert(m.dom().contains(singleton(sentence[lo + t])));
                        }
                    },
                }
            },
        }
    }
}

/// Checks whether the decoded word reproduces the sentence at position `j`.
fn check_word_match(sentence: &Vec<char>, w: &Vec<char>, j: usize) -> (r: bool)
    requires
        j <= sentence@.len(),
    ensures
        r == word_matches(sentence@, w@, j as int),
{
    let n = sentence.len();
    if w.len() > n - j {
        return false;
    }
    let mut t: usize = 0;
    while t < w.len()
        invariant
            n == sentence@.len(),
            j + w@.len() <= n,
            t <= w@.len(),
            forall|s: int| 0 <= s < t ==> w@[s] == sentence@[j + s],
        decreases w@.len() - t,
    {
        if w[t] != sentence[j + t] {
            return false;
        }
        t += 1;
    }
    true
}

/// Aligns one sentence against its decode and reports the candidate of the
/// first divergence, exactly as `compare_spec` states it.
pub fn compare_one(sentence: &Vec<char>, words: &Vec<Vec<char>>, dict: &Dictionary) -> (r: Option<
    Candidate,
>)
    requires
        dict.wf(),
    ensures
        cand_opt_view(r) == compare_spec(sentence@, words.deep_view(), dict.fwd()),
{
    if sentence.len() < 2 {
        return None;
    }
    let ghost fd = find_divergence(sentence@, words.deep_view(), 0, 0);
    let mut j: usize = 0;
    let mut lastj: usize = 0;
    let mut widx: usize = 0;
    proof {
        assert(words.deep_view().skip(0) =~= words.deep_view());
    }
    while widx < words.len()
        invariant
            dict.wf(),
            2 <= sentence@.len(),
            widx <= words@.len(),
            lastj <= j <= sentence@.len(),
            fd == find_divergence(sentence@, words.deep_view(), 0, 0),
            fd == find_divergence(
                sentence@,
                words.deep_view().skip(widx as int),
                j as int,
                lastj as int,
            ),
        decreases words@.len() - widx,
    {
        let w = &words[widx];
        let ghost rest = words.deep_view().skip(widx as int);
        proof {
            assert(rest[0] == words.deep_view()[widx as int]);
            assert(rest[0] == w@);
        }
        if check_word_match(sentence, w, j) {
            proof {
                assert(rest.drop_first() =~= words.deep_view().skip(widx as int + 1));
            }
            let slen = sentence.len();
            let wlen = w.len();
            proof {
                assert(j + wlen <= slen);
            }
            lastj = j;
            j = j + wlen;
            widx += 1;
        } else {
            proof {
                assert(fd == Some((j as int, lastj as int)));
            }
            // the shortest unknown substring search
            let ghost target = search_candidate(
                sentence@,
                dict.fwd(),
                j as int,
                lastj as int,
                2,
            );
            let n = sentence.len();
            let mut wl: usize = 2;
            loop
                invariant
                    dict.wf(),
                    2 <= wl,
                    n == sentence@.len(),
                    2 <= sentence@.len(),
                    lastj <= j <= n,
                    fd == find_divergence(sentence@, words.deep_view(), 0, 0),
                    fd == Some((j as int, lastj as int)),
                    target == search_candidate(sentence@, dict.fwd(), j as int, lastj as int, 2),
                    target == search_candidate(
                        sentence@,
                        dict.fwd(),
                        j as int,
                        lastj as int,
                        wl as int,
                    ),
                decreases n + 1 - (j + wl),
            {
                if wl > n - j {
                    if n - lastj >= 2 {
                        let rem = subvec(sentence, lastj, n);
                        return Some(Candidate::Boundary(rem));
                    } else {
                        return None;
                    }
                }
                let piece = subvec(sentence, j, j + wl);
                if !dict.contains_word(&piece) {
                    if j + wl == n {
                        return Some(Candidate::Boundary(piece));
                    } else {
                        return Some(Candidate::Interior(piece));
                    }
                }
                if wl == n - j {
                    proof {
                        assert(search_candidate(
                            sentence@,
                            dict.fwd(),
                            j as int,
                            lastj as int,
                            wl as int,
                        ) == search_candidate(
                            sentence@,
                            dict.fwd(),
                            j as int,
                            lastj as int,
                            wl as int + 1,
                        ));
                    }
                    if n - lastj >= 2 {
                        let rem = subvec(sentence, lastj, n);
                        return Some(Candidate::Boundary(rem));
                    } else {
                        return None;
                    }
                }
                wl += 1;
            }
        }
    }
    proof {
        assert(words.deep_view().skip(widx as int) =~= Seq::<Seq<char>>::empty());
    }
    None
}

} // verus!
