//! The bigram seeder, an optional one-shot initializer.
//!
//! A reference set "first" — the words that are values of the reverse table
//! at the moment the Dictionary was loaded — is taken once. For every
//! position of every sentence of length at least two whose character's
//! single-character form is not in that set, a two-character candidate is
//! formed with the successor (with the predecessor at the last position),
//! its code freshly derived from the base codes, and inserted directly,
//! bypassing the convergence check. Policy, first write wins everywhere: an
//! existing forward word, reverse code or output code is never overwritten.

use vstd::prelude::*;
use crate::charmap::CharMap;
use crate::dict::Dictionary;
use crate::encode::covered;
use crate::encode::encode;
use crate::encode::encode_spec;
use crate::encode::lemma_covered_monotone;
use crate::engine::EngineState;
use crate::engine::all_covered;
use crate::singleton;
use crate::singleton_vec;
use crate::util::clone_chars;
use crate::util::lemma_vec_char_deep_view;
use crate::util::subvec;
use vstd::pervasive::unreached;

verus! {

broadcast use lemma_vec_char_deep_view;

/// Whether some reverse key of the load-time table maps to the character's
/// single-character form.
pub open spec fn char_known(rev0: Map<Seq<char>, Seq<char>>, c: char) -> bool {
    exists|k: Seq<char>| #[trigger] rev0.dom().contains(k) && rev0[k] == singleton(c)
}

/// The two-character candidate at position `i`: the character paired with
/// its successor, or with its predecessor at the last position.
pub open spec fn bigram_at(s: Seq<char>, i: int) -> Seq<char> {
    if i + 1 < s.len() {
        s.subrange(i, i + 2)
    } else {
        s.subrange(i - 1, i + 1)
    }
}

/// Seeding one position: nothing when the character is already covered by
/// the load-time reference set, else the bigram, first write winning in the
/// forward table, the reverse table and the output entries.
pub open spec fn seed_at(
    st: EngineState,
    rev0: Map<Seq<char>, Seq<char>>,
    s: Seq<char>,
    i: int,
) -> EngineState {
    if char_known(rev0, s[i]) {
        st
    } else {
        let w = bigram_at(s, i);
        let code = encode_spec(w, st.fwd);
        EngineState {
            fwd: if st.fwd.dom().contains(w) {
                st.fwd
            } else {
                st.fwd.insert(w, code)
            },
            rev: if st.rev.dom().contains(code) {
                st.rev
            } else {
                st.rev.insert(code, w)
            },
            mcl: if st.rev.dom().contains(code) {
                st.mcl
            } else if code.len() > st.mcl {
                code.len()
            } else {
                st.mcl
            },
            prot: st.prot,
            out: if st.out.dom().contains(code) {
                st.out
            } else {
                st.out.insert(code, w)
            },
        }
    }
}

pub open spec fn seed_sentence(
    st: EngineState,
    rev0: Map<Seq<char>, Seq<char>>,
    s: Seq<char>,
    i: int,
) -> EngineState
    decreases s.len() - i,
{
    if i < 0 || i >= s.len() {
        st
    } else {
        seed_sentence(seed_at(st, rev0, s, i), rev0, s, i + 1)
    }
}

/// Sentences of length one carry no pairing and are skipped.
pub open spec fn seed_corpus(
    st: EngineState,
    rev0: Map<Seq<char>, Seq<char>>,
    sentences: Seq<Seq<char>>,
    k: int,
) -> EngineState
    decreases sentences.len() - k,
{
    if k < 0 || k >= sentences.len() {
        st
    } else if sentences[k].len() < 2 {
        seed_corpus(st, rev0, sentences, k + 1)
    } else {
        seed_corpus(seed_sentence(st, rev0, sentences[k], 0), rev0, sentences, k + 1)
    }
}

/// Runs the seeder once over the corpus.
pub fn seed_bigrams(dict: &mut Dictionary, sentences: &Vec<Vec<char>>, out: &mut CharMap)
    requires
        old(dict).wf(),
        old(out).wf(),
        all_covered(sentences.deep_view(), old(dict).fwd()),
    ensures
        final(dict).wf(),
        final(out).wf(),
        old(dict).fwd().dom().subset_of(final(dict).fwd().dom()),
        all_covered(sentences.deep_view(), final(dict).fwd()),
        ({
            let st = seed_corpus(
                EngineState {
                    fwd: old(dict).fwd(),
                    rev: old(dict).rev(),
                    mcl: old(dict).mcl(),
                    prot: Set::<Seq<char>>::empty(),
                    out: old(out)@,
                },
                old(dict).rev(),
                sentences.deep_view(),
                0,
            );
            final(dict).fwd() == st.fwd && final(dict).rev() == st.rev && final(dict).mcl()
                == st.mcl && final(out)@ == st.out
        }),
{
    let ghost sv = sentences.deep_view();
    let ghost rev0 = dict.rev();
    let ghost fwd0 = dict.fwd();
    let ghost st0 = EngineState {
        fwd: dict.fwd(),
        rev: dict.rev(),
        mcl: dict.mcl(),
        prot: Set::<Seq<char>>::empty(),
        out: out@,
    };
    let first = dict.clone_reverse();
    let mut k: usize = 0;
    while k < sentences.len()
        invariant
            dict.wf(),
            out.wf(),
            sv == sentences.deep_view(),
            rev0 == old(dict).rev(),
            fwd0 == old(dict).fwd(),
            st0 == (EngineState {
                fwd: old(dict).fwd(),
                rev: old(dict).rev(),
                mcl: old(dict).mcl(),
                prot: Set::<Seq<char>>::empty(),
                out: old(out)@,
            }),
            first@ == rev0,
            first.wf(),
            k <= sv.len(),
            fwd0.dom().subset_of(dict.fwd().dom()),
            all_covered(sv, dict.fwd()),
            prot_free(dict, out) == (EngineState {
                fwd: dict.fwd(),
                rev: dict.rev(),
                mcl: dict.mcl(),
                prot: Set::<Seq<char>>::empty(),
                out: out@,
            }),
            seed_corpus(prot_free(dict, out), rev0, sv, k as int) == seed_corpus(st0, rev0, sv, 0),
        decreases sv.len() - k,
    {
        let s = &sentences[k];
        proof {
            assert(sv[k as int] == s@);
        }
        if s.len() >= 2 {
            let ghost st_in = prot_free(dict, out);
            let mut i: usize = 0;
            while i < s.len()
                invariant
                    dict.wf(),
                    out.wf(),
                    sv == sentences.deep_view(),
                    first@ == rev0,
                    first.wf(),
                    k < sv.len(),
                    sv[k as int] == s@,
                    2 <= s@.len(),
                    i <= s@.len(),
                    fwd0.dom().subset_of(dict.fwd().dom()),
                    all_covered(sv, dict.fwd()),
                    seed_sentence(prot_free(dict, out), rev0, s@, i as int) == seed_sentence(
                        st_in,
                        rev0,
                        s@,
                        0,
                    ),
                decreases s@.len() - i,
            {
                let ghost st_cur = prot_free(dict, out);
                let c = s[i];
                let key = singleton_vec(c);
                if !first.has_value(&key) {
                    proof {
                        assert(!char_known(rev0, s@[i as int]));
                    }
                    let w = if i + 1 < s.len() {
                        subvec(s, i, i + 2)
                    } else {
                        subvec(s, i - 1, i + 1)
                    };
                    proof {
                        assert(w@ == bigram_at(s@, i as int));
                        assert(covered(w@, dict.fwd())) by {
                            assert forall|t: int| 0 <= t < w@.len() implies #[trigger] dict.fwd()
                                .dom().contains(singleton(w@[t])) by {
                                assert(covered(s@, dict.fwd()));
                                if i + 1 < s@.len() {
                                    assert(w@[t] == s@[i + t]);
                                } else {
                                    assert(w@[t] == s@[i - 1 + t]);
                                }
                            }
                        }
                    }
                    match encode(&w, dict) {
                        Some(code) => {
                            proof {
                                assert(code@ == encode_spec(w@, st_cur.fwd));
                            }
                            if !dict.contains_word(&w) {
                                dict.insert_forward(clone_chars(&w), clone_chars(&code));
                            }
                            dict.insert_reverse_first(clone_chars(&code), clone_chars(&w));
                            out.set_if_absent(code, w);
                            proof {
                                assert(prot_free(dict, out) =~= seed_at(
                                    st_cur,
                                    rev0,
                                    s@,
                                    i as int,
                                ));
                                assert forall|j: int| 0 <= j < sv.len() implies covered(
                                    #[trigger] sv[j],
                                    dict.fwd(),
                                ) by {
                                    lemma_covered_monotone(sv[j], st_cur.fwd, dict.fwd());
                                }
                            }
                        },
                        None => {
                            proof {
                                assert(false);
                            }
                            return unreached();
                        },
                    }
                } else {
                    proof {
                        assert(char_known(rev0, s@[i as int]));
                        assert(prot_free(dict, out) == seed_at(st_cur, rev0, s@, i as int));
                    }
                }
                i += 1;
            }
            proof {
                assert(s@.len() >= 2);
                assert(seed_sentence(prot_free(dict, out), rev0, s@, s@.len() as int)
                    == prot_free(dict, out));
            }
        }
        k += 1;
    }
}

/// The engine state a Dictionary and an output map denote, with no
/// protected codes.
pub open spec fn prot_free(dict: &Dictionary, out: &CharMap) -> EngineState {
    EngineState {
        fwd: dict.fwd(),
        rev: dict.rev(),
        mcl: dict.mcl(),
        prot: Set::<Seq<char>>::empty(),
        out: out@,
    }
}

} // verus!
