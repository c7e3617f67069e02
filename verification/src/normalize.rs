//! The corpus normalizer: raw text becomes in-vocabulary sentences.
//!
//! Text is split at a fixed set of punctuation and whitespace boundaries,
//! Western and CJK; within a fragment, characters without a base code are
//! dropped; fragments left empty are discarded.

use vstd::prelude::*;
use crate::dict::Dictionary;
use crate::encode::covered;
use crate::singleton;

verus! {

/// The fixed sentence separators.
pub open spec fn is_separator(c: char) -> bool {
    ||| c == ' '
    ||| c == '\r'
    ||| c == '\n'
    ||| c == '.'
    ||| c == '!'
    ||| c == '?'
    ||| c == ','
    ||| c == ';'
    ||| c == ':'
    ||| c == '…'
    ||| c == '。'
    ||| c == '？'
    ||| c == '！'
    ||| c == '，'
    ||| c == '、'
    ||| c == '；'
    ||| c == '：'
    ||| c == '“'
    ||| c == '”'
    ||| c == '‘'
    ||| c == '’'
    ||| c == '「'
    ||| c == '」'
    ||| c == '『'
    ||| c == '』'
    ||| c == '—'
    ||| c == '《'
    ||| c == '》'
    ||| c == '〈'
    ||| c == '〉'
    ||| c == '【'
    ||| c == '】'
    ||| c == '〔'
    ||| c == '〕'
    ||| c == '（'
    ||| c == '）'
    ||| c == '［'
    ||| c == '］'
    ||| c == '｛'
    ||| c == '｝'
}

#[verifier::when_used_as_spec(is_separator)]
pub fn is_separator_exec(c: char) -> (r: bool)
    ensures
        r == is_separator(c),
{
    c == ' ' || c == '\r' || c == '\n' || c == '.' || c == '!' || c == '?' || c == ',' || c == ';'
        || c == ':' || c == '…' || c == '。' || c == '？' || c == '！' || c == '，' || c == '、'
        || c == '；' || c == '：' || c == '“' || c == '”' || c == '‘' || c == '’' || c == '「'
        || c == '」' || c == '『' || c == '』' || c == '—' || c == '《' || c == '》' || c == '〈'
        || c == '〉' || c == '【' || c == '】' || c == '〔' || c == '〕' || c == '（' || c == '）'
        || c == '［' || c == '］' || c == '｛' || c == '｝'
}

/// The sentences of `text` from position `i` on, with `cur` the in-vocabulary
/// characters of the fragment under construction.
pub open spec fn normalize_from(
    text: Seq<char>,
    fwd: Map<Seq<char>, Seq<char>>,
    i: int,
    cur: Seq<char>,
) -> Seq<Seq<char>>
    decreases text.len() - i,
{
    if i < 0 || i >= text.len() {
        if cur.len() > 0 {
            seq![cur]
        } else {
            Seq::empty()
        }
    } else if is_separator(text[i]) {
        if cur.len() > 0 {
            seq![cur] + normalize_from(text, fwd, i + 1, Seq::empty())
        } else {
            normalize_from(text, fwd, i + 1, Seq::empty())
        }
    } else if fwd.dom().contains(singleton(text[i])) {
        normalize_from(text, fwd, i + 1, cur.push(text[i]))
    } else {
        normalize_from(text, fwd, i + 1, cur)
    }
}

/// The ordered sentences the normalizer produces from `text`.
pub open spec fn normalize_spec(text: Seq<char>, fwd: Map<Seq<char>, Seq<char>>) -> Seq<
    Seq<char>,
> {
    normalize_from(text, fwd, 0, Seq::empty())
}

/// Every produced sentence is non-empty and covered by the forward table.
pub proof fn lemma_normalize_covered(
    text: Seq<char>,
    fwd: Map<Seq<char>, Seq<char>>,
    i: int,
    cur: Seq<char>,
)
    requires
        covered(cur, fwd),
    ensures
        forall|j: int|
            0 <= j < normalize_from(text, fwd, i, cur).len() ==> (#[trigger] normalize_from(
                text,
                fwd,
                i,
                cur,
            )[j]).len() >= 1 && covered(normalize_from(text, fwd, i, cur)[j], fwd),
    decreases text.len() - i,
{
    let r = normalize_from(text, fwd, i, cur);
    if i < 0 || i >= text.len() {
        if cur.len() > 0 {
            assert(r[0] == cur);
        }
    } else if is_separator(text[i]) {
        lemma_normalize_covered(text, fwd, i + 1, Seq::empty());
        if cur.len() > 0 {
            let rest = normalize_from(text, fwd, i + 1, Seq::empty());
            assert forall|j: int| 0 <= j < r.len() implies (#[trigger] r[j]).len() >= 1 && covered(
                r[j],
                fwd,
            ) by {
                if j == 0 {
                    assert(r[0] == cur);
                } else {
                    assert(r[j] == rest[j - 1]);
                }
            }
        } else {
            let rest = normalize_from(text, fwd, i + 1, Seq::empty());
            assert forall|j: int| 0 <= j < r.len() implies (#[trigger] r[j]).len() >= 1 && covered(
                r[j],
                fwd,
            ) by {
                assert(r[j] == rest[j]);
            }
        }
    } else if fwd.dom().contains(singleton(text[i])) {
        assert(covered(cur.push(text[i]), fwd)) by {
            assert forall|k: int| 0 <= k < cur.push(text[i]).len() implies #[trigger] fwd.dom()
                .contains(singleton(cur.push(text[i])[k])) by {
                if k < cur.len() {
                    assert(cur.push(text[i])[k] == cur[k]);
                } else {
                    assert(cur.push(text[i])[k] == text[i]);
                }
            }
        }
        lemma_normalize_covered(text, fwd, i + 1, cur.push(text[i]));
        let rest = normalize_from(text, fwd, i + 1, cur.push(text[i]));
        assert forall|j: int| 0 <= j < r.len() implies (#[trigger] r[j]).len() >= 1 && covered(
            r[j],
            fwd,
        ) by {
            assert(r[j] == rest[j]);
        }
    } else {
        lemma_normalize_covered(text, fwd, i + 1, cur);
        let rest = normalize_from(text, fwd, i + 1, cur);
        assert forall|j: int| 0 <= j < r.len() implies (#[trigger] r[j]).len() >= 1 && covered(
            r[j],
            fwd,
        ) by {
            assert(r[j] == rest[j]);
        }
    }
}

/// Splits raw text into in-vocabulary sentences, order preserved.
pub fn normalize(text: &Vec<char>, dict: &Dictionary) -> (r: Vec<Vec<char>>)
    requires
        dict.wf(),
    ensures
        r.deep_view() == normalize_spec(text@, dict.fwd()),
{
    let mut r: Vec<Vec<char>> = Vec::new();
    let mut cur: Vec<char> = Vec::new();
    let mut i: usize = 0;
    proof {
        assert(r.deep_view() + normalize_from(text@, dict.fwd(), 0, cur@) =~= normalize_spec(
            text@,
            dict.fwd(),
        ));
    }
    while i < text.len()
        invariant
            dict.wf(),
            i <= text@.len(),
            r.deep_view() + normalize_from(text@, dict.fwd(), i as int, cur@) =~= normalize_spec(
                text@,
                dict.fwd(),
            ),
        decreases text@.len() - i,
    {
        let c = text[i];
        if is_separator_exec(c) {
            if cur.len() == 0 {
                proof {
                    assert(cur@ =~= Seq::<char>::empty());
                    assert(normalize_from(text@, dict.fwd(), i as int, cur@) == normalize_from(
                        text@,
                        dict.fwd(),
                        i as int + 1,
                        Seq::empty(),
                    ));
                }
            }
            if cur.len() > 0 {
                let ghost old_dv = r.deep_view();
                let ghost curv = cur@;
                let done = cur;
                cur = Vec::new();
                proof {
                    assert(done.deep_view() =~= curv);
                }
                r.push(done);
                proof {
                    assert(cur@ =~= Seq::<char>::empty());
                    assert(r.deep_view() =~= old_dv.push(curv));
                    assert(old_dv.push(curv) + normalize_from(
                        text@,
                        dict.fwd(),
                        i as int + 1,
                        Seq::empty(),
                    ) =~= old_dv + (seq![curv] + normalize_from(
                        text@,
                        dict.fwd(),
                        i as int + 1,
                        Seq::empty(),
                    )));
                    assert(normalize_from(text@, dict.fwd(), i as int, curv) == seq![curv]
                        + normalize_from(text@, dict.fwd(), i as int + 1, Seq::empty()));
                }
            }
        } else {
            let has = dict.contains_word(&crate::singleton_vec(c));
            if has {
                cur.push(c);
            }
        }
        i += 1;
    }
    if cur.len() > 0 {
        let ghost old_dv = r.deep_view();
        let ghost curv = cur@;
        proof {
            assert(cur.deep_view() =~= curv);
        }
        r.push(cur);
        proof {
            assert(r.deep_view() =~= old_dv.push(curv));
            assert(old_dv.push(curv) =~= old_dv + seq![curv]);
        }
    }
    proof {
        assert(r.deep_view() =~= normalize_spec(text@, dict.fwd()));
    }
    r
}

} // verus!
