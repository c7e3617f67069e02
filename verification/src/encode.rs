//! Encoding a sentence as the concatenation of its characters' base codes.

use vstd::prelude::*;
use crate::dict::Dictionary;
use crate::singleton;
use crate::util::push_all;

verus! {

/// Every character of `s` has a base code in `fwd`.
pub open spec fn covered(s: Seq<char>, fwd: Map<Seq<char>, Seq<char>>) -> bool {
    forall|i: int| 0 <= i < s.len() ==> #[trigger] fwd.dom().contains(singleton(s[i]))
}

/// The encoded sentence: the per-character base codes, concatenated. A
/// word's code, when freshly derived, is always this concatenation, never a
/// composition of existing multi-character codes.
pub open spec fn encode_spec(s: Seq<char>, fwd: Map<Seq<char>, Seq<char>>) -> Seq<char>
    decreases s.len(),
{
    if s.len() == 0 {
        Seq::empty()
    } else {
        fwd[singleton(s[0])] + encode_spec(s.drop_first(), fwd)
    }
}

/// A sentence that is covered stays covered when the forward table grows.
pub proof fn lemma_covered_monotone(
    s: Seq<char>,
    fwd1: Map<Seq<char>, Seq<char>>,
    fwd2: Map<Seq<char>, Seq<char>>,
)
    requires
        covered(s, fwd1),
        fwd1.dom().subset_of(fwd2.dom()),
    ensures
        covered(s, fwd2),
{
    assert forall|i: int| 0 <= i < s.len() implies #[trigger] fwd2.dom().contains(
        singleton(s[i]),
    ) by {
        assert(fwd1.dom().contains(singleton(s[i])));
    }
}

/// Encoding depends only on the base codes of the characters that occur.
pub proof fn lemma_encode_same(
    s: Seq<char>,
    fwd1: Map<Seq<char>, Seq<char>>,
    fwd2: Map<Seq<char>, Seq<char>>,
)
    requires
        forall|i: int| 0 <= i < s.len() ==> fwd1[#[trigger] singleton(s[i])] == fwd2[singleton(
            s[i],
        )],
    ensures
        encode_spec(s, fwd1) == encode_spec(s, fwd2),
    decreases s.len(),
{
    if s.len() == 0 {
    } else {
        assert(fwd1[singleton(s[0])] == fwd2[singleton(s[0])]);
        assert forall|i: int| 0 <= i < s.drop_first().len() implies fwd1[#[trigger] singleton(
            s.drop_first()[i],
        )] == fwd2[singleton(s.drop_first()[i])] by {
            assert(s.drop_first()[i] == s[i + 1]);
        }
        lemma_encode_same(s.drop_first(), fwd1, fwd2);
    }
}

/// Replays a sentence into its code string; `None` exactly when some
/// character lacks a base code, which the normalizer's output never does.
pub fn encode(sentence: &Vec<char>, dict: &Dictionary) -> (r: Option<Vec<char>>)
    requires
        dict.wf(),
    ensures
        match r {
            Some(code) => covered(sentence@, dict.fwd()) && code@ == encode_spec(
                sentence@,
                dict.fwd(),
            ),
            None => !covered(sentence@, dict.fwd()),
        },
{
    let mut acc: Vec<char> = Vec::new();
    let mut i: usize = 0;
    proof {
        assert(sentence@.skip(0) =~= sentence@);
        assert(acc@ + encode_spec(sentence@, dict.fwd()) =~= encode_spec(sentence@, dict.fwd()));
    }
    while i < sentence.len()
        invariant
            dict.wf(),
            i <= sentence@.len(),
            forall|k: int|
                0 <= k < i ==> #[trigger] dict.fwd().dom().contains(singleton(sentence@[k])),
            acc@ + encode_spec(sentence@.skip(i as int), dict.fwd()) == encode_spec(
                sentence@,
                dict.fwd(),
            ),
        decreases sentence@.len() - i,
    {
        match dict.lookup_code(sentence[i]) {
            Some(code) => {
                proof {
                    let rest = sentence@.skip(i as int);
                    assert(rest[0] == sentence@[i as int]);
                    assert(rest.drop_first() =~= sentence@.skip(i as int + 1));
                    assert(encode_spec(rest, dict.fwd()) == dict.fwd()[singleton(sentence@[i as int])]
                        + encode_spec(sentence@.skip(i as int + 1), dict.fwd()));
                    assert((acc@ + code@) + encode_spec(sentence@.skip(i as int + 1), dict.fwd())
                        =~= acc@ + (code@ + encode_spec(sentence@.skip(i as int + 1), dict.fwd())));
                }
                push_all(&mut acc, &code);
                i += 1;
            },
            None => {
                return None;
            },
        }
    }
    proof {
        assert(sentence@.skip(i as int) =~= Seq::<char>::empty());
        assert(acc@ =~= acc@ + encode_spec(sentence@.skip(i as int), dict.fwd()));
    }
    Some(acc)
}

} // verus!
