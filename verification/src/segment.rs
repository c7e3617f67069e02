//! The greedy forward-maximal-matching decoder.
//!
//! Given an encoded sentence and the current reverse table, the decoder keeps
//! a cursor and repeatedly commits the longest reverse key found at the
//! cursor, skipping cut points that would sit directly before a select key;
//! when nothing matches it advances one symbol without emitting a word, so
//! the cursor strictly increases and the decode of any finite input ends.

use vstd::prelude::*;
use crate::dict::Dictionary;
use crate::util::contains_char;
use crate::util::subvec;

verus! {

/// Whether a cut directly before position `end` is forbidden: a boundary
/// other than the final one may not sit immediately before a select key.
pub open spec fn cut_skipped(code: Seq<char>, select: Seq<char>, end: int) -> bool {
    end != code.len() && select.contains(code[end])
}

/// The greedy scan for a match over `(start, end]`: cut positions are tried
/// from `end` downward; a forbidden position is skipped, and the first
/// position whose span is a reverse key wins.
pub open spec fn scan_match(
    code: Seq<char>,
    rev: Map<Seq<char>, Seq<char>>,
    select: Seq<char>,
    start: int,
    end: int,
) -> Option<int>
    decreases end - start,
{
    if end <= start {
        None
    } else if cut_skipped(code, select, end) {
        scan_match(code, rev, select, start, end - 1)
    } else if rev.dom().contains(code.subrange(start, end)) {
        Some(end)
    } else {
        scan_match(code, rev, select, start, end - 1)
    }
}

pub proof fn lemma_scan_match_some(
    code: Seq<char>,
    rev: Map<Seq<char>, Seq<char>>,
    select: Seq<char>,
    start: int,
    end: int,
)
    ensures
        match scan_match(code, rev, select, start, end) {
            Some(e) => start < e <= end && !cut_skipped(code, select, e) && rev.dom().contains(
                code.subrange(start, e),
            ),
            None => true,
        },
    decreases end - start,
{
    if end <= start {
    } else {
        lemma_scan_match_some(code, rev, select, start, end - 1);
    }
}

/// The top of the scan window for a cursor at `start`.
pub open spec fn scan_hi(code_len: int, mcl: nat, start: int) -> int {
    if start + mcl <= code_len {
        start + mcl
    } else {
        code_len
    }
}

/// The committed cuts of the greedy decode from `start`, each paired with the
/// word it emits.
pub open spec fn seg_pairs(
    code: Seq<char>,
    rev: Map<Seq<char>, Seq<char>>,
    select: Seq<char>,
    mcl: nat,
    start: int,
) -> Seq<(int, Seq<char>)>
    decreases code.len() - start,
    via seg_pairs_dec
{
    if start >= code.len() {
        Seq::empty()
    } else {
        match scan_match(code, rev, select, start, scan_hi(code.len() as int, mcl, start)) {
            Some(end) => seq![(end, rev[code.subrange(start, end)])] + seg_pairs(
                code,
                rev,
                select,
                mcl,
                end,
            ),
            None => seg_pairs(code, rev, select, mcl, start + 1),
        }
    }
}

#[via_fn]
proof fn seg_pairs_dec(
    code: Seq<char>,
    rev: Map<Seq<char>, Seq<char>>,
    select: Seq<char>,
    mcl: nat,
    start: int,
) {
    if start < code.len() {
        lemma_scan_match_some(
            code,
            rev,
            select,
            start,
            scan_hi(code.len() as int, mcl, start),
        );
    }
}

/// The words of the greedy decode from `start`, in order.
pub open spec fn seg_words(
    code: Seq<char>,
    rev: Map<Seq<char>, Seq<char>>,
    select: Seq<char>,
    mcl: nat,
    start: int,
) -> Seq<Seq<char>> {
    seg_pairs(code, rev, select, mcl, start).map_values(|p: (int, Seq<char>)| p.1)
}

/// One step of the decode, at the level of the word sequence.
pub proof fn lemma_seg_words_unfold(
    code: Seq<char>,
    rev: Map<Seq<char>, Seq<char>>,
    select: Seq<char>,
    mcl: nat,
    start: int,
)
    requires
        start < code.len(),
    ensures
        match scan_match(code, rev, select, start, scan_hi(code.len() as int, mcl, start)) {
            Some(end) => seg_words(code, rev, select, mcl, start) == seq![
                rev[code.subrange(start, end)],
            ] + seg_words(code, rev, select, mcl, end),
            None => seg_words(code, rev, select, mcl, start) == seg_words(
                code,
                rev,
                select,
                mcl,
                start + 1,
            ),
        },
{
    let sm = scan_match(code, rev, select, start, scan_hi(code.len() as int, mcl, start));
    match sm {
        Some(end) => {
            let head = seq![(end, rev[code.subrange(start, end)])];
            let f = |p: (int, Seq<char>)| p.1;
            assert(seg_pairs(code, rev, select, mcl, start) == head + seg_pairs(
                code,
                rev,
                select,
                mcl,
                end,
            ));
            assert((head + seg_pairs(code, rev, select, mcl, end)).map_values(f) =~= seq![
                rev[code.subrange(start, end)],
            ] + seg_pairs(code, rev, select, mcl, end).map_values(f));
        },
        None => {
            assert(seg_pairs(code, rev, select, mcl, start) == seg_pairs(
                code,
                rev,
                select,
                mcl,
                start + 1,
            ));
        },
    }
}

/// The decoder's cursor never moves backward: the committed cuts are
/// strictly increasing past `start` and bounded by the text length, so the
/// decode of any finite input ends.
pub proof fn lemma_cuts_increasing(
    code: Seq<char>,
    rev: Map<Seq<char>, Seq<char>>,
    select: Seq<char>,
    mcl: nat,
    start: int,
)
    ensures
        forall|i: int|
            0 <= i < seg_pairs(code, rev, select, mcl, start).len() ==> start < (
            #[trigger] seg_pairs(code, rev, select, mcl, start)[i]).0 <= code.len(),
        forall|i: int|
            0 <= i < seg_pairs(code, rev, select, mcl, start).len() - 1 ==> (#[trigger] seg_pairs(
                code,
                rev,
                select,
                mcl,
                start,
            )[i]).0 < seg_pairs(code, rev, select, mcl, start)[i + 1].0,
    decreases code.len() - start,
{
    if start >= code.len() {
    } else {
        let hi = scan_hi(code.len() as int, mcl, start);
        lemma_scan_match_some(code, rev, select, start, hi);
        let sp = seg_pairs(code, rev, select, mcl, start);
        match scan_match(code, rev, select, start, hi) {
            Some(end) => {
                lemma_cuts_increasing(code, rev, select, mcl, end);
                let head = seq![(end, rev[code.subrange(start, end)])];
                let rest = seg_pairs(code, rev, select, mcl, end);
                assert(sp == head + rest);
                assert forall|i: int| 0 <= i < sp.len() implies start < (#[trigger] sp[i]).0
                    <= code.len() by {
                    if i > 0 {
                        assert(sp[i] == rest[i - 1]);
                    }
                }
                assert forall|i: int| 0 <= i < sp.len() - 1 implies (#[trigger] sp[i]).0 < sp[i
                    + 1].0 by {
                    if i == 0 {
                        assert(sp[1] == rest[0]);
                    } else {
                        assert(sp[i] == rest[i - 1]);
                        assert(sp[i + 1] == rest[i]);
                    }
                }
            },
            None => {
                lemma_cuts_increasing(code, rev, select, mcl, start + 1);
                let rest = seg_pairs(code, rev, select, mcl, start + 1);
                assert(sp == rest);
                assert forall|i: int| 0 <= i < sp.len() implies start < (#[trigger] sp[i]).0
                    <= code.len() by {
                    assert(sp[i] == rest[i]);
                }
                assert forall|i: int| 0 <= i < sp.len() - 1 implies (#[trigger] sp[i]).0 < sp[i
                    + 1].0 by {
                    assert(sp[i] == rest[i]);
                    assert(sp[i + 1] == rest[i + 1]);
                }
            },
        }
    }
}

/// No committed segmentation boundary falls immediately before a configured
/// select-key symbol, except when it is the final boundary of the text: every
/// committed cut `c` has `c == code.len()` or `!select.contains(code[c])`.
pub proof fn lemma_no_cut_before_select_key(
    code: Seq<char>,
    rev: Map<Seq<char>, Seq<char>>,
    select: Seq<char>,
    mcl: nat,
    start: int,
)
    ensures
        forall|i: int|
            0 <= i < seg_pairs(code, rev, select, mcl, start).len() ==> !cut_skipped(
                code,
                select,
                (#[trigger] seg_pairs(code, rev, select, mcl, start)[i]).0,
            ),
    decreases code.len() - start,
{
    if start >= code.len() {
    } else {
        let hi = scan_hi(code.len() as int, mcl, start);
        lemma_scan_match_some(code, rev, select, start, hi);
        let sp = seg_pairs(code, rev, select, mcl, start);
        match scan_match(code, rev, select, start, hi) {
            Some(end) => {
                lemma_no_cut_before_select_key(code, rev, select, mcl, end);
                let head = seq![(end, rev[code.subrange(start, end)])];
                let rest = seg_pairs(code, rev, select, mcl, end);
                assert(sp == head + rest);
                assert forall|i: int| 0 <= i < sp.len() implies !cut_skipped(
                    code,
                    select,
                    (#[trigger] sp[i]).0,
                ) by {
                    if i == 0 {
                        assert(sp[0].0 == end);
                    } else {
                        assert(sp[i] == rest[i - 1]);
                        assert(!cut_skipped(code, select, rest[i - 1].0));
                    }
                }
            },
            None => {
                lemma_no_cut_before_select_key(code, rev, select, mcl, start + 1);
                let rest = seg_pairs(code, rev, select, mcl, start + 1);
                assert(sp == rest);
                assert forall|i: int| 0 <= i < sp.len() implies !cut_skipped(
                    code,
                    select,
                    (#[trigger] sp[i]).0,
                ) by {
                    assert(!cut_skipped(code, select, rest[i].0));
                }
            },
        }
    }
}

/// Replays an encoded sentence through the current reverse table.
///
/// The result is exactly the greedy decode `seg_words`; the loop measures
/// prove that the cursor reaches the end of any finite input.
pub fn segment(code: &Vec<char>, dict: &Dictionary, select: &Vec<char>) -> (r: Vec<Vec<char>>)
    requires
        dict.wf(),
    ensures
        r.deep_view() == seg_words(code@, dict.rev(), select@, dict.mcl(), 0),
{
    let ghost revm = dict.rev();
    let ghost sel = select@;
    let ghost m = dict.mcl();
    let mut r: Vec<Vec<char>> = Vec::new();
    let mut start: usize = 0;
    let mcl = dict.max_code_length();
    while start < code.len()
        invariant
            dict.wf(),
            revm == dict.rev(),
            sel == select@,
            m == dict.mcl(),
            mcl == dict.mcl(),
            start <= code@.len(),
            r.deep_view() + seg_words(code@, revm, sel, m, start as int) =~= seg_words(
                code@,
                revm,
                sel,
                m,
                0,
            ),
        decreases code@.len() - start,
    {
        let hi = if mcl > code.len() - start {
            code.len()
        } else {
            start + mcl
        };
        proof {
            assert(hi as int == scan_hi(code@.len() as int, m, start as int));
        }
        let ghost smr = scan_match(code@, revm, sel, start as int, hi as int);
        let mut end = hi;
        let mut found: Option<(usize, Vec<char>)> = None;
        while end > start
            invariant_except_break
                dict.wf(),
                revm == dict.rev(),
                sel == select@,
                start <= end <= hi <= code@.len(),
                found is None,
                smr == scan_match(code@, revm, sel, start as int, end as int),
            ensures
                match found {
                    Some(p) => smr == Some(p.0 as int) && start < p.0 <= hi && p.1@ == revm[
                        code@.subrange(start as int, p.0 as int)
                    ],
                    None => smr is None,
                },
            decreases end - start,
        {
            let skip = end < code.len() && contains_char(select, code[end]);
            if skip {
                proof {
                    assert(cut_skipped(code@, sel, end as int));
                }
                end -= 1;
            } else {
                proof {
                    assert(!cut_skipped(code@, sel, end as int));
                }
                let piece = subvec(code, start, end);
                match dict.reverse_get(&piece) {
                    Some(w) => {
                        found = Some((end, w));
                        break;
                    },
                    None => {
                        end -= 1;
                    },
                }
            }
        }
        proof {
            lemma_seg_words_unfold(code@, revm, sel, m, start as int);
        }
        match found {
            Some(p) => {
                let ghost old_dv = r.deep_view();
                let (e, w) = p;
                let ghost wv = w@;
                proof {
                    assert(w.deep_view() =~= wv);
                }
                r.push(w);
                start = e;
                proof {
                    assert(r.deep_view() =~= old_dv.push(wv));
                    assert(old_dv.push(wv) + seg_words(code@, revm, sel, m, start as int) =~= old_dv
                        + (seq![wv] + seg_words(code@, revm, sel, m, start as int)));
                }
            },
            None => {
                start += 1;
            },
        }
    }
    proof {
        assert(seg_words(code@, revm, sel, m, start as int) =~= Seq::<Seq<char>>::empty());
        assert(r.deep_view() =~= r.deep_view() + seg_words(code@, revm, sel, m, start as int));
    }
    r
}

} // verus!
