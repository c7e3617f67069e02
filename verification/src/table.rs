//! Building the initial Dictionary from the lines of a table file.
//!
//! Each non-blank line is `word`, one tab, `code`; the first occurrence of a
//! word or of a code wins. A non-blank line without a tab is malformed and
//! aborts the build before any processing begins.

use vstd::prelude::*;
use crate::dict::Dictionary;
use crate::util::lemma_vec_char_deep_view;
use crate::util::subvec;

verus! {

broadcast use lemma_vec_char_deep_view;

/// The position of the first tab in `line` at or after `i`.
pub open spec fn first_tab(line: Seq<char>, i: int) -> Option<int>
    decreases line.len() - i,
{
    if i < 0 || i >= line.len() {
        None
    } else if line[i] == '\t' {
        Some(i)
    } else {
        first_tab(line, i + 1)
    }
}

/// A line split at its first tab into word and code.
pub open spec fn parse_line(line: Seq<char>) -> Option<(Seq<char>, Seq<char>)> {
    match first_tab(line, 0) {
        Some(t) => Some((line.subrange(0, t), line.subrange(t + 1, line.len() as int))),
        None => None,
    }
}

/// One parsed entry folded into the two tables, first write winning in each.
pub open spec fn build_step(
    fwd: Map<Seq<char>, Seq<char>>,
    rev: Map<Seq<char>, Seq<char>>,
    word: Seq<char>,
    code: Seq<char>,
) -> (Map<Seq<char>, Seq<char>>, Map<Seq<char>, Seq<char>>) {
    (
        if fwd.dom().contains(word) {
            fwd
        } else {
            fwd.insert(word, code)
        },
        if rev.dom().contains(code) {
            rev
        } else {
            rev.insert(code, word)
        },
    )
}

/// The tables built from the lines from index `i` on; `Err` carries the
/// index of the first malformed line.
pub open spec fn build_from(
    lines: Seq<Seq<char>>,
    i: int,
    fwd: Map<Seq<char>, Seq<char>>,
    rev: Map<Seq<char>, Seq<char>>,
) -> Result<(Map<Seq<char>, Seq<char>>, Map<Seq<char>, Seq<char>>), int>
    decreases lines.len() - i,
{
    if i < 0 || i >= lines.len() {
        Ok((fwd, rev))
    } else if lines[i].len() == 0 {
        build_from(lines, i + 1, fwd, rev)
    } else {
        match parse_line(lines[i]) {
            None => Err(i),
            Some(p) => {
                let step = build_step(fwd, rev, p.0, p.1);
                build_from(lines, i + 1, step.0, step.1)
            },
        }
    }
}

/// The tables the whole file denotes.
pub open spec fn build_spec(lines: Seq<Seq<char>>) -> Result<
    (Map<Seq<char>, Seq<char>>, Map<Seq<char>, Seq<char>>),
    int,
> {
    build_from(
        lines,
        0,
        Map::<Seq<char>, Seq<char>>::empty(),
        Map::<Seq<char>, Seq<char>>::empty(),
    )
}

/// Finds the first tab of a line.
fn find_tab(line: &Vec<char>) -> (r: Option<usize>)
    ensures
        match r {
            Some(t) => t < line@.len() && first_tab(line@, 0) == Some(t as int),
            None => first_tab(line@, 0) is None,
        },
{
    let mut i: usize = 0;
    while i < line.len()
        invariant
            i <= line@.len(),
            first_tab(line@, 0) == first_tab(line@, i as int),
        decreases line@.len() - i,
    {
        if line[i] == '\t' {
            return Some(i);
        }
        i += 1;
    }
    None
}

/// Builds the initial Dictionary; `Err` carries the index of the first
/// malformed (non-blank, tab-less) line, on which the whole run aborts.
pub fn build_tables(lines: &Vec<Vec<char>>) -> (r: Result<Dictionary, usize>)
    ensures
        match r {
            Ok(d) => d.wf() && build_spec(lines.deep_view()) == Ok::<_, int>((d.fwd(), d.rev())),
            Err(e) => e < lines@.len() && build_spec(lines.deep_view()) == Err::<
                (Map<Seq<char>, Seq<char>>, Map<Seq<char>, Seq<char>>),
                int,
            >(e as int),
        },
{
    let mut d = Dictionary::empty();
    let mut i: usize = 0;
    let ghost lv = lines.deep_view();
    while i < lines.len()
        invariant
            lv == lines.deep_view(),
            d.wf(),
            i <= lv.len(),
            build_from(lv, i as int, d.fwd(), d.rev()) == build_spec(lv),
        decreases lv.len() - i,
    {
        let line = &lines[i];
        proof {
            assert(lv[i as int] == line@);
        }
        if line.len() > 0 {
            match find_tab(line) {
                None => {
                    return Err(i);
                },
                Some(t) => {
                    let word = subvec(line, 0, t);
                    let code = subvec(line, t + 1, line.len());
                    d.insert_forward_first(word, code);
                    let word2 = subvec(line, 0, t);
                    let code2 = subvec(line, t + 1, line.len());
                    d.insert_reverse_first(code2, word2);
                },
            }
        }
        i += 1;
    }
    Ok(d)
}

} // verus!
