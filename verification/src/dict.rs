//! The two mapping tables of the input method.

use vstd::prelude::*;
use crate::charmap::CharMap;
use crate::singleton;
use crate::singleton_vec;

verus! {

/// The search window of the decoder: every reverse key fits in `m`, and `m`
/// is witnessed by some key whenever it is positive.
pub open spec fn max_len_ok(rev: Map<Seq<char>, Seq<char>>, m: nat) -> bool {
    &&& forall|k: Seq<char>| #[trigger] rev.dom().contains(k) ==> k.len() <= m
    &&& (m > 0 ==> exists|k: Seq<char>| #[trigger] rev.dom().contains(k) && k.len() == m)
}

/// `forward` sends a word to its code; `reverse` sends a code back to one
/// word; `max_code_len` caches the length of the longest reverse key, which
/// bounds the decoder's search window.
pub struct Dictionary {
    forward: CharMap,
    reverse: CharMap,
    max_code_len: usize,
}

impl Dictionary {
    pub closed spec fn fwd(&self) -> Map<Seq<char>, Seq<char>> {
        self.forward@
    }

    pub closed spec fn rev(&self) -> Map<Seq<char>, Seq<char>> {
        self.reverse@
    }

    pub closed spec fn mcl(&self) -> nat {
        self.max_code_len as nat
    }

    pub closed spec fn wf(&self) -> bool {
        &&& self.forward.wf()
        &&& self.reverse.wf()
        &&& max_len_ok(self.reverse@, self.max_code_len as nat)
    }

    pub fn empty() -> (r: Dictionary)
        ensures
            r.wf(),
            r.fwd() == Map::<Seq<char>, Seq<char>>::empty(),
            r.rev() == Map::<Seq<char>, Seq<char>>::empty(),
            r.mcl() == 0,
    {
        Dictionary { forward: CharMap::new(), reverse: CharMap::new(), max_code_len: 0 }
    }

    /// First write wins: used when loading the initial table.
    pub fn insert_forward_first(&mut self, word: Vec<char>, code: Vec<char>)
        requires
            old(self).wf(),
        ensures
            final(self).wf(),
            final(self).fwd() == if old(self).fwd().dom().contains(word@) {
                old(self).fwd()
            } else {
                old(self).fwd().insert(word@, code@)
            },
            final(self).rev() == old(self).rev(),
            final(self).mcl() == old(self).mcl(),
    {
        self.forward.set_if_absent(word, code);
    }

    /// First write wins: used when loading the initial table.
    pub fn insert_reverse_first(&mut self, code: Vec<char>, word: Vec<char>)
        requires
            old(self).wf(),
        ensures
            final(self).wf(),
            final(self).fwd() == old(self).fwd(),
            final(self).rev() == if old(self).rev().dom().contains(code@) {
                old(self).rev()
            } else {
                old(self).rev().insert(code@, word@)
            },
            final(self).mcl() == if old(self).rev().dom().contains(code@) {
                old(self).mcl()
            } else if code@.len() > old(self).mcl() {
                code@.len()
            } else {
                old(self).mcl()
            },
    {
        if !self.reverse.contains_key(&code) {
            self.insert_reverse(code, word);
        }
    }

    /// Overwriting insert into `forward`: used when the engine promotes a word.
    pub fn insert_forward(&mut self, word: Vec<char>, code: Vec<char>)
        requires
            old(self).wf(),
        ensures
            final(self).wf(),
            final(self).fwd() == old(self).fwd().insert(word@, code@),
            final(self).rev() == old(self).rev(),
            final(self).mcl() == old(self).mcl(),
    {
        self.forward.set(word, code);
    }

    /// Overwriting insert into `reverse`, widening the search window if the
    /// new code is the longest key so far.
    pub fn insert_reverse(&mut self, code: Vec<char>, word: Vec<char>)
        requires
            old(self).wf(),
        ensures
            final(self).wf(),
            final(self).fwd() == old(self).fwd(),
            final(self).rev() == old(self).rev().insert(code@, word@),
            final(self).mcl() == if code@.len() > old(self).mcl() {
                code@.len()
            } else {
                old(self).mcl()
            },
    {
        let ghost old_rev = self.reverse@;
        let ghost old_m = self.max_code_len as nat;
        let n = code.len();
        self.reverse.set(code, word);
        if n > self.max_code_len {
            self.max_code_len = n;
        }
        proof {
            let m = self.max_code_len as nat;
            assert forall|k: Seq<char>| #[trigger] self.reverse@.dom().contains(k) implies k.len()
                <= m by {
                if old_rev.dom().contains(k) {
                    assert(k.len() <= old_m);
                }
            }
            if m > 0 {
                if n as nat == m {
                    assert(exists|k: Seq<char>| #[trigger] self.reverse@.dom().contains(k)
                        && k.len() == m) by {
                        assert(self.reverse@.dom().contains(code@) && code@.len() == m);
                    }
                } else {
                    let w = choose|k: Seq<char>| #[trigger] old_rev.dom().contains(k) && k.len()
                        == old_m;
                    assert(self.reverse@.dom().contains(w) && w.len() == m);
                }
            }
        }
    }

    /// The base code of a single character, when it has one.
    pub fn lookup_code(&self, c: char) -> (r: Option<Vec<char>>)
        requires
            self.wf(),
        ensures
            match r {
                Some(v) => self.fwd().dom().contains(singleton(c)) && v@ == self.fwd()[singleton(
                    c,
                )],
                None => !self.fwd().dom().contains(singleton(c)),
            },
    {
        let key = singleton_vec(c);
        self.forward.get(&key)
    }

    pub fn contains_word(&self, word: &Vec<char>) -> (r: bool)
        requires
            self.wf(),
        ensures
            r == self.fwd().dom().contains(word@),
    {
        self.forward.contains_key(word)
    }

    /// The word a code decodes to, when the code is a reverse key.
    pub fn reverse_get(&self, code: &Vec<char>) -> (r: Option<Vec<char>>)
        requires
            self.wf(),
        ensures
            match r {
                Some(v) => self.rev().dom().contains(code@) && v@ == self.rev()[code@],
                None => !self.rev().dom().contains(code@),
            },
    {
        self.reverse.get(code)
    }

    /// A snapshot of the reverse table, for reference sets taken at load
    /// time.
    pub fn clone_reverse(&self) -> (r: CharMap)
        requires
            self.wf(),
        ensures
            r@ == self.rev(),
            r.wf(),
    {
        self.reverse.duplicate()
    }

    pub fn max_code_length(&self) -> (r: usize)
        ensures
            r == self.mcl(),
    {
        self.max_code_len
    }
}

} // verus!
