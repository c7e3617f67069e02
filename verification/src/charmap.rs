//! A map from character strings to character strings, and a set of character
//! strings, both backed by plain vectors so that every operation is verified.

use vstd::prelude::*;
use itertools::Itertools;
use crate::util::clone_chars;
use crate::util::eq_chars;

verus! {

/// Lexicographic order on character strings, by code point, a proper prefix
/// first: the order of std's `Ord` on vectors of characters.
pub open spec fn lex_le(a: Seq<char>, b: Seq<char>) -> bool
    decreases a.len(),
{
    if a.len() == 0 {
        true
    } else if b.len() == 0 {
        false
    } else if a[0] == b[0] {
        lex_le(a.drop_first(), b.drop_first())
    } else {
        (a[0] as u32) < (b[0] as u32)
    }
}

/// The views of a list of (word, code) pairs.
pub open spec fn pairs_view(r: Seq<(Vec<char>, Vec<char>)>) -> Seq<(Seq<char>, Seq<char>)> {
    Seq::new(r.len(), |i: int| (r[i].0@, r[i].1@))
}

/// Each pair's code is at most its successor's.
pub open spec fn sorted_by_code(ps: Seq<(Seq<char>, Seq<char>)>) -> bool {
    forall|i: int| 0 <= i < ps.len() - 1 ==> lex_le(#[trigger] ps[i].1, ps[i + 1].1)
}

/// The map denoted by an association list; a later pair overrides an earlier
/// one with the same key.
pub open spec fn assoc_view(pairs: Seq<(Seq<char>, Seq<char>)>) -> Map<Seq<char>, Seq<char>>
    decreases pairs.len(),
{
    if pairs.len() == 0 {
        Map::empty()
    } else {
        assoc_view(pairs.drop_last()).insert(pairs.last().0, pairs.last().1)
    }
}

/// No key occurs twice in the list.
pub open spec fn unique_keys(pairs: Seq<(Seq<char>, Seq<char>)>) -> bool {
    forall|i: int, j: int| 0 <= i < j < pairs.len() ==> pairs[i].0 != pairs[j].0
}

pub proof fn lemma_assoc_contains(pairs: Seq<(Seq<char>, Seq<char>)>, k: Seq<char>)
    ensures
        assoc_view(pairs).dom().contains(k) <==> (exists|i: int|
            0 <= i < pairs.len() && pairs[i].0 == k),
    decreases pairs.len(),
{
    if pairs.len() == 0 {
    } else {
        lemma_assoc_contains(pairs.drop_last(), k);
        if pairs.last().0 == k {
            assert(pairs[pairs.len() - 1].0 == k);
        } else {
            if assoc_view(pairs).dom().contains(k) {
                let i = choose|i: int|
                    0 <= i < pairs.drop_last().len() && pairs.drop_last()[i].0 == k;
                assert(pairs[i].0 == k);
            }
            if exists|i: int| 0 <= i < pairs.len() && pairs[i].0 == k {
                let i = choose|i: int| 0 <= i < pairs.len() && pairs[i].0 == k;
                assert(i < pairs.len() - 1);
                assert(pairs.drop_last()[i].0 == k);
            }
        }
    }
}

pub proof fn lemma_unique_drop_last(pairs: Seq<(Seq<char>, Seq<char>)>)
    requires
        unique_keys(pairs),
        pairs.len() > 0,
    ensures
        unique_keys(pairs.drop_last()),
{
    assert forall|i: int, j: int|
        0 <= i < j < pairs.drop_last().len() implies pairs.drop_last()[i].0
        != pairs.drop_last()[j].0 by {
        assert(pairs[i].0 != pairs[j].0);
    }
}

pub proof fn lemma_assoc_index(pairs: Seq<(Seq<char>, Seq<char>)>, i: int)
    requires
        unique_keys(pairs),
        0 <= i < pairs.len(),
    ensures
        assoc_view(pairs).dom().contains(pairs[i].0),
        assoc_view(pairs)[pairs[i].0] == pairs[i].1,
    decreases pairs.len(),
{
    if i == pairs.len() - 1 {
    } else {
        lemma_unique_drop_last(pairs);
        lemma_assoc_index(pairs.drop_last(), i);
        assert(pairs.drop_last()[i] == pairs[i]);
        assert(pairs.last().0 != pairs[i].0);
    }
}

pub proof fn lemma_assoc_push(pairs: Seq<(Seq<char>, Seq<char>)>, p: (Seq<char>, Seq<char>))
    ensures
        assoc_view(pairs.push(p)) == assoc_view(pairs).insert(p.0, p.1),
{
    assert(pairs.push(p).drop_last() =~= pairs);
    assert(pairs.push(p).last() == p);
}

pub proof fn lemma_assoc_update(pairs: Seq<(Seq<char>, Seq<char>)>, i: int, v: Seq<char>)
    requires
        unique_keys(pairs),
        0 <= i < pairs.len(),
    ensures
        assoc_view(pairs.update(i, (pairs[i].0, v))) == assoc_view(pairs).insert(pairs[i].0, v),
    decreases pairs.len(),
{
    let updated = pairs.update(i, (pairs[i].0, v));
    if i == pairs.len() - 1 {
        assert(updated.drop_last() =~= pairs.drop_last());
        assert(updated.last() == (pairs[i].0, v));
        assert(assoc_view(pairs.drop_last()).insert(pairs[i].0, v) =~= assoc_view(
            pairs,
        ).insert(pairs[i].0, v));
    } else {
        lemma_unique_drop_last(pairs);
        assert(pairs.drop_last()[i] == pairs[i]);
        lemma_assoc_update(pairs.drop_last(), i, v);
        assert(updated.drop_last() =~= pairs.drop_last().update(i, (pairs[i].0, v)));
        assert(updated.last() == pairs.last());
        assert(pairs.last().0 != pairs[i].0);
        assert(assoc_view(pairs.drop_last()).insert(pairs[i].0, v).insert(
            pairs.last().0,
            pairs.last().1,
        ) =~= assoc_view(pairs).insert(pairs[i].0, v));
    }
}

/// A finite map whose keys and values are character strings.
pub struct CharMap {
    pairs: Vec<(Vec<char>, Vec<char>)>,
}

impl View for CharMap {
    type V = Map<Seq<char>, Seq<char>>;

    closed spec fn view(&self) -> Map<Seq<char>, Seq<char>> {
        assoc_view(self.pairs_seq())
    }
}

impl CharMap {
    /// The key/value pairs, in insertion order.
    pub closed spec fn pairs_seq(&self) -> Seq<(Seq<char>, Seq<char>)> {
        Seq::new(self.pairs@.len() as nat, |i: int| (self.pairs@[i].0@, self.pairs@[i].1@))
    }

    /// Each key occurs once in the backing list.
    pub closed spec fn wf(&self) -> bool {
        unique_keys(self.pairs_seq())
    }

    /// The pairs list carries exactly the map: same keys, same values.
    pub proof fn lemma_pairs_match_view(&self)
        requires
            self.wf(),
        ensures
            forall|i: int|
                0 <= i < self.pairs_seq().len() ==> #[trigger] self@.dom().contains(
                    self.pairs_seq()[i].0,
                ) && self@[self.pairs_seq()[i].0] == self.pairs_seq()[i].1,
            forall|k: Seq<char>|
                self@.dom().contains(k) ==> exists|i: int|
                    0 <= i < self.pairs_seq().len() && #[trigger] self.pairs_seq()[i].0 == k,
            unique_keys(self.pairs_seq()),
    {
        assert forall|i: int| 0 <= i < self.pairs_seq().len() implies #[trigger] self@.dom()
            .contains(self.pairs_seq()[i].0) && self@[self.pairs_seq()[i].0]
            == self.pairs_seq()[i].1 by {
            lemma_assoc_index(self.pairs_seq(), i);
        }
        assert forall|k: Seq<char>| self@.dom().contains(k) implies exists|i: int|
            0 <= i < self.pairs_seq().len() && #[trigger] self.pairs_seq()[i].0 == k by {
            lemma_assoc_contains(self.pairs_seq(), k);
        }
    }

    pub fn new() -> (r: CharMap)
        ensures
            r@ == Map::<Seq<char>, Seq<char>>::empty(),
            r.wf(),
            r.pairs_seq() == Seq::<(Seq<char>, Seq<char>)>::empty(),
    {
        let r = CharMap { pairs: Vec::new() };
        proof {
            assert(r.pairs_seq() =~= Seq::<(Seq<char>, Seq<char>)>::empty());
        }
        r
    }

    fn find_index(&self, key: &Vec<char>) -> (r: Option<usize>)
        ensures
            match r {
                Some(i) => i < self.pairs_seq().len() && self.pairs_seq()[i as int].0 == key@,
                None => forall|j: int|
                    0 <= j < self.pairs_seq().len() ==> self.pairs_seq()[j].0 != key@,
            },
    {
        let mut i: usize = 0;
        while i < self.pairs.len()
            invariant
                i <= self.pairs@.len(),
                forall|j: int| 0 <= j < i ==> self.pairs_seq()[j].0 != key@,
            decreases self.pairs@.len() - i,
        {
            if eq_chars(&self.pairs[i].0, key) {
                return Some(i);
            }
            i += 1;
        }
        None
    }

    pub fn contains_key(&self, key: &Vec<char>) -> (r: bool)
        requires
            self.wf(),
        ensures
            r == self@.dom().contains(key@),
    {
        proof {
            lemma_assoc_contains(self.pairs_seq(), key@);
        }
        match self.find_index(key) {
            Some(_) => true,
            None => false,
        }
    }

    /// Looks a key up, returning a copy of its value.
    pub fn get(&self, key: &Vec<char>) -> (r: Option<Vec<char>>)
        requires
            self.wf(),
        ensures
            match r {
                Some(v) => self@.dom().contains(key@) && v@ == self@[key@],
                None => !self@.dom().contains(key@),
            },
    {
        proof {
            lemma_assoc_contains(self.pairs_seq(), key@);
        }
        match self.find_index(key) {
            Some(i) => {
                proof {
                    lemma_assoc_index(self.pairs_seq(), i as int);
                }
                Some(clone_chars(&self.pairs[i].1))
            },
            None => None,
        }
    }

    /// Inserts, overwriting any existing entry for the key.
    pub fn set(&mut self, key: Vec<char>, value: Vec<char>)
        requires
            old(self).wf(),
        ensures
            final(self).wf(),
            final(self)@ == old(self)@.insert(key@, value@),
    {
        let ghost old_pairs = self.pairs_seq();
        match self.find_index(&key) {
            Some(i) => {
                self.pairs.remove(i);
                self.pairs.insert(i, (key, value));
                proof {
                    assert(self.pairs_seq() =~= old_pairs.update(
                        i as int,
                        (old_pairs[i as int].0, value@),
                    ));
                    lemma_assoc_update(old_pairs, i as int, value@);
                    assert forall|a: int, b: int|
                        0 <= a < b < self.pairs_seq().len() implies self.pairs_seq()[a].0
                        != self.pairs_seq()[b].0 by {
                        assert(old_pairs[a].0 != old_pairs[b].0);
                    }
                }
            },
            None => {
                self.pairs.push((key, value));
                proof {
                    assert(self.pairs_seq() =~= old_pairs.push((key@, value@)));
                    lemma_assoc_push(old_pairs, (key@, value@));
                    assert forall|a: int, b: int|
                        0 <= a < b < self.pairs_seq().len() implies self.pairs_seq()[a].0
                        != self.pairs_seq()[b].0 by {
                        if b < old_pairs.len() {
                            assert(old_pairs[a].0 != old_pairs[b].0);
                        }
                    }
                }
            },
        }
    }

    /// Inserts only when the key is not yet present: the first write wins.
    pub fn set_if_absent(&mut self, key: Vec<char>, value: Vec<char>)
        requires
            old(self).wf(),
        ensures
            final(self).wf(),
            final(self)@ == if old(self)@.dom().contains(key@) {
                old(self)@
            } else {
                old(self)@.insert(key@, value@)
            },
    {
        if !self.contains_key(&key) {
            self.set(key, value);
        }
    }

    /// Whether some key maps to the given value.
    pub fn has_value(&self, value: &Vec<char>) -> (r: bool)
        requires
            self.wf(),
        ensures
            r == exists|k: Seq<char>| #[trigger] self@.dom().contains(k) && self@[k] == value@,
    {
        let mut i: usize = 0;
        while i < self.pairs.len()
            invariant
                self.wf(),
                i <= self.pairs_seq().len(),
                forall|j: int| 0 <= j < i ==> self.pairs_seq()[j].1 != value@,
            decreases self.pairs@.len() - i,
        {
            if eq_chars(&self.pairs[i].1, value) {
                proof {
                    lemma_assoc_index(self.pairs_seq(), i as int);
                    assert(self@.dom().contains(self.pairs_seq()[i as int].0) && self@[
                        self.pairs_seq()[i as int].0
                    ] == value@);
                }
                return true;
            }
            i += 1;
        }
        proof {
            self.lemma_pairs_match_view();
            assert forall|k: Seq<char>| #[trigger] self@.dom().contains(k) implies self@[k]
                != value@ by {
                let j = choose|j: int|
                    0 <= j < self.pairs_seq().len() && #[trigger] self.pairs_seq()[j].0 == k;
                assert(self.pairs_seq()[j].1 != value@);
            }
        }
        false
    }

    /// A copy with the same pairs.
    pub fn duplicate(&self) -> (r: CharMap)
        ensures
            r.pairs_seq() == self.pairs_seq(),
            r@ == self@,
            r.wf() == self.wf(),
    {
        let mut pairs: Vec<(Vec<char>, Vec<char>)> = Vec::new();
        let mut i: usize = 0;
        while i < self.pairs.len()
            invariant
                i <= self.pairs@.len(),
                pairs@.len() == i,
                forall|j: int|
                    0 <= j < i ==> (#[trigger] pairs@[j]).0@ == self.pairs_seq()[j].0 && pairs@[
                        j
                    ].1@ == self.pairs_seq()[j].1,
            decreases self.pairs@.len() - i,
        {
            let k = clone_chars(&self.pairs[i].0);
            let v = clone_chars(&self.pairs[i].1);
            pairs.push((k, v));
            i += 1;
        }
        let r = CharMap { pairs };
        proof {
            assert(r.pairs_seq() =~= self.pairs_seq());
        }
        r
    }

    /// Relies on itertools' `sorted_by_key` and the lexicographic `Ord` of
    /// std vectors and characters: the entries, swapped into (word, code)
    /// pairs and sorted by ascending code; a permutation of the map.
    #[verifier::external_body]
    pub fn sorted_word_code_pairs(&self) -> (r: Vec<(Vec<char>, Vec<char>)>)
        ensures
            pairs_view(r@).to_multiset() == self.pairs_seq().map_values(
                |p: (Seq<char>, Seq<char>)| (p.1, p.0),
            ).to_multiset(),
            sorted_by_code(pairs_view(r@)),
    {
        self.pairs
            .iter()
            .map(|p| (p.1.clone(), p.0.clone()))
            .sorted_by_key(|q: &(Vec<char>, Vec<char>)| q.1.clone())
            .collect()
    }

}

/// A finite set of character strings, backed by a vector without repeats.
pub struct CharSet {
    items: Vec<Vec<char>>,
}

impl View for CharSet {
    type V = Set<Seq<char>>;

    closed spec fn view(&self) -> Set<Seq<char>> {
        Set::new(|k: Seq<char>| exists|i: int| 0 <= i < self.items@.len() && self.items@[i]@ == k)
    }
}

impl CharSet {
    pub fn new() -> (r: CharSet)
        ensures
            r@ == Set::<Seq<char>>::empty(),
    {
        let r = CharSet { items: Vec::new() };
        proof {
            assert(r@ =~= Set::<Seq<char>>::empty());
        }
        r
    }

    pub fn contains(&self, x: &Vec<char>) -> (r: bool)
        ensures
            r == self@.contains(x@),
    {
        let mut i: usize = 0;
        while i < self.items.len()
            invariant
                i <= self.items@.len(),
                forall|j: int| 0 <= j < i ==> self.items@[j]@ != x@,
            decreases self.items@.len() - i,
        {
            if eq_chars(&self.items[i], x) {
                return true;
            }
            i += 1;
        }
        false
    }

    pub fn insert(&mut self, x: Vec<char>)
        ensures
            final(self)@ == old(self)@.insert(x@),
    {
        if !self.contains(&x) {
            let ghost old_items = self.items@;
            self.items.push(x);
            proof {
                assert forall|k: Seq<char>| self@.contains(k) <==> old(self)@.insert(x@).contains(
                    k,
                ) by {
                    if self@.contains(k) {
                        let i = choose|i: int|
                            0 <= i < self.items@.len() && self.items@[i]@ == k;
                        if i < old_items.len() {
                            assert(old_items[i]@ == k);
                        }
                    }
                    if old(self)@.contains(k) {
                        let i = choose|i: int| 0 <= i < old_items.len() && old_items[i]@ == k;
                        assert(self.items@[i]@ == k);
                    }
                    if k == x@ {
                        assert(self.items@[self.items@.len() - 1]@ == k);
                    }
                }
                assert(self@ =~= old(self)@.insert(x@));
            }
        } else {
            proof {
                assert(self@ =~= old(self)@.insert(x@));
            }
        }
    }
}

} // verus!
