//! Growing a text-entry code table until a greedy decoder reproduces a corpus.
//!
//! Starting from a table that maps single characters to keystroke codes and a
//! corpus of sentences, the engine repeatedly replays each sentence's code
//! sequence through a greedy longest-match decoder, locates the substrings
//! whose absence from the table makes the decode diverge from the true
//! sentence, and promotes them to new entries, until a full pass discovers
//! nothing new.

use vstd::prelude::*;

pub mod charmap;
pub mod dict;
pub mod diverge;
pub mod encode;
pub mod engine;
pub mod normalize;
pub mod seeder;
pub mod segment;
pub mod table;
pub mod util;

verus! {

/// The one-character word formed by `c`, as the forward table keys it.
pub open spec fn singleton(c: char) -> Seq<char> {
    seq![c]
}

pub fn singleton_vec(c: char) -> (r: Vec<char>)
    ensures
        r@ == singleton(c),
{
    let mut v: Vec<char> = Vec::new();
    v.push(c);
    proof {
        assert(v@ =~= seq![c]);
    }
    v
}

} // verus!
