//! The fixed, built-in set of common words that are filtered out of the
//! results unless common-word inclusion is switched on.
use vstd::prelude::*;
use crate::chars::str_eq;

verus! {

/// The built-in stop words, as character sequences. Membership is
/// checked against this lowercase list exactly as written.
pub open spec fn stop_words() -> Seq<Seq<char>> {
    seq![
        "the"@,
        "and"@,
        "is"@,
        "in"@,
        "of"@,
        "to"@,
        "a"@,
        "an"@,
        "it"@,
        "for"@,
        "on"@,
        "with"@,
        "as"@,
        "by"@,
        "that"@,
        "we"@,
        "i"@,
    ]
}

/// Whether a word is one of the built-in stop words.
pub open spec fn is_stop_word(w: Seq<char>) -> bool {
    stop_words().contains(w)
}

/// The built-in stop words as string slices, in the order of
/// `stop_words`.
pub fn ignored_words() -> (r: Vec<&'static str>)
    ensures
        r@.map_values(|s: &str| s@) == stop_words(),
{
    let r: Vec<&'static str> = vec![
        "the", "and", "is", "in", "of", "to", "a", "an", "it", "for", "on", "with", "as", "by",
        "that", "we", "i",
    ];
    proof {
        assert(r@.map_values(|s: &str| s@) =~= stop_words());
    }
    r
}

/// Whether the given word is a built-in stop word.
pub fn is_ignored(w: &str) -> (r: bool)
    ensures
        r == is_stop_word(w@),
{
    let list = ignored_words();
    let n = list.len();
    let mut i: usize = 0;
    while i < n
        invariant
            n == list@.len(),
            0 <= i <= n,
            list@.map_values(|s: &str| s@) == stop_words(),
            forall|k: int| 0 <= k < i ==> stop_words()[k] != w@,
        decreases n - i,
    {
        if str_eq(list[i], w) {
            proof {
                assert(stop_words()[i as int] == w@);
            }
            return true;
        }
        proof {
            assert(stop_words()[i as int] == list@.map_values(|s: &str| s@)[i as int]);
        }
        i = i + 1;
    }
    proof {
        assert(!stop_words().contains(w@));
    }
    false
}

} // verus!
