//! Tokenization: a token is a maximal run of word characters; every
//! other character is a delimiter and is discarded.
use vstd::prelude::*;
use crate::chars::{is_word_char, is_word_char_exec};

verus! {

/// Length of the longest prefix of `s` made of word characters.
pub open spec fn run_len(s: Seq<char>) -> int
    decreases s.len(),
{
    if s.len() == 0 || !is_word_char(s[0]) {
        0
    } else {
        1 + run_len(s.drop_first())
    }
}

pub proof fn lemma_run_len_bounds(s: Seq<char>)
    ensures
        0 <= run_len(s) <= s.len(),
    decreases s.len(),
{
    if s.len() > 0 && is_word_char(s[0]) {
        lemma_run_len_bounds(s.drop_first());
    }
}

/// The maximal word-character prefix is exactly characterized: all of
/// its characters are word characters, and it is not followed by one.
pub proof fn lemma_run_len_exact(s: Seq<char>, k: int)
    requires
        0 <= k <= s.len(),
        forall|i: int| 0 <= i < k ==> is_word_char(s[i]),
        k == s.len() || !is_word_char(s[k]),
    ensures
        run_len(s) == k,
    decreases s.len(),
{
    if s.len() == 0 || !is_word_char(s[0]) {
    } else {
        let t = s.drop_first();
        assert(forall|i: int| 0 <= i < k - 1 ==> s[i + 1] == t[i]);
        lemma_run_len_exact(t, k - 1);
    }
}

/// The sequence of tokens of a text, in order of appearance.
pub open spec fn tokens_of(s: Seq<char>) -> Seq<Seq<char>>
    decreases s.len(),
    via tokens_of_decreases
{
    if s.len() == 0 {
        Seq::empty()
    } else if !is_word_char(s[0]) {
        tokens_of(s.drop_first())
    } else {
        let k = run_len(s);
        seq![s.take(k)] + tokens_of(s.skip(k))
    }
}

#[via_fn]
proof fn tokens_of_decreases(s: Seq<char>) {
    if s.len() > 0 && is_word_char(s[0]) {
        lemma_run_len_bounds(s);
        lemma_run_len_bounds(s.drop_first());
    }
}

/// Every token is non-empty and made of word characters only.
pub proof fn lemma_tokens_are_words(s: Seq<char>)
    ensures
        forall|t: Seq<char>| #[trigger]
            tokens_of(s).contains(t) ==> t.len() > 0 && forall|i: int|
                0 <= i < t.len() ==> is_word_char(#[trigger] t[i]),
    decreases s.len(),
{
    if s.len() == 0 {
    } else if !is_word_char(s[0]) {
        lemma_tokens_are_words(s.drop_first());
        assert forall|t: Seq<char>| #[trigger] tokens_of(s).contains(t) implies t.len() > 0
            && forall|i: int| 0 <= i < t.len() ==> is_word_char(#[trigger] t[i]) by {
            assert(tokens_of(s.drop_first()).contains(t));
        }
    } else {
        lemma_run_len_bounds(s);
        lemma_run_len_bounds(s.drop_first());
        let k = run_len(s);
        let head = s.take(k);
        lemma_run_prefix_word_chars(s);
        lemma_tokens_are_words(s.skip(k));
        assert forall|t: Seq<char>| #[trigger] tokens_of(s).contains(t) implies t.len() > 0
            && forall|i: int| 0 <= i < t.len() ==> is_word_char(#[trigger] t[i]) by {
            let j = choose|j: int| 0 <= j < tokens_of(s).len() && tokens_of(s)[j] == t;
            if j == 0 {
                assert(t =~= head);
                assert(forall|i: int| 0 <= i < t.len() ==> #[trigger] t[i] == s[i]);
            } else {
                assert(tokens_of(s.skip(k))[j - 1] == t);
                assert(tokens_of(s.skip(k)).contains(t));
            }
        }
    }
}

/// Characters inside the maximal prefix run are word characters.
pub proof fn lemma_run_prefix_word_chars(s: Seq<char>)
    ensures
        forall|i: int| 0 <= i < run_len(s) ==> is_word_char(#[trigger] s[i]),
    decreases s.len(),
{
    if s.len() > 0 && is_word_char(s[0]) {
        let t = s.drop_first();
        lemma_run_len_bounds(s);
        lemma_run_prefix_word_chars(t);
        assert forall|i: int| 0 <= i < run_len(s) implies is_word_char(#[trigger] s[i]) by {
            if i > 0 {
                assert(s[i] == t[i - 1]);
            }
        }
    }
}

/// Extract the tokens of `input`, left to right.
pub fn tokenize(input: &str) -> (toks: Vec<String>)
    ensures
        toks@.map_values(|t: String| t@) == tokens_of(input@),
{
    let n = input.unicode_len();
    let mut toks: Vec<String> = Vec::new();
    let mut i: usize = 0;
    proof {
        assert(input@.skip(0) =~= input@);
    }
    while i < n
        invariant
            n == input@.len(),
            0 <= i <= n,
            tokens_of(input@) =~= toks@.map_values(|t: String| t@) + tokens_of(
                input@.skip(i as int),
            ),
        decreases n - i,
    {
        let c = input.get_char(i);
        if is_word_char_exec(c) {
            let mut j: usize = i + 1;
            loop
                invariant
                    n == input@.len(),
                    i < j <= n,
                    forall|k: int| i <= k < j ==> is_word_char(#[trigger] input@[k]),
                ensures
                    i < j <= n,
                    forall|k: int| i <= k < j ==> is_word_char(#[trigger] input@[k]),
                    j == n || !is_word_char(input@[j as int]),
                decreases n - j,
            {
                if j == n {
                    break ;
                }
                if !is_word_char_exec(input.get_char(j)) {
                    break ;
                }
                j = j + 1;
            }
            let tok = input.substring_char(i, j).to_owned();
            proof {
                let rest = input@.skip(i as int);
                let k = (j - i) as int;
                assert(forall|p: int| 0 <= p < k ==> rest[p] == input@[p + i]);
                lemma_run_len_exact(rest, k);
                assert(rest.take(k) =~= input@.subrange(i as int, j as int));
                assert(rest.skip(k) =~= input@.skip(j as int));
                let f = |t: String| t@;
                assert(toks@.push(tok).map_values(f) =~= toks@.map_values(f).push(tok@));
                assert(tokens_of(rest) == seq![rest.take(k)] + tokens_of(rest.skip(k)));
                assert(toks@.push(tok).map_values(f) + tokens_of(input@.skip(j as int))
                    =~= toks@.map_values(f) + tokens_of(input@.skip(i as int)));
            }
            toks.push(tok);
            i = j;
        } else {
            proof {
                let rest = input@.skip(i as int);
                assert(rest[0] == input@[i as int]);
                assert(rest.drop_first() =~= input@.skip(i + 1));
            }
            i = i + 1;
        }
    }
    proof {
        assert(input@.skip(n as int) =~= Seq::<char>::empty());
        assert(toks@.map_values(|t: String| t@) + tokens_of(input@.skip(n as int))
            =~= toks@.map_values(|t: String| t@));
    }
    toks
}

} // verus!
