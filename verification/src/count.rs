//! The aggregation step: normalize each token, filter it, and tally
//! the accepted ones in a frequency table.
use vstd::prelude::*;
use crate::chars::{fold_seq, fold_str, is_lowercase, lemma_fold_seq_idempotent};
use crate::stopwords::{is_ignored, is_stop_word};
use crate::table::{bump_map, map_of, sum_counts, FrequencyTable};
use crate::tokens::{tokenize, tokens_of};

verus! {

/// The normalized form of a token: folded to lowercase unless
/// tokenization is case-sensitive.
pub open spec fn norm(t: Seq<char>, case_sensitive: bool) -> Seq<char> {
    if case_sensitive {
        t
    } else {
        fold_seq(t)
    }
}

/// Whether a normalized word is accepted into the table: it must not
/// be longer than `max_len` characters, and unless common words are
/// included it must not be a stop word.
pub open spec fn accepted(w: Seq<char>, include_common: bool, max_len: nat) -> bool {
    w.len() <= max_len && (include_common || !is_stop_word(w))
}

/// The frequency mapping of a token sequence under the given flags:
/// each accepted normalized token raises its word's count by one.
pub open spec fn table_of(
    toks: Seq<Seq<char>>,
    include_common: bool,
    case_sensitive: bool,
    max_len: nat,
) -> Map<Seq<char>, nat>
    decreases toks.len(),
{
    if toks.len() == 0 {
        Map::empty()
    } else {
        let prev = table_of(toks.drop_last(), include_common, case_sensitive, max_len);
        let w = norm(toks.last(), case_sensitive);
        if accepted(w, include_common, max_len) {
            bump_map(prev, w)
        } else {
            prev
        }
    }
}

/// How many of the tokens are accepted under the given flags.
pub open spec fn accepted_count(
    toks: Seq<Seq<char>>,
    include_common: bool,
    case_sensitive: bool,
    max_len: nat,
) -> nat
    decreases toks.len(),
{
    if toks.len() == 0 {
        0
    } else {
        let prev = accepted_count(toks.drop_last(), include_common, case_sensitive, max_len);
        if accepted(norm(toks.last(), case_sensitive), include_common, max_len) {
            prev + 1
        } else {
            prev
        }
    }
}

/// No more tokens are accepted than there are tokens.
pub proof fn lemma_accepted_count_le(
    toks: Seq<Seq<char>>,
    include_common: bool,
    case_sensitive: bool,
    max_len: nat,
)
    ensures
        accepted_count(toks, include_common, case_sensitive, max_len) <= toks.len(),
    decreases toks.len(),
{
    if toks.len() > 0 {
        lemma_accepted_count_le(toks.drop_last(), include_common, case_sensitive, max_len);
    }
}

/// Scan `input`, extract its tokens, normalize and filter them, and
/// tally the accepted ones.
pub fn count_words(
    input: &str,
    include_common_words: bool,
    case_sensitive: bool,
    max_length: u16,
) -> (r: FrequencyTable)
    ensures
        r.wf(),
        map_of(r@) == table_of(
            tokens_of(input@),
            include_common_words,
            case_sensitive,
            max_length as nat,
        ),
        sum_counts(r@) == accepted_count(
            tokens_of(input@),
            include_common_words,
            case_sensitive,
            max_length as nat,
        ),
{
    let toks = tokenize(input);
    let ghost tview = toks@.map_values(|t: String| t@);
    let mut table = FrequencyTable::new();
    let n = toks.len();
    let mut i: usize = 0;
    proof {
        assert(tview.take(0) =~= Seq::<Seq<char>>::empty());
    }
    while i < n
        invariant
            n == toks@.len(),
            0 <= i <= n,
            tview == toks@.map_values(|t: String| t@),
            table.wf(),
            map_of(table@) == table_of(
                tview.take(i as int),
                include_common_words,
                case_sensitive,
                max_length as nat,
            ),
            sum_counts(table@) == accepted_count(
                tview.take(i as int),
                include_common_words,
                case_sensitive,
                max_length as nat,
            ),
        decreases n - i,
    {
        proof {
            assert(tview[i as int] == toks@[i as int]@);
        }
        let word: String = if case_sensitive {
            toks[i].clone()
        } else {
            fold_str(toks[i].as_str())
        };
        proof {
            assert(word@ == norm(tview[i as int], case_sensitive));
        }
        let fits = word.unicode_len() <= max_length as usize;
        let keep = fits && (include_common_words || !is_ignored(word.as_str()));
        proof {
            assert(keep == accepted(word@, include_common_words, max_length as nat));
            assert(tview.take(i + 1 as int).drop_last() =~= tview.take(i as int));
            assert(tview.take(i + 1 as int).last() == tview[i as int]);
            lemma_accepted_count_le(
                tview.take(i as int),
                include_common_words,
                case_sensitive,
                max_length as nat,
            );
        }
        if keep {
            table.bump(word);
        }
        i = i + 1;
    }
    proof {
        assert(tview.take(n as int) =~= tview);
    }
    table
}

/// Every key in the table is at most `max_len` characters long.
pub proof fn lemma_table_keys_bounded(
    toks: Seq<Seq<char>>,
    include_common: bool,
    case_sensitive: bool,
    max_len: nat,
)
    ensures
        forall|k: Seq<char>| #[trigger]
            table_of(toks, include_common, case_sensitive, max_len).contains_key(k) ==> k.len()
                <= max_len,
    decreases toks.len(),
{
    if toks.len() > 0 {
        lemma_table_keys_bounded(toks.drop_last(), include_common, case_sensitive, max_len);
        let prev = table_of(toks.drop_last(), include_common, case_sensitive, max_len);
        let w = norm(toks.last(), case_sensitive);
        assert forall|k: Seq<char>| #[trigger]
            table_of(toks, include_common, case_sensitive, max_len).contains_key(
            k,
        ) implies k.len() <= max_len by {
            if !(accepted(w, include_common, max_len) && k == w) {
                assert(prev.contains_key(k));
            }
        }
    }
}

/// With common-word inclusion disabled, no key of the table is a
/// member of the built-in stop-word set.
pub proof fn lemma_table_no_stop_words(toks: Seq<Seq<char>>, case_sensitive: bool, max_len: nat)
    ensures
        forall|k: Seq<char>| #[trigger]
            table_of(toks, false, case_sensitive, max_len).contains_key(k) ==> !is_stop_word(k),
    decreases toks.len(),
{
    if toks.len() > 0 {
        lemma_table_no_stop_words(toks.drop_last(), case_sensitive, max_len);
        let prev = table_of(toks.drop_last(), false, case_sensitive, max_len);
        let w = norm(toks.last(), case_sensitive);
        assert forall|k: Seq<char>| #[trigger]
            table_of(toks, false, case_sensitive, max_len).contains_key(
            k,
        ) implies !is_stop_word(k) by {
            if !(accepted(w, false, max_len) && k == w) {
                assert(prev.contains_key(k));
            }
        }
    }
}

/// With case-sensitivity off, every key of the table is lowercase.
pub proof fn lemma_table_keys_lowercase(toks: Seq<Seq<char>>, include_common: bool, max_len: nat)
    ensures
        forall|k: Seq<char>| #[trigger]
            table_of(toks, include_common, false, max_len).contains_key(k) ==> is_lowercase(k),
    decreases toks.len(),
{
    if toks.len() > 0 {
        lemma_table_keys_lowercase(toks.drop_last(), include_common, max_len);
        lemma_fold_seq_idempotent(toks.last());
        let prev = table_of(toks.drop_last(), include_common, false, max_len);
        let w = norm(toks.last(), false);
        assert forall|k: Seq<char>| #[trigger]
            table_of(toks, include_common, false, max_len).contains_key(
            k,
        ) implies is_lowercase(k) by {
            if !(accepted(w, include_common, max_len) && k == w) {
                assert(prev.contains_key(k));
            }
        }
    }
}

/// With case-sensitivity on, every key of the table is one of the
/// tokens exactly as it appeared in the text.
pub proof fn lemma_table_keys_verbatim(toks: Seq<Seq<char>>, include_common: bool, max_len: nat)
    ensures
        forall|k: Seq<char>| #[trigger]
            table_of(toks, include_common, true, max_len).contains_key(k) ==> toks.contains(k),
    decreases toks.len(),
{
    if toks.len() > 0 {
        lemma_table_keys_verbatim(toks.drop_last(), include_common, max_len);
        assert forall|k: Seq<char>| #[trigger]
            table_of(toks, include_common, true, max_len).contains_key(k) implies toks.contains(
            k,
        ) by {
            if k == toks.last() {
                assert(toks[toks.len() - 1] == k);
            } else if table_of(toks.drop_last(), include_common, true, max_len).contains_key(k) {
                let j = choose|j: int| 0 <= j < toks.drop_last().len() && toks.drop_last()[j] == k;
                assert(toks[j] == k);
            }
        }
    }
}

/// Aggregation is deterministic: two tables built from the same text
/// under the same flags describe the same mapping.
pub proof fn lemma_count_words_deterministic(
    a: &FrequencyTable,
    b: &FrequencyTable,
    text: Seq<char>,
    include_common: bool,
    case_sensitive: bool,
    max_len: nat,
)
    requires
        map_of(a@) == table_of(tokens_of(text), include_common, case_sensitive, max_len),
        map_of(b@) == table_of(tokens_of(text), include_common, case_sensitive, max_len),
    ensures
        map_of(a@) == map_of(b@),
{
}

} // verus!
