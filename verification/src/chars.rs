//! Characters of words, and case folding.
use vstd::prelude::*;

verus! {

/// A character counts as part of a word when it is an ASCII letter,
/// an ASCII digit, or an underscore.
pub open spec fn is_word_char(c: char) -> bool {
    ('a' <= c && c <= 'z') || ('A' <= c && c <= 'Z') || ('0' <= c && c <= '9') || c == '_'
}

/// Executable test for a word character.
pub fn is_word_char_exec(c: char) -> (r: bool)
    ensures
        r == is_word_char(c),
{
    ('a' <= c && c <= 'z') || ('A' <= c && c <= 'Z') || ('0' <= c && c <= '9') || c == '_'
}

/// Lowercase image of one character: ASCII uppercase letters fold to
/// their lowercase counterparts, every other character is unchanged.
pub open spec fn fold_char(c: char) -> char {
    if 'A' <= c && c <= 'Z' {
        (((c as u8) + 32) as char)
    } else {
        c
    }
}

/// Lowercase image of a character sequence, one character at a time.
pub open spec fn fold_seq(s: Seq<char>) -> Seq<char> {
    s.map_values(|c: char| fold_char(c))
}

/// A sequence is lowercase when folding leaves it unchanged.
pub open spec fn is_lowercase(s: Seq<char>) -> bool {
    fold_seq(s) == s
}

/// Folding a character twice is the same as folding it once.
pub proof fn lemma_fold_char_idempotent(c: char)
    ensures
        fold_char(fold_char(c)) == fold_char(c),
{
}

/// Folding a sequence twice is the same as folding it once: folded
/// sequences are lowercase.
pub proof fn lemma_fold_seq_idempotent(s: Seq<char>)
    ensures
        is_lowercase(fold_seq(s)),
{
    assert(fold_seq(fold_seq(s)) =~= fold_seq(s)) by {
        assert forall|i: int| 0 <= i < s.len() implies fold_char(fold_char(s[i])) == fold_char(
            s[i],
        ) by {
            lemma_fold_char_idempotent(s[i]);
        }
    }
}

/// Executable case folding of one character.
pub fn fold_char_exec(c: char) -> (r: char)
    ensures
        r == fold_char(c),
{
    if 'A' <= c && c <= 'Z' {
        ((c as u8) + 32) as char
    } else {
        c
    }
}

/// Relies on String::push: appends the given character at the end of
/// the string, changing nothing else.
#[verifier::external_body]
pub(crate) fn push_char(s: &mut String, c: char)
    ensures
        final(s)@ == old(s)@.push(c),
{
    s.push(c);
}

/// Case folding of a whole string.
pub fn fold_str(s: &str) -> (r: String)
    ensures
        r@ == fold_seq(s@),
{
    let n = s.unicode_len();
    let mut r = String::new();
    let mut i: usize = 0;
    while i < n
        invariant
            n == s@.len(),
            0 <= i <= n,
            r@ == fold_seq(s@.take(i as int)),
        decreases n - i,
    {
        let c = s.get_char(i);
        push_char(&mut r, fold_char_exec(c));
        proof {
            assert(s@.take(i + 1 as int) =~= s@.take(i as int).push(s@[i as int]));
            assert(fold_seq(s@.take(i + 1 as int)) =~= fold_seq(s@.take(i as int)).push(
                fold_char(s@[i as int]),
            ));
        }
        i = i + 1;
    }
    proof {
        assert(s@.take(n as int) =~= s@);
    }
    r
}

/// Character-for-character equality of two string slices.
pub fn str_eq(a: &str, b: &str) -> (r: bool)
    ensures
        r == (a@ == b@),
{
    let na = a.unicode_len();
    let nb = b.unicode_len();
    if na != nb {
        proof {
            assert(a@.len() != b@.len());
        }
        return false;
    }
    let mut i: usize = 0;
    while i < na
        invariant
            na == a@.len(),
            na == b@.len(),
            0 <= i <= na,
            forall|k: int| 0 <= k < i ==> a@[k] == b@[k],
        decreases na - i,
    {
        if a.get_char(i) != b.get_char(i) {
            return false;
        }
        i = i + 1;
    }
    proof {
        assert(a@ =~= b@);
    }
    true
}

} // verus!
