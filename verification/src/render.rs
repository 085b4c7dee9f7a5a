//! The presentation step: the header line and one `word: count` line
//! for each ranked entry.
use vstd::prelude::*;
use crate::chars::push_char;

verus! {

/// The digit character for a value below ten.
pub open spec fn digit_char(d: nat) -> char {
    (((48 + d) as u8) as char)
}

/// Decimal representation of a number, most significant digit first.
pub open spec fn dec_rep(n: nat) -> Seq<char>
    decreases n,
{
    if n < 10 {
        seq![digit_char(n)]
    } else {
        dec_rep(n / 10).push(digit_char(n % 10))
    }
}

/// Render a count in decimal.
pub fn format_count(n: usize) -> (r: String)
    ensures
        r@ == dec_rep(n as nat),
{
    let mut digits: Vec<char> = Vec::new();
    let mut m: usize = n;
    loop
        invariant_except_break
            m == 0 ==> digits@.len() == 0 && n == 0,
        invariant
            m > 0 ==> dec_rep(n as nat) == dec_rep(m as nat) + digits@.reverse(),
        ensures
            digits@.reverse() == dec_rep(n as nat),
        decreases m,
    {
        let d: u8 = (m % 10) as u8;
        let c: char = (48 + d) as char;
        let ghost olddigits = digits@;
        digits.push(c);
        proof {
            assert(c == digit_char((m % 10) as nat));
            assert(digits@.reverse() =~= seq![c] + olddigits.reverse());
            if m < 10 {
                assert(dec_rep(m as nat) == seq![c]);
                if m > 0 {
                    assert(dec_rep(n as nat) =~= digits@.reverse());
                } else {
                    assert(n == 0);
                    assert(dec_rep(n as nat) =~= digits@.reverse());
                }
            } else {
                assert(dec_rep(m as nat) == dec_rep((m as nat) / 10).push(digit_char(
                    (m % 10) as nat,
                )));
                assert(dec_rep((m / 10) as nat) == dec_rep((m as nat) / 10));
                assert(dec_rep(m as nat) + olddigits.reverse() =~= dec_rep((m / 10) as nat) + (
                seq![c] + olddigits.reverse()));
                assert(dec_rep(n as nat) =~= dec_rep((m / 10) as nat) + digits@.reverse());
            }
        }
        m = m / 10;
        if m == 0 {
            break ;
        }
    }
    let mut r = String::new();
    let k = digits.len();
    let mut i: usize = 0;
    while i < k
        invariant
            k == digits@.len(),
            0 <= i <= k,
            digits@.reverse() == dec_rep(n as nat),
            r@ == digits@.reverse().take(i as int),
        decreases k - i,
    {
        push_char(&mut r, digits[k - 1 - i]);
        proof {
            assert(digits@.reverse()[i as int] == digits@[k - 1 - i]);
            assert(digits@.reverse().take(i + 1 as int) =~= digits@.reverse().take(i as int).push(
                digits@[k - 1 - i],
            ));
        }
        i = i + 1;
    }
    proof {
        assert(digits@.reverse().take(k as int) =~= digits@.reverse());
    }
    r
}

/// The header line above the listing.
pub open spec fn header_of(max: nat) -> Seq<char> {
    "Limit = "@ + dec_rep(max) + ":"@
}

/// One listing line: the word, a separator, and its count in decimal.
pub open spec fn line_of(w: Seq<char>, c: nat) -> Seq<char> {
    w + ": "@ + dec_rep(c)
}

/// Render the ranked listing as lines of text: first the header, then
/// one line per ranked entry, in order.
pub fn render(ranked: &Vec<(String, usize)>, max_length: u16) -> (lines: Vec<String>)
    ensures
        lines@.len() == 1 + ranked@.len(),
        lines@[0]@ == header_of(max_length as nat),
        forall|i: int|
            0 <= i < ranked@.len() ==> (#[trigger] lines@[i + 1])@ == line_of(
                ranked@[i].0@,
                ranked@[i].1 as nat,
            ),
{
    let mut lines: Vec<String> = Vec::new();
    let mut header = String::new();
    header.append("Limit = ");
    let max_digits = format_count(max_length as usize);
    header.append(max_digits.as_str());
    header.append(":");
    proof {
        assert(header@ == header_of(max_length as nat));
    }
    lines.push(header);
    let n = ranked.len();
    let mut i: usize = 0;
    while i < n
        invariant
            n == ranked@.len(),
            0 <= i <= n,
            lines@.len() == 1 + i,
            lines@[0]@ == header_of(max_length as nat),
            forall|j: int|
                0 <= j < i ==> (#[trigger] lines@[j + 1])@ == line_of(
                    ranked@[j].0@,
                    ranked@[j].1 as nat,
                ),
        decreases n - i,
    {
        let mut line = ranked[i].0.clone();
        line.append(": ");
        let count_digits = format_count(ranked[i].1);
        line.append(count_digits.as_str());
        proof {
            assert(line@ == line_of(ranked@[i as int].0@, ranked@[i as int].1 as nat));
        }
        lines.push(line);
        i = i + 1;
    }
    lines
}

} // verus!
