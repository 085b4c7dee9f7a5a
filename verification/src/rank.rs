//! The ranking step: order the table's entries by descending count
//! and keep at most a given number of them.
use vstd::prelude::*;
use crate::table::FrequencyTable;

verus! {

/// Whether some pair in `s` carries the word `k`.
pub open spec fn has_word(s: Seq<(String, usize)>, k: Seq<char>) -> bool {
    exists|i: int| 0 <= i < s.len() && (#[trigger] s[i]).0@ == k
}

/// Whether the pair `e` occurs, word and count alike, at or after
/// position `lo` of `s`.
pub open spec fn entry_in(e: (String, usize), s: Seq<(String, usize)>, lo: int) -> bool {
    exists|j: int| lo <= j < s.len() && e.0@ == (#[trigger] s[j]).0@ && e.1 == s[j].1
}

/// An occurrence at or after `lo` is an occurrence at or after any
/// earlier bound.
proof fn lemma_entry_in_widen(e: (String, usize), s: Seq<(String, usize)>, lo: int, lo2: int)
    requires
        entry_in(e, s, lo),
        lo2 <= lo,
    ensures
        entry_in(e, s, lo2),
{
    let j = choose|j: int| lo <= j < s.len() && e.0@ == (#[trigger] s[j]).0@ && e.1 == s[j].1;
    assert(lo2 <= j < s.len() && e.0@ == s[j].0@ && e.1 == s[j].1);
}

/// What a ranked listing of a table is: as many entries as the table
/// has, but at most `max`; counts non-increasing; words pairwise
/// distinct; every listed pair is a pair of the table; and a table
/// entry left out means the listing is full and the entry's count is
/// no greater than the smallest listed count.
pub open spec fn ranked_output(
    out: Seq<(String, usize)>,
    table: Seq<(Seq<char>, nat)>,
    max: nat,
) -> bool {
    &&& out.len() == if max <= table.len() {
        max as int
    } else {
        table.len() as int
    }
    &&& forall|i: int, j: int| 0 <= i < j < out.len() ==> (#[trigger] out[i]).1 >= (#[trigger] out[j]).1
    &&& forall|i: int, j: int| 0 <= i < j < out.len() ==> (#[trigger] out[i]).0@ != (#[trigger] out[j]).0@
    &&& forall|i: int|
        0 <= i < out.len() ==> table.contains(((#[trigger] out[i]).0@, out[i].1 as nat))
    &&& forall|j: int|
        0 <= j < table.len() && !has_word(out, (#[trigger] table[j]).0) ==> out.len() == max && (
        out.len() == 0 || table[j].1 <= out[out.len() - 1].1 as nat)
}

/// Order the given entries by non-increasing count with an insertion
/// sort, keeping exactly the same (word, count) pairs.
fn sort_desc(entries: Vec<(String, usize)>) -> (sorted: Vec<(String, usize)>)
    requires
        forall|i: int, j: int|
            0 <= i < j < entries@.len() ==> (#[trigger] entries@[i]).0@ != (#[trigger] entries@[j]).0@,
    ensures
        sorted@.len() == entries@.len(),
        forall|i: int, j: int|
            0 <= i < j < sorted@.len() ==> (#[trigger] sorted@[i]).1 >= (#[trigger] sorted@[j]).1,
        forall|i: int, j: int|
            0 <= i < j < sorted@.len() ==> (#[trigger] sorted@[i]).0@ != (#[trigger] sorted@[j]).0@,
        forall|i: int| 0 <= i < sorted@.len() ==> entry_in(#[trigger] sorted@[i], entries@, 0),
        forall|j: int| 0 <= j < entries@.len() ==> entry_in(#[trigger] entries@[j], sorted@, 0),
{
    let ghost all = entries@;
    let ghost n = entries@.len() as int;
    let mut rest = entries;
    let mut sorted: Vec<(String, usize)> = Vec::new();
    while rest.len() > 0
        invariant
            rest@ == all.take(rest@.len() as int),
            sorted@.len() + rest@.len() == n,
            n == all.len(),
            forall|i: int, j: int|
                0 <= i < j < all.len() ==> (#[trigger] all[i]).0@ != (#[trigger] all[j]).0@,
            forall|i: int, j: int|
                0 <= i < j < sorted@.len() ==> (#[trigger] sorted@[i]).1 >= (#[trigger] sorted@[j]).1,
            forall|i: int, j: int|
                0 <= i < j < sorted@.len() ==> (#[trigger] sorted@[i]).0@ != (#[trigger] sorted@[j]).0@,
            forall|i: int|
                0 <= i < sorted@.len() ==> entry_in(
                    #[trigger] sorted@[i],
                    all,
                    rest@.len() as int,
                ),
            forall|j: int|
                rest@.len() <= j < n ==> entry_in(#[trigger] all[j], sorted@, 0),
        decreases rest@.len(),
    {
        let ghost r = rest@.len() as int;
        let e = rest.pop().unwrap();
        proof {
            assert(e == all.take(r)[r - 1]);
            assert(e == all[r - 1]);
            assert(rest@ =~= all.take(r - 1));
        }
        let cnt = e.1;
        let mut p: usize = 0;
        let slen = sorted.len();
        while p < slen && sorted[p].1 >= cnt
            invariant
                slen == sorted@.len(),
                0 <= p <= slen,
                forall|k: int| 0 <= k < p ==> (#[trigger] sorted@[k]).1 >= cnt,
            decreases slen - p,
        {
            p = p + 1;
        }
        let ghost before = sorted@;
        sorted.insert(p, e);
        proof {
            before.insert_ensures(p as int, e);
            assert(sorted@.len() == before.len() + 1);
            assert forall|k: int| 0 <= k < p implies (#[trigger] sorted@[k]) == before[k] by {
                assert(before.insert(p as int, e)[k] == before[k]);
            }
            assert(sorted@[p as int] == e);
            assert forall|k: int| p < k < sorted@.len() implies (#[trigger] sorted@[k]) == before[k
                - 1] by {
                assert(before.insert(p as int, e)[k - 1 + 1] == before[k - 1]);
            }
            lemma_insert_step(before, sorted@, e, p as int, all, r);
        }
    }
    proof {
        assert forall|i: int| 0 <= i < sorted@.len() implies entry_in(
            #[trigger] sorted@[i],
            all,
            0,
        ) by {
            lemma_entry_in_widen(sorted@[i], all, rest@.len() as int, 0);
        }
    }
    sorted
}

/// One step of the insertion sort: inserting the pair drawn from
/// position `r - 1` of the entry list at its place keeps the listing
/// ordered, keeps its words distinct, and extends the exchange with
/// the entry list by one position.
proof fn lemma_insert_step(
    before: Seq<(String, usize)>,
    after: Seq<(String, usize)>,
    e: (String, usize),
    p: int,
    all: Seq<(String, usize)>,
    r: int,
)
    requires
        0 <= p <= before.len(),
        after.len() == before.len() + 1,
        forall|k: int| 0 <= k < p ==> (#[trigger] after[k]) == before[k],
        after[p] == e,
        forall|k: int| p < k < after.len() ==> (#[trigger] after[k]) == before[k - 1],
        forall|k: int| 0 <= k < p ==> (#[trigger] before[k]).1 >= e.1,
        p < before.len() ==> before[p].1 < e.1,
        forall|i: int, j: int|
            0 <= i < j < before.len() ==> (#[trigger] before[i]).1 >= (#[trigger] before[j]).1,
        forall|i: int, j: int|
            0 <= i < j < before.len() ==> (#[trigger] before[i]).0@ != (#[trigger] before[j]).0@,
        1 <= r <= all.len(),
        e == all[r - 1],
        forall|i: int, j: int|
            0 <= i < j < all.len() ==> (#[trigger] all[i]).0@ != (#[trigger] all[j]).0@,
        forall|i: int| 0 <= i < before.len() ==> entry_in(#[trigger] before[i], all, r),
        forall|j: int| r <= j < all.len() ==> entry_in(#[trigger] all[j], before, 0),
    ensures
        forall|i: int, j: int|
            0 <= i < j < after.len() ==> (#[trigger] after[i]).1 >= (#[trigger] after[j]).1,
        forall|i: int, j: int|
            0 <= i < j < after.len() ==> (#[trigger] after[i]).0@ != (#[trigger] after[j]).0@,
        forall|i: int| 0 <= i < after.len() ==> entry_in(#[trigger] after[i], all, r - 1),
        forall|j: int| r - 1 <= j < all.len() ==> entry_in(#[trigger] all[j], after, 0),
{
    assert forall|i: int, j: int| 0 <= i < j < after.len() implies (#[trigger] after[i]).1
        >= (#[trigger] after[j]).1 by {
        if j > p && i < p {
            assert(before[i].1 >= e.1);
            assert(before[p].1 < e.1);
        }
    }
    // The word just inserted is not among the words already listed:
    // those stem from later entry-list positions, whose words all
    // differ from the word at position `r - 1`.
    assert forall|i0: int| 0 <= i0 < before.len() implies (#[trigger] before[i0]).0@ != e.0@ by {
        let j = choose|j: int|
            r <= j < all.len() && before[i0].0@ == (#[trigger] all[j]).0@ && before[i0].1
                == all[j].1;
        assert(all[r - 1].0@ != all[j].0@);
    }
    assert forall|i: int, j: int| 0 <= i < j < after.len() implies (#[trigger] after[i]).0@
        != (#[trigger] after[j]).0@ by {
        let i0: int = if i < p {
            i
        } else {
            i - 1
        };
        let j0: int = if j < p {
            j
        } else {
            j - 1
        };
        if i == p {
            assert(after[j] == before[j0]);
        } else if j == p {
            assert(after[i] == before[i0]);
        } else {
            assert(after[i] == before[i0] && after[j] == before[j0]);
        }
    }
    assert forall|i: int| 0 <= i < after.len() implies entry_in(
        #[trigger] after[i],
        all,
        r - 1,
    ) by {
        if i == p {
            assert(after[i].0@ == all[r - 1].0@ && after[i].1 == all[r - 1].1);
        } else {
            let i0: int = if i < p {
                i
            } else {
                i - 1
            };
            assert(after[i] == before[i0]);
            lemma_entry_in_widen(before[i0], all, r, r - 1);
        }
    }
    assert forall|j: int| r - 1 <= j < all.len() implies entry_in(#[trigger] all[j], after, 0) by {
        if j == r - 1 {
            assert(all[j].0@ == after[p].0@ && all[j].1 == after[p].1);
        } else {
            let i = choose|i: int|
                0 <= i < before.len() && all[j].0@ == (#[trigger] before[i]).0@ && all[j].1
                    == before[i].1;
            let i2: int = if i < p {
                i
            } else {
                i + 1
            };
            assert(after[i2] == before[i]);
            assert(all[j].0@ == after[i2].0@ && all[j].1 == after[i2].1);
        }
    }
}

/// List the table's entries in non-increasing order of count, keeping
/// at most `max_length` of them.
pub fn rank(table: &FrequencyTable, max_length: u16) -> (out: Vec<(String, usize)>)
    requires
        table.wf(),
    ensures
        ranked_output(out@, table@, max_length as nat),
{
    let entries = table.to_entries();
    let ghost all = entries@;
    proof {
        assert(all.map_values(|e: (String, usize)| (e.0@, e.1 as nat)) == table@);
        assert(forall|j: int|
            0 <= j < all.len() ==> table@[j] == ((#[trigger] all[j]).0@, all[j].1 as nat));
        assert forall|i: int, j: int| 0 <= i < j < all.len() implies (#[trigger] all[i]).0@
            != (#[trigger] all[j]).0@ by {
            assert(table@[i].0 != table@[j].0);
        }
    }
    let mut sorted = sort_desc(entries);
    let keep = if (max_length as usize) < sorted.len() {
        max_length as usize
    } else {
        sorted.len()
    };
    let ghost whole = sorted@;
    sorted.truncate(keep);
    proof {
        assert(sorted@ == whole.subrange(0, keep as int));
        lemma_rank_truncated(sorted@, whole, all, table@, max_length as nat, keep as int);
    }
    sorted
}

/// Distinctness of the words in `table` carries over to the sorted
/// listing, and truncation keeps only the largest counts.
proof fn lemma_rank_truncated(
    out: Seq<(String, usize)>,
    whole: Seq<(String, usize)>,
    all: Seq<(String, usize)>,
    table: Seq<(Seq<char>, nat)>,
    max: nat,
    keep: int,
)
    requires
        all.map_values(|e: (String, usize)| (e.0@, e.1 as nat)) == table,
        whole.len() == all.len(),
        keep == if max <= whole.len() {
            max as int
        } else {
            whole.len() as int
        },
        out == whole.subrange(0, keep),
        forall|i: int, j: int|
            0 <= i < j < whole.len() ==> (#[trigger] whole[i]).1 >= (#[trigger] whole[j]).1,
        forall|i: int, j: int|
            0 <= i < j < whole.len() ==> (#[trigger] whole[i]).0@ != (#[trigger] whole[j]).0@,
        forall|i: int| 0 <= i < whole.len() ==> entry_in(#[trigger] whole[i], all, 0),
        forall|j: int| 0 <= j < all.len() ==> entry_in(#[trigger] all[j], whole, 0),
    ensures
        ranked_output(out, table, max),
{
    assert(table.len() == all.len());
    assert(forall|j: int| 0 <= j < all.len() ==> table[j] == ((#[trigger] all[j]).0@, all[j].1
        as nat));
    assert(out.len() == keep);
    assert forall|i: int| 0 <= i < out.len() implies table.contains(
        ((#[trigger] out[i]).0@, out[i].1 as nat),
    ) by {
        assert(out[i] == whole[i]);
        let j = choose|j: int|
            0 <= j < all.len() && whole[i].0@ == (#[trigger] all[j]).0@ && whole[i].1 == all[j].1;
        assert(table[j] == (out[i].0@, out[i].1 as nat));
    }
    assert forall|j: int|
        0 <= j < table.len() && !has_word(out, (#[trigger] table[j]).0) implies out.len() == max
        && (out.len() == 0 || table[j].1 <= out[out.len() - 1].1 as nat) by {
        let i = choose|i: int|
            0 <= i < whole.len() && all[j].0@ == (#[trigger] whole[i]).0@ && all[j].1 == whole[i].1;
        assert(table[j].0 == whole[i].0@);
        if i < keep {
            assert(out[i] == whole[i]);
            assert(0 <= i < out.len() && (#[trigger] out[i]).0@ == table[j].0);
            assert(has_word(out, table[j].0));
        }
        assert(i >= keep);
        assert(keep < whole.len());
        assert(keep == max);
        if keep > 0 {
            assert(whole[i].1 <= whole[keep - 1].1);
            assert(out[out.len() - 1] == whole[keep - 1]);
        }
    }
}

} // verus!
