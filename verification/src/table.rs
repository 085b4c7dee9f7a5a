//! The frequency table: a mapping from words to occurrence counts,
//! held as a list of entries with pairwise-distinct keys.
use vstd::prelude::*;
use crate::chars::str_eq;

verus! {

/// A mapping from words to how often they occurred. Keys are unique
/// and every recorded count is at least one.
pub struct FrequencyTable {
    pub(crate) entries: Vec<(String, usize)>,
}

impl View for FrequencyTable {
    type V = Seq<(Seq<char>, nat)>;

    closed spec fn view(&self) -> Seq<(Seq<char>, nat)> {
        self.entries@.map_values(|e: (String, usize)| (e.0@, e.1 as nat))
    }
}

/// Entry lists with pairwise-distinct keys and positive counts.
pub open spec fn table_wf(s: Seq<(Seq<char>, nat)>) -> bool {
    &&& forall|i: int, j: int| 0 <= i < j < s.len() ==> s[i].0 != s[j].0
    &&& forall|i: int| 0 <= i < s.len() ==> (#[trigger] s[i]).1 >= 1
}

/// The mapping described by an entry list: later entries win, which
/// is immaterial once the keys are distinct.
pub open spec fn map_of(s: Seq<(Seq<char>, nat)>) -> Map<Seq<char>, nat>
    decreases s.len(),
{
    if s.len() == 0 {
        Map::empty()
    } else {
        map_of(s.drop_last()).insert(s.last().0, s.last().1)
    }
}

/// Sum of all counts in an entry list.
pub open spec fn sum_counts(s: Seq<(Seq<char>, nat)>) -> nat
    decreases s.len(),
{
    if s.len() == 0 {
        0
    } else {
        sum_counts(s.drop_last()) + s.last().1
    }
}

/// The mapping after one more occurrence of `w`: its count rises by
/// one, or starts at one if `w` was absent.
pub open spec fn bump_map(m: Map<Seq<char>, nat>, w: Seq<char>) -> Map<Seq<char>, nat> {
    if m.contains_key(w) {
        m.insert(w, (m[w] + 1) as nat)
    } else {
        m.insert(w, 1)
    }
}

/// A key is in the mapping exactly when some entry holds it.
pub proof fn lemma_map_of_domain(s: Seq<(Seq<char>, nat)>, k: Seq<char>)
    ensures
        map_of(s).contains_key(k) <==> exists|i: int| 0 <= i < s.len() && (#[trigger] s[i]).0 == k,
    decreases s.len(),
{
    if s.len() > 0 {
        lemma_map_of_domain(s.drop_last(), k);
        if map_of(s).contains_key(k) {
            if s.last().0 == k {
                assert(s[s.len() - 1].0 == k);
            } else {
                let i = choose|i: int| 0 <= i < s.drop_last().len() && (#[trigger] s.drop_last()[i]).0
                    == k;
                assert(s[i].0 == k);
            }
        }
        if exists|i: int| 0 <= i < s.len() && (#[trigger] s[i]).0 == k {
            let i = choose|i: int| 0 <= i < s.len() && (#[trigger] s[i]).0 == k;
            if i < s.len() - 1 {
                assert(s.drop_last()[i].0 == k);
            }
        }
    }
}

/// Under distinct keys, the mapping sends each entry's key to its count.
pub proof fn lemma_map_of_index(s: Seq<(Seq<char>, nat)>, i: int)
    requires
        forall|p: int, q: int| 0 <= p < q < s.len() ==> s[p].0 != s[q].0,
        0 <= i < s.len(),
    ensures
        map_of(s).contains_key(s[i].0),
        map_of(s)[s[i].0] == s[i].1,
    decreases s.len(),
{
    lemma_map_of_domain(s, s[i].0);
    if i == s.len() - 1 {
    } else {
        assert(s.drop_last()[i] == s[i]);
        lemma_map_of_index(s.drop_last(), i);
        assert(s[i].0 != s.last().0);
    }
}

/// Every single count is bounded by the sum of all counts.
pub proof fn lemma_count_le_sum(s: Seq<(Seq<char>, nat)>, i: int)
    requires
        0 <= i < s.len(),
    ensures
        s[i].1 <= sum_counts(s),
    decreases s.len(),
{
    if i < s.len() - 1 {
        assert(s.drop_last()[i] == s[i]);
        lemma_count_le_sum(s.drop_last(), i);
    }
}

/// Updating one entry to a new count moves the mapping and the sum
/// accordingly.
pub proof fn lemma_map_of_update(s: Seq<(Seq<char>, nat)>, i: int, c: nat)
    requires
        forall|p: int, q: int| 0 <= p < q < s.len() ==> s[p].0 != s[q].0,
        0 <= i < s.len(),
    ensures
        map_of(s.update(i, (s[i].0, c))) == map_of(s).insert(s[i].0, c),
        sum_counts(s.update(i, (s[i].0, c))) == sum_counts(s) - s[i].1 + c,
    decreases s.len(),
{
    let s2 = s.update(i, (s[i].0, c));
    if i == s.len() - 1 {
        assert(s2.drop_last() =~= s.drop_last());
        assert(s2.last() == (s[i].0, c));
    } else {
        assert(s2.drop_last() =~= s.drop_last().update(i, (s[i].0, c)));
        assert(s.drop_last()[i] == s[i]);
        lemma_map_of_update(s.drop_last(), i, c);
        assert(s2.last() == s.last());
        assert(s[i].0 != s.last().0);
        assert(map_of(s.drop_last()).insert(s[i].0, c).insert(s.last().0, s.last().1)
            =~= map_of(s.drop_last()).insert(s.last().0, s.last().1).insert(s[i].0, c));
    }
}

impl FrequencyTable {
    /// Keys pairwise distinct, counts at least one.
    pub open spec fn wf(&self) -> bool {
        table_wf(self@)
    }

    /// An empty table.
    pub fn new() -> (r: FrequencyTable)
        ensures
            r.wf(),
            r@ == Seq::<(Seq<char>, nat)>::empty(),
            map_of(r@) == Map::<Seq<char>, nat>::empty(),
    {
        let r = FrequencyTable { entries: Vec::new() };
        proof {
            assert(r@ =~= Seq::<(Seq<char>, nat)>::empty());
        }
        r
    }

    /// Number of distinct words in the table.
    pub fn len(&self) -> (r: usize)
        ensures
            r == self@.len(),
    {
        self.entries.len()
    }

    /// Record one more occurrence of `w`.
    pub fn bump(&mut self, w: String)
        requires
            old(self).wf(),
            sum_counts(old(self)@) < usize::MAX,
        ensures
            final(self).wf(),
            map_of(final(self)@) == bump_map(map_of(old(self)@), w@),
            sum_counts(final(self)@) == sum_counts(old(self)@) + 1,
    {
        let n = self.entries.len();
        let mut i: usize = 0;
        while i < n
            invariant
                n == self@.len(),
                0 <= i <= n,
                *self == *old(self),
                old(self).wf(),
                sum_counts(old(self)@) < usize::MAX,
                forall|k: int| 0 <= k < i ==> (#[trigger] self@[k]).0 != w@,
            decreases n - i,
        {
            if str_eq(self.entries[i].0.as_str(), w.as_str()) {
                let c = self.entries[i].1;
                proof {
                    assert(self@[i as int] == (self.entries@[i as int].0@, self.entries@[i as int].1
                        as nat));
                    lemma_count_le_sum(self@, i as int);
                }
                self.entries[i].1 = c + 1;
                proof {
                    let s = old(self)@;
                    assert(self.entries@ =~= old(self).entries@.update(
                        i as int,
                        (old(self).entries@[i as int].0, (c + 1) as usize),
                    ));
                    assert(self@ =~= s.update(i as int, (s[i as int].0, (c + 1) as nat)));
                    lemma_map_of_update(s, i as int, (c + 1) as nat);
                    lemma_map_of_index(s, i as int);
                    lemma_map_of_domain(s, w@);
                }
                return ;
            }
            i = i + 1;
        }
        proof {
            lemma_map_of_domain(self@, w@);
        }
        let ghost s = self@;
        self.entries.push((w, 1));
        proof {
            assert(self@ =~= s.push((w@, 1nat)));
            assert(self@.drop_last() =~= s);
        }
    }

    /// The table's entries as a fresh list of (word, count) pairs.
    pub fn to_entries(&self) -> (r: Vec<(String, usize)>)
        ensures
            r@.map_values(|e: (String, usize)| (e.0@, e.1 as nat)) == self@,
    {
        let n = self.entries.len();
        let mut r: Vec<(String, usize)> = Vec::new();
        let mut i: usize = 0;
        while i < n
            invariant
                n == self@.len(),
                0 <= i <= n,
                n == self.entries@.len(),
                r@.len() == i,
                forall|k: int|
                    0 <= k < i ==> (#[trigger] r@[k]).0@ == self@[k].0 && r@[k].1 as nat
                        == self@[k].1,
            decreases n - i,
        {
            proof {
                assert(self@[i as int] == (self.entries@[i as int].0@, self.entries@[i as int].1
                    as nat));
            }
            let word = self.entries[i].0.clone();
            let count = self.entries[i].1;
            r.push((word, count));
            i = i + 1;
        }
        proof {
            assert(r@.map_values(|e: (String, usize)| (e.0@, e.1 as nat)) =~= self@);
        }
        r
    }

    /// Look a word up: its count if present, `None` if absent.
    pub fn get(&self, w: &str) -> (r: Option<usize>)
        requires
            self.wf(),
        ensures
            match r {
                Some(c) => map_of(self@).contains_key(w@) && c as nat == map_of(self@)[w@] && c
                    >= 1,
                None => !map_of(self@).contains_key(w@),
            },
    {
        let n = self.entries.len();
        let mut i: usize = 0;
        while i < n
            invariant
                n == self@.len(),
                0 <= i <= n,
                self.wf(),
                forall|k: int| 0 <= k < i ==> (#[trigger] self@[k]).0 != w@,
            decreases n - i,
        {
            if str_eq(self.entries[i].0.as_str(), w) {
                proof {
                    lemma_map_of_index(self@, i as int);
                }
                return Some(self.entries[i].1);
            }
            i = i + 1;
        }
        proof {
            lemma_map_of_domain(self@, w@);
        }
        None
    }
}

} // verus!
