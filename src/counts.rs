//! A table of occurrence counts keyed by case-insensitive term.
use vstd::prelude::*;

use crate::case_insensitive_string::{folded, CaseInsensitiveString};

verus! {

/// Sum of the counts of the entries whose key equals `k` up to ASCII case.
pub open spec fn tally(s: Seq<(Seq<char>, nat)>, k: Seq<char>) -> nat
    decreases s.len(),
{
    if s.len() == 0 {
        0
    } else {
        tally(s.drop_last(), k) + if folded(s.last().0) == folded(k) {
            s.last().1
        } else {
            0
        }
    }
}

/// Sum of all counts.
pub open spec fn total(s: Seq<(Seq<char>, nat)>) -> nat
    decreases s.len(),
{
    if s.len() == 0 {
        0
    } else {
        total(s.drop_last()) + s.last().1
    }
}

/// No two entries share a key, up to ASCII case.
pub open spec fn unique_keys(s: Seq<(Seq<char>, nat)>) -> bool {
    forall|i: int, j: int|
        0 <= i < s.len() && 0 <= j < s.len() && i != j ==> folded(#[trigger] s[i].0) != folded(
            #[trigger] s[j].0,
        )
}

/// Every count is at least one.
pub open spec fn positive(s: Seq<(Seq<char>, nat)>) -> bool {
    forall|i: int| 0 <= i < s.len() ==> #[trigger] s[i].1 >= 1
}

pub open spec fn has_key(s: Seq<(Seq<char>, nat)>, k: Seq<char>) -> bool {
    exists|i: int| 0 <= i < s.len() && folded(#[trigger] s[i].0) == folded(k)
}

pub proof fn lemma_tally_absent(s: Seq<(Seq<char>, nat)>, k: Seq<char>)
    requires
        !has_key(s, k),
    ensures
        tally(s, k) == 0,
    decreases s.len(),
{
    if s.len() > 0 {
        assert(!has_key(s.drop_last(), k)) by {
            if has_key(s.drop_last(), k) {
                let i = choose|i: int|
                    0 <= i < s.drop_last().len() && folded(#[trigger] s.drop_last()[i].0)
                        == folded(k);
                assert(s[i] == s.drop_last()[i]);
            }
        }
        lemma_tally_absent(s.drop_last(), k);
        assert(s.last() == s[s.len() - 1]);
    }
}

pub proof fn lemma_tally_unique(s: Seq<(Seq<char>, nat)>, k: Seq<char>, i: int)
    requires
        unique_keys(s),
        0 <= i < s.len(),
        folded(s[i].0) == folded(k),
    ensures
        tally(s, k) == s[i].1,
    decreases s.len(),
{
    let d = s.drop_last();
    if i == s.len() - 1 {
        assert(!has_key(d, k)) by {
            if has_key(d, k) {
                let j = choose|j: int| 0 <= j < d.len() && folded(#[trigger] d[j].0) == folded(k);
                assert(s[j] == d[j]);
            }
        }
        lemma_tally_absent(d, k);
    } else {
        assert(s[i] == d[i]);
        assert(unique_keys(d)) by {
            assert forall|a: int, b: int|
                0 <= a < d.len() && 0 <= b < d.len() && a != b implies folded(
                #[trigger] d[a].0,
            ) != folded(#[trigger] d[b].0) by {
                assert(s[a] == d[a] && s[b] == d[b]);
            }
        }
        lemma_tally_unique(d, k, i);
        assert(s.last() == s[s.len() - 1]);
    }
}

pub proof fn lemma_entry_le_total(s: Seq<(Seq<char>, nat)>, i: int)
    requires
        0 <= i < s.len(),
    ensures
        s[i].1 <= total(s),
    decreases s.len(),
{
    if i < s.len() - 1 {
        assert(s[i] == s.drop_last()[i]);
        lemma_entry_le_total(s.drop_last(), i);
    }
}

pub proof fn lemma_bump(s: Seq<(Seq<char>, nat)>, i: int, k: Seq<char>)
    requires
        0 <= i < s.len(),
    ensures
        tally(s.update(i, (s[i].0, s[i].1 + 1)), k) == tally(s, k) + if folded(s[i].0) == folded(
            k,
        ) {
            1nat
        } else {
            0nat
        },
        total(s.update(i, (s[i].0, s[i].1 + 1))) == total(s) + 1,
    decreases s.len(),
{
    let u = s.update(i, (s[i].0, s[i].1 + 1));
    if i == s.len() - 1 {
        assert(u.drop_last() =~= s.drop_last());
    } else {
        assert(u.drop_last() =~= s.drop_last().update(i, (s[i].0, s[i].1 + 1)));
        assert(s[i] == s.drop_last()[i]);
        lemma_bump(s.drop_last(), i, k);
    }
}

pub proof fn lemma_push(s: Seq<(Seq<char>, nat)>, e: (Seq<char>, nat), k: Seq<char>)
    ensures
        tally(s.push(e), k) == tally(s, k) + if folded(e.0) == folded(k) {
            e.1
        } else {
            0
        },
        total(s.push(e)) == total(s) + e.1,
{
    assert(s.push(e).drop_last() =~= s);
}

pub proof fn lemma_has_key_tally(s: Seq<(Seq<char>, nat)>, k: Seq<char>)
    requires
        unique_keys(s),
        positive(s),
    ensures
        has_key(s, k) <==> tally(s, k) > 0,
{
    if has_key(s, k) {
        let i = choose|i: int| 0 <= i < s.len() && folded(#[trigger] s[i].0) == folded(k);
        lemma_tally_unique(s, k, i);
    } else {
        lemma_tally_absent(s, k);
    }
}

/// Occurrence counts of terms, one entry per key up to ASCII case, each key kept
/// with the case of its first occurrence.
#[derive(Debug)]
pub struct TermCounts {
    entries: Vec<(CaseInsensitiveString, usize)>,
    total: usize,
}

impl View for TermCounts {
    type V = Seq<(Seq<char>, nat)>;

    closed spec fn view(&self) -> Seq<(Seq<char>, nat)> {
        self.entries@.map_values(|e: (CaseInsensitiveString, usize)| (e.0@, e.1 as nat))
    }
}

impl TermCounts {
    pub closed spec fn wf(&self) -> bool {
        unique_keys(self@) && positive(self@) && total(self@) == self.total
    }

    /// How many times `k` was counted.
    pub open spec fn count_of(&self, k: Seq<char>) -> nat {
        tally(self@, k)
    }

    pub open spec fn sum(&self) -> nat {
        total(self@)
    }

    pub proof fn lemma_wf(&self)
        requires
            self.wf(),
        ensures
            unique_keys(self@),
            positive(self@),
            self.sum() <= usize::MAX,
    {
    }

    pub fn new() -> (r: TermCounts)
        ensures
            r.wf(),
            r@ == Seq::<(Seq<char>, nat)>::empty(),
    {
        let r = TermCounts { entries: Vec::new(), total: 0 };
        assert(r@ =~= Seq::<(Seq<char>, nat)>::empty());
        r
    }

    /// Sum of all counts.
    pub fn total(&self) -> (r: usize)
        requires
            self.wf(),
        ensures
            r == self.sum(),
    {
        self.total
    }

    /// Number of distinct keys.
    pub fn len(&self) -> (r: usize)
        ensures
            r == self@.len(),
    {
        self.entries.len()
    }

    /// The `i`-th entry: its key and its count.
    pub fn entry(&self, i: usize) -> (r: (&CaseInsensitiveString, usize))
        requires
            i < self@.len(),
        ensures
            r.0@ == self@[i as int].0,
            r.1 == self@[i as int].1,
    {
        (&self.entries[i].0, self.entries[i].1)
    }

    fn find(&self, term: &CaseInsensitiveString) -> (r: Option<usize>)
        ensures
            match r {
                Some(i) => i < self@.len() && folded(self@[i as int].0) == folded(term@),
                None => !has_key(self@, term@),
            },
    {
        let mut i: usize = 0;
        while i < self.entries.len()
            invariant
                i <= self@.len(),
                self@.len() == self.entries@.len(),
                forall|j: int| 0 <= j < i ==> folded(#[trigger] self@[j].0) != folded(term@),
            decreases self@.len() - i,
        {
            if self.entries[i].0.same_key(term) {
                return Some(i);
            }
            i = i + 1;
        }
        None
    }

    /// How many times `term` was counted, ignoring ASCII case.
    pub fn get(&self, term: &CaseInsensitiveString) -> (r: usize)
        requires
            self.wf(),
        ensures
            r == self.count_of(term@),
    {
        match self.find(term) {
            Some(i) => {
                proof {
                    lemma_tally_unique(self@, term@, i as int);
                }
                self.entries[i].1
            },
            None => {
                proof {
                    lemma_tally_absent(self@, term@);
                }
                0
            },
        }
    }

    /// Whether `term` was counted at least once.
    pub fn contains(&self, term: &CaseInsensitiveString) -> (r: bool)
        requires
            self.wf(),
        ensures
            r == has_key(self@, term@),
            r == (self.count_of(term@) > 0),
    {
        match self.find(term) {
            Some(i) => {
                proof {
                    lemma_tally_unique(self@, term@, i as int);
                }
                true
            },
            None => {
                proof {
                    lemma_tally_absent(self@, term@);
                }
                false
            },
        }
    }

    /// Counts one more occurrence of `term`.
    pub fn add(&mut self, term: CaseInsensitiveString)
        requires
            old(self).wf(),
            old(self).sum() < usize::MAX,
        ensures
            final(self).wf(),
            final(self).sum() == old(self).sum() + 1,
            forall|k: Seq<char>|
                #[trigger] final(self).count_of(k) == old(self).count_of(k) + if folded(term@)
                    == folded(k) {
                    1nat
                } else {
                    0nat
                },
            forall|k: Seq<char>| #[trigger] has_key(final(self)@, k) <==> has_key(old(self)@, k) || folded(k) == folded(term@),
    {
        let ghost s = self@;
        match self.find(&term) {
            Some(i) => {
                proof {
                    lemma_entry_le_total(s, i as int);
                    lemma_bump(s, i as int, term@);
                }
                let c = self.entries[i].1;
                let key = CaseInsensitiveString::from_chars(self.entries[i].0.as_chars());
                self.entries.set(i, (key, c + 1));
                self.total = self.total + 1;
                proof {
                    let u = s.update(i as int, (s[i as int].0, s[i as int].1 + 1));
                    assert(self@ =~= u);
                    assert forall|k: Seq<char>| #[trigger]
                        tally(self@, k) == tally(s, k) + if folded(term@) == folded(k) {
                            1nat
                        } else {
                            0nat
                        } by {
                        lemma_bump(s, i as int, k);
                    }
                    assert forall|k: Seq<char>| #[trigger] has_key(self@, k) <==> has_key(s, k)
                        || folded(k) == folded(term@) by {
                        if has_key(s, k) {
                            let j = choose|j: int| 0 <= j < s.len() && folded(#[trigger] s[j].0) == folded(k);
                            assert(folded(self@[j].0) == folded(k));
                        }
                        if has_key(self@, k) {
                            let j = choose|j: int| 0 <= j < self@.len() && folded(#[trigger] self@[j].0) == folded(k);
                            assert(folded(s[j].0) == folded(k));
                        }
                        if folded(k) == folded(term@) {
                            assert(folded(self@[i as int].0) == folded(k));
                        }
                    }
                }
            },
            None => {
                self.entries.push((term, 1));
                self.total = self.total + 1;
                proof {
                    let e = (term@, 1nat);
                    assert(self@ =~= s.push(e));
                    assert forall|k: Seq<char>| #[trigger]
                        tally(self@, k) == tally(s, k) + if folded(term@) == folded(k) {
                            1nat
                        } else {
                            0nat
                        } by {
                        lemma_push(s, e, k);
                    }
                    lemma_push(s, e, term@);
                    assert forall|k: Seq<char>| #[trigger] has_key(self@, k) <==> has_key(s, k)
                        || folded(k) == folded(term@) by {
                        if has_key(s, k) {
                            let j = choose|j: int| 0 <= j < s.len() && folded(#[trigger] s[j].0) == folded(k);
                            assert(self@[j] == s[j]);
                        }
                        if has_key(self@, k) {
                            let j = choose|j: int| 0 <= j < self@.len() && folded(#[trigger] self@[j].0) == folded(k);
                            if j < s.len() {
                                assert(self@[j] == s[j]);
                            }
                        }
                        if folded(k) == folded(term@) {
                            assert(folded(self@[s.len() as int].0) == folded(k));
                        }
                    }
                }
            },
        }
    }
}

/// The table that a list of entries describes.
pub open spec fn entries_view(v: Seq<(String, usize)>) -> Seq<(Seq<char>, nat)> {
    v.map_values(|e: (String, usize)| (e.0@, e.1 as nat))
}

impl TermCounts {
    /// The table of the given entries, each key with its count; `None` when two
    /// keys are equal up to ASCII case, a count is zero, or the sum does not fit
    /// in a machine word.
    pub fn from_entries(v: &Vec<(String, usize)>) -> (r: Option<TermCounts>)
        ensures
            match r {
                Some(t) => t.wf() && t@ == entries_view(v@),
                None => !(unique_keys(entries_view(v@)) && positive(entries_view(v@)) && total(
                    entries_view(v@),
                ) <= usize::MAX),
            },
    {
        let ghost w = entries_view(v@);
        let mut t = TermCounts::new();
        let mut i: usize = 0;
        while i < v.len()
            invariant
                w == entries_view(v@),
                i <= v@.len(),
                t.wf(),
                t@ == w.subrange(0, i as int),
            decreases v@.len() - i,
        {
            let key = CaseInsensitiveString::from_str(v[i].0.as_str());
            let c = v[i].1;
            let ghost p = w.subrange(0, i as int);
            proof {
                assert(w.subrange(0, i + 1) =~= p.push(w[i as int]));
                assert(p.push(w[i as int]).drop_last() =~= p);
            }
            if c == 0 {
                proof {
                    assert(w[i as int].1 == 0);
                    assert(!positive(w));
                }
                return None;
            }
            if self_find(&t, &key) {
                proof {
                    let j = choose|j: int| 0 <= j < p.len() && folded(#[trigger] p[j].0) == folded(key@);
                    assert(w[j] == p[j]);
                    assert(w[i as int].0 == key@);
                    assert(folded(w[j].0) == folded(w[i as int].0));
                    assert(!unique_keys(w));
                }
                return None;
            }
            if c > usize::MAX - t.total {
                proof {
                    lemma_total_prefix(w, i + 1);
                }
                return None;
            }
            t.entries.push((key, c));
            t.total = t.total + c;
            proof {
                assert(t@ =~= w.subrange(0, i + 1));
                assert forall|a: int, b: int|
                    0 <= a < t@.len() && 0 <= b < t@.len() && a != b implies folded(
                    #[trigger] t@[a].0,
                ) != folded(#[trigger] t@[b].0) by {
                    if a == i as int {
                        assert(t@[b] == p[b]);
                    } else if b == i as int {
                        assert(t@[a] == p[a]);
                    } else {
                        assert(t@[a] == p[a] && t@[b] == p[b]);
                    }
                }
            }
            i = i + 1;
        }
        proof {
            assert(w.subrange(0, i as int) =~= w);
        }
        Some(t)
    }

    /// The entries, each key with its case and its count.
    pub fn to_entries(&self) -> (r: Vec<(String, usize)>)
        ensures
            entries_view(r@) == self@,
    {
        let mut r: Vec<(String, usize)> = Vec::new();
        let mut i: usize = 0;
        while i < self.entries.len()
            invariant
                i <= self@.len(),
                self@.len() == self.entries@.len(),
                entries_view(r@) == self@.subrange(0, i as int),
            decreases self@.len() - i,
        {
            let ghost r0 = r@;
            let text = self.entries[i].0.to_text();
            r.push((text, self.entries[i].1));
            proof {
                assert(r@ == r0.push((text, self.entries@[i as int].1)));
                assert(self@[i as int] == (text@, self.entries@[i as int].1 as nat));
                assert(entries_view(r@) =~= entries_view(r0).push(self@[i as int]));
                assert(self@.subrange(0, i + 1) =~= self@.subrange(0, i as int).push(self@[i as int]));
            }
            i = i + 1;
        }
        proof {
            assert(self@.subrange(0, i as int) =~= self@);
        }
        r
    }
}

fn self_find(t: &TermCounts, key: &CaseInsensitiveString) -> (r: bool)
    ensures
        r == has_key(t@, key@),
{
    t.find(key).is_some()
}

pub proof fn lemma_total_prefix(s: Seq<(Seq<char>, nat)>, j: int)
    requires
        0 <= j <= s.len(),
    ensures
        total(s.subrange(0, j)) <= total(s),
    decreases s.len(),
{
    if j < s.len() {
        assert(s.drop_last().subrange(0, j) =~= s.subrange(0, j));
        lemma_total_prefix(s.drop_last(), j);
    } else {
        assert(s.subrange(0, j) =~= s);
    }
}

} // verus!
