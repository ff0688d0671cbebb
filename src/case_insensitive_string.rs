//! A text value whose identity ignores ASCII case.
use core::cmp::Ordering;
use vstd::prelude::*;
use vstd::std_specs::cmp::PartialEqSpec;

use crate::chars::{chars_of, is_alpha, lower, string_of, to_lower, to_upper, upper};

verus! {

/// The sequence that identifies a key: each character ASCII-lowercased.
pub open spec fn folded(s: Seq<char>) -> Seq<char> {
    s.map_values(|c: char| lower(c))
}

/// Ordering of two texts from position `i` on: the first pair of ASCII-uppercased
/// characters that differ decides; when one text runs out, the shorter is less.
pub open spec fn cmp_from(a: Seq<char>, b: Seq<char>, i: int) -> Ordering
    decreases a.len() - i,
{
    if i < 0 || i >= a.len() || i >= b.len() {
        if a.len() < b.len() {
            Ordering::Less
        } else if a.len() == b.len() {
            Ordering::Equal
        } else {
            Ordering::Greater
        }
    } else if upper(a[i]) == upper(b[i]) {
        cmp_from(a, b, i + 1)
    } else if upper(a[i]) < upper(b[i]) {
        Ordering::Less
    } else {
        Ordering::Greater
    }
}

pub open spec fn flipped(o: Ordering) -> Ordering {
    match o {
        Ordering::Less => Ordering::Greater,
        Ordering::Equal => Ordering::Equal,
        Ordering::Greater => Ordering::Less,
    }
}

pub open spec fn key_cmp(a: Seq<char>, b: Seq<char>) -> Ordering {
    cmp_from(a, b, 0)
}

/// A key is the same whether its text is given as it is, upper-cased or
/// lower-cased; characters other than ASCII letters are left as they are.
pub proof fn lemma_case_folding(s: Seq<char>)
    ensures
        folded(s.map_values(|c: char| upper(c))) == folded(s),
        folded(s.map_values(|c: char| lower(c))) == folded(s),
        forall|i: int| 0 <= i < s.len() && !is_alpha(s[i]) ==> #[trigger] folded(s)[i] == s[i],
{
    assert(folded(s.map_values(|c: char| upper(c))) =~= folded(s));
    assert(folded(s.map_values(|c: char| lower(c))) =~= folded(s));
}

/// Equal keys hash equally: the hash reads the folded text, which equal keys share.
pub proof fn lemma_hash_consistent(a: CaseInsensitiveString, b: CaseInsensitiveString)
    requires
        a.eq_spec(&b),
    ensures
        folded(a@) == folded(b@),
{
}

proof fn lemma_upper_lower(x: char, y: char)
    ensures
        (upper(x) == upper(y)) == (lower(x) == lower(y)),
{
}

proof fn lemma_cmp_from_equal(a: Seq<char>, b: Seq<char>, i: int)
    requires
        0 <= i <= a.len(),
        i <= b.len(),
        a.subrange(0, i).map_values(|c: char| lower(c)) == b.subrange(0, i).map_values(
            |c: char| lower(c),
        ),
    ensures
        (cmp_from(a, b, i) == Ordering::Equal) == (folded(a) == folded(b)),
    decreases a.len() - i,
{
    if i < a.len() && i < b.len() {
        lemma_upper_lower(a[i], b[i]);
        if upper(a[i]) == upper(b[i]) {
            assert(a.subrange(0, i + 1).map_values(|c: char| lower(c)) =~= a.subrange(
                0,
                i,
            ).map_values(|c: char| lower(c)).push(lower(a[i])));
            assert(b.subrange(0, i + 1).map_values(|c: char| lower(c)) =~= b.subrange(
                0,
                i,
            ).map_values(|c: char| lower(c)).push(lower(b[i])));
            lemma_cmp_from_equal(a, b, i + 1);
        } else {
            assert(folded(a)[i] != folded(b)[i]);
        }
    } else if a.len() == b.len() {
        assert(a.subrange(0, i) =~= a);
        assert(b.subrange(0, i) =~= b);
    } else {
        assert(folded(a).len() != folded(b).len());
    }
}

proof fn lemma_cmp_from_flip(a: Seq<char>, b: Seq<char>, i: int)
    requires
        0 <= i,
    ensures
        cmp_from(a, b, i) == flipped(cmp_from(b, a, i)),
    decreases a.len() - i,
{
    if i < a.len() && i < b.len() && upper(a[i]) == upper(b[i]) {
        lemma_cmp_from_flip(a, b, i + 1);
    }
}

/// The order agrees with equality: two keys compare equal exactly when they are
/// equal, and swapping them reverses the outcome.
pub proof fn lemma_order_consistent(a: CaseInsensitiveString, b: CaseInsensitiveString)
    ensures
        (key_cmp(a@, b@) == Ordering::Equal) == a.eq_spec(&b),
        key_cmp(a@, b@) == flipped(key_cmp(b@, a@)),
{
    assert(a@.subrange(0, 0).map_values(|c: char| lower(c)) =~= b@.subrange(0, 0).map_values(
        |c: char| lower(c),
    ));
    lemma_cmp_from_equal(a@, b@, 0);
    lemma_cmp_from_flip(a@, b@, 0);
}

/// A term, kept with its case, compared and ordered without regard to ASCII case.
#[derive(Clone, Debug)]
pub struct CaseInsensitiveString {
    text: Vec<char>,
}

impl View for CaseInsensitiveString {
    type V = Seq<char>;

    closed spec fn view(&self) -> Seq<char> {
        self.text@
    }
}

impl CaseInsensitiveString {
    pub fn new(s: String) -> (r: CaseInsensitiveString)
        ensures
            r@ == s@,
    {
        CaseInsensitiveString { text: chars_of(s.as_str()) }
    }

    pub fn from_str(s: &str) -> (r: CaseInsensitiveString)
        ensures
            r@ == s@,
    {
        CaseInsensitiveString { text: chars_of(s) }
    }

    pub fn from_chars(cs: &[char]) -> (r: CaseInsensitiveString)
        ensures
            r@ == cs@,
    {
        let mut text: Vec<char> = Vec::new();
        let mut i: usize = 0;
        while i < cs.len()
            invariant
                i <= cs@.len(),
                text@ == cs@.subrange(0, i as int),
            decreases cs@.len() - i,
        {
            text.push(cs[i]);
            i = i + 1;
        }
        CaseInsensitiveString { text }
    }

    /// The key as a value that owns its text.
    pub fn into_owned(self) -> (r: CaseInsensitiveString)
        ensures
            r@ == self@,
    {
        self
    }

    pub fn as_chars(&self) -> (r: &[char])
        ensures
            r@ == self@,
    {
        self.text.as_slice()
    }

    /// The text with its case as it was given.
    pub fn to_text(&self) -> (r: String)
        ensures
            r@ == self@,
    {
        string_of(self.text.as_slice())
    }

    /// The characters that hashing reads: the text ASCII-lowercased.
    pub fn hash_input(&self) -> (r: Vec<char>)
        ensures
            r@ == folded(self@),
    {
        let mut r: Vec<char> = Vec::new();
        let mut i: usize = 0;
        while i < self.text.len()
            invariant
                i <= self@.len(),
                r@ == folded(self@.subrange(0, i as int)),
            decreases self@.len() - i,
        {
            r.push(to_lower(self.text[i]));
            i = i + 1;
            proof {
                assert(folded(self@.subrange(0, i as int)) =~= folded(
                    self@.subrange(0, i - 1),
                ).push(lower(self@[i - 1])));
            }
        }
        proof {
            assert(self@.subrange(0, self@.len() as int) =~= self@);
        }
        r
    }

    /// Whether the two texts are equal once ASCII-lowercased.
    pub fn same_key(&self, other: &CaseInsensitiveString) -> (r: bool)
        ensures
            r == (folded(self@) == folded(other@)),
    {
        if self.text.len() != other.text.len() {
            proof {
                assert(folded(self@).len() != folded(other@).len());
            }
            return false;
        }
        let mut i: usize = 0;
        while i < self.text.len()
            invariant
                i <= self@.len(),
                self@.len() == other@.len(),
                forall|j: int| 0 <= j < i ==> lower(#[trigger] self@[j]) == lower(other@[j]),
            decreases self@.len() - i,
        {
            if to_lower(self.text[i]) != to_lower(other.text[i]) {
                proof {
                    assert(folded(self@)[i as int] != folded(other@)[i as int]);
                }
                return false;
            }
            i = i + 1;
        }
        proof {
            assert(folded(self@) =~= folded(other@));
        }
        true
    }

    pub fn key_cmp(&self, other: &CaseInsensitiveString) -> (r: Ordering)
        ensures
            r == key_cmp(self@, other@),
    {
        let a = &self.text;
        let b = &other.text;
        let mut i: usize = 0;
        while i < a.len() && i < b.len()
            invariant
                a@ == self@,
                b@ == other@,
                i <= a@.len(),
                i <= b@.len(),
                cmp_from(a@, b@, 0) == cmp_from(a@, b@, i as int),
            decreases a@.len() - i,
        {
            let ua = to_upper(a[i]);
            let ub = to_upper(b[i]);
            proof {
                assert(ua == upper(a@[i as int]) && ub == upper(b@[i as int]));
                assert(cmp_from(a@, b@, i as int) == if ua == ub {
                    cmp_from(a@, b@, i + 1)
                } else if (ua as u32) < (ub as u32) {
                    Ordering::Less
                } else {
                    Ordering::Greater
                });
            }
            if ua < ub {
                proof {
                    assert((ua as u32) < (ub as u32));
                    assert(cmp_from(a@, b@, i as int) == Ordering::Less);
                }
                return Ordering::Less;
            } else if ua > ub {
                proof {
                    assert((ua as u32) > (ub as u32));
                }
                return Ordering::Greater;
            }
            i = i + 1;
        }
        if a.len() < b.len() {
            Ordering::Less
        } else if a.len() == b.len() {
            Ordering::Equal
        } else {
            Ordering::Greater
        }
    }
}

impl PartialEq for CaseInsensitiveString {
    fn eq(&self, other: &CaseInsensitiveString) -> (r: bool) {
        self.same_key(other)
    }
}

impl vstd::std_specs::cmp::PartialEqSpecImpl for CaseInsensitiveString {
    open spec fn obeys_eq_spec() -> bool {
        true
    }

    open spec fn eq_spec(&self, other: &CaseInsensitiveString) -> bool {
        folded(self@) == folded(other@)
    }
}

impl Eq for CaseInsensitiveString {

}

impl PartialOrd for CaseInsensitiveString {
    fn partial_cmp(&self, other: &CaseInsensitiveString) -> (r: Option<Ordering>) {
        Some(self.key_cmp(other))
    }
}

impl vstd::std_specs::cmp::PartialOrdSpecImpl for CaseInsensitiveString {
    open spec fn obeys_partial_cmp_spec() -> bool {
        true
    }

    open spec fn partial_cmp_spec(&self, other: &CaseInsensitiveString) -> Option<Ordering> {
        Some(key_cmp(self@, other@))
    }
}

} // verus!
